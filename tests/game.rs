use tetris_server::board::SettledBoard;
use tetris_server::clock::millis_since_epoch;
use tetris_server::collision::fallen_blocks_collision;
use tetris_server::game::{add_fallen_blocks, Action, Game, KeyState};
use tetris_server::piece::{read_block, PieceState, Pivot, BOARD_HEIGHT, BOARD_WIDTH};
use tetris_server::session::{
    next_piece, replace_timeout, session_step, SessionAction, SessionEvent, SessionState,
};

fn piece(shape: u8, x: i32, y: i32, rotation: u8) -> PieceState {
    PieceState { player_id: 0, shape, pivot: Pivot { x, y }, rotation }
}

fn press(game: &mut Game, player_id: usize, action: Action) {
    game.update_state(&KeyState { player_id, action });
}

#[test]
fn bar_shape_rotates() {
    // unrotated bar: second row of its 4x4 grid
    for x in 0..4 {
        assert!(read_block(0, x, 1, 0));
        assert!(!read_block(0, x, 0, 0));
    }
    // one quarter turn: third column
    for y in 0..4 {
        assert!(read_block(0, 2, y, 1));
        assert!(!read_block(0, 1, y, 1));
    }
    // rotation is taken modulo four
    assert!(read_block(0, 2, 3, 5));
    // outside the grid nothing is filled
    assert!(!read_block(0, 4, 1, 0));
    assert!(!read_block(1, 3, 1, 0));
}

#[test]
fn every_kind_has_four_cells_in_every_rotation() {
    for shape in 0..7u8 {
        for rotation in 0..4u8 {
            let mut n = 0;
            for y in 0..4 {
                for x in 0..4 {
                    if read_block(shape, x, y, rotation) {
                        n += 1;
                    }
                }
            }
            assert_eq!(n, 4, "shape {} rotation {}", shape, rotation);
        }
    }
}

#[test]
fn collision_against_walls_floor_and_settled_cells() {
    let board = SettledBoard::new();
    assert!(!fallen_blocks_collision(&piece(0, 5, 5, 0), &board));
    // bar occupies x..x+3 on row y+1
    assert!(!fallen_blocks_collision(&piece(0, 0, 5, 0), &board));
    assert!(fallen_blocks_collision(&piece(0, -1, 5, 0), &board));
    assert!(!fallen_blocks_collision(&piece(0, BOARD_WIDTH - 4, 5, 0), &board));
    assert!(fallen_blocks_collision(&piece(0, BOARD_WIDTH - 3, 5, 0), &board));
    assert!(!fallen_blocks_collision(&piece(0, 5, BOARD_HEIGHT - 2, 0), &board));
    assert!(fallen_blocks_collision(&piece(0, 5, BOARD_HEIGHT - 1, 0), &board));
    // far outside any coordinate range
    assert!(fallen_blocks_collision(&piece(3, i32::MAX - 4, 0, 0), &board));

    let mut board = SettledBoard::new();
    board.insert(Pivot { x: 7, y: 6 }, 2);
    assert!(fallen_blocks_collision(&piece(0, 5, 5, 0), &board));
    assert!(!fallen_blocks_collision(&piece(0, 5, 4, 0), &board));
    assert!(!fallen_blocks_collision(&piece(0, 5, 6, 0), &board));
}

#[test]
fn settled_board_records_each_cell_once() {
    let mut board = SettledBoard::new();
    assert!(!board.contains(1, 2));
    board.insert(Pivot { x: 1, y: 2 }, 4);
    board.insert(Pivot { x: 3, y: 2 }, 6);
    assert!(board.contains(1, 2));
    assert_eq!(board.get(1, 2), Some(4));
    assert_eq!(board.get(3, 2), Some(6));
    assert_eq!(board.get(2, 2), None);
    assert_eq!(board.entries().len(), 2);
}

#[test]
fn add_fallen_blocks_keeps_settled_kinds() {
    let mut board = SettledBoard::new();
    board.insert(Pivot { x: 4, y: 11 }, 2);
    add_fallen_blocks(&piece(5, 3, 10, 0), &mut board);
    assert_eq!(board.entries().len(), 4);
    assert_eq!(board.get(4, 11), Some(2));
    assert_eq!(board.get(3, 11), Some(5));
}

#[test]
fn add_fallen_blocks_copies_every_cell() {
    let mut board = SettledBoard::new();
    // T piece: top middle and the whole second row
    add_fallen_blocks(&piece(5, 3, 10, 0), &mut board);
    assert_eq!(board.entries().len(), 4);
    assert_eq!(board.get(4, 10), Some(5));
    assert_eq!(board.get(3, 11), Some(5));
    assert_eq!(board.get(4, 11), Some(5));
    assert_eq!(board.get(5, 11), Some(5));
    assert_eq!(board.get(3, 10), None);
}

#[test]
fn move_right_stops_at_the_wall() {
    let mut game = Game::new();
    let (key, shape) = game.open_session(None, 0);
    assert_eq!(shape, 0);
    let start = game.piece(key).unwrap();
    assert_eq!(start.pivot, Pivot { x: 5, y: 5 });
    assert_eq!(start.rotation, 0);
    for _ in 0..10 {
        press(&mut game, key, Action::Right);
    }
    let p = game.piece(key).unwrap();
    // the bar's rightmost cell sits in the last column, never beyond it
    assert_eq!(p.pivot.x + 3, BOARD_WIDTH - 1);
    assert_eq!(p.pivot.x, 6);
    assert_eq!(p.pivot.y, 5);
}

#[test]
fn rejected_move_changes_nothing() {
    let mut game = Game::new();
    let (key, _) = game.open_session(None, 0);
    for _ in 0..10 {
        press(&mut game, key, Action::Left);
    }
    let at_wall = game.piece(key).unwrap();
    assert_eq!(at_wall.pivot.x, 0);
    press(&mut game, key, Action::Left);
    assert_eq!(game.piece(key).unwrap(), at_wall);
    press(&mut game, key, Action::Left);
    assert_eq!(game.piece(key).unwrap(), at_wall);
}

#[test]
fn rotate_and_soft_drop() {
    let mut game = Game::new();
    let (key, _) = game.open_session(None, 5);
    press(&mut game, key, Action::Rotate);
    assert_eq!(game.piece(key).unwrap().rotation, 1);
    press(&mut game, key, Action::SoftDrop);
    assert_eq!(game.piece(key).unwrap().pivot, Pivot { x: 5, y: 6 });
    for _ in 0..3 {
        press(&mut game, key, Action::Rotate);
    }
    assert_eq!(game.piece(key).unwrap().rotation, 0);
}

#[test]
fn hard_drop_reaches_the_floor() {
    let mut game = Game::new();
    let (key, _) = game.open_session(None, 0);
    press(&mut game, key, Action::HardDrop);
    let p = game.piece(key).unwrap();
    // the bar fills row y + 1, which must be the last row
    assert_eq!(p.pivot.y, BOARD_HEIGHT - 2);
    press(&mut game, key, Action::HardDrop);
    assert_eq!(game.piece(key).unwrap(), p);
}

#[test]
fn input_for_a_player_without_a_piece_is_ignored() {
    let mut game = Game::new();
    let (key, _) = game.open_session(None, 1);
    let before = game.piece(key).unwrap();
    press(&mut game, key + 1, Action::Right);
    assert_eq!(game.piece(key).unwrap(), before);
    assert!(game.piece(key + 1).is_none());
}

#[test]
fn landed_piece_settles_on_next_gravity_step() {
    let mut game = Game::new();
    let (key, _) = game.open_session(None, 0);
    press(&mut game, key, Action::HardDrop);
    let snap = game.game_frame(1001);
    assert!(snap.piece_states.is_empty());
    assert!(game.piece(key).is_none());
    assert_eq!(snap.fallen_blocks.len(), 4);
    for x in 5..9 {
        assert!(snap
            .fallen_blocks
            .iter()
            .any(|b| b.position == Pivot { x, y: BOARD_HEIGHT - 1 } && b.original_shape == 0));
    }
    // a later step neither removes nor settles it again
    let snap = game.game_frame(2002);
    assert!(snap.piece_states.is_empty());
    assert_eq!(snap.fallen_blocks.len(), 4);
    assert_eq!(game.player_count(), 0);
}

#[test]
fn gravity_waits_for_its_period() {
    let mut game = Game::new();
    let (key, _) = game.open_session(None, 3);
    let snap = game.game_frame(1000);
    assert_eq!(snap.piece_states.len(), 1);
    assert_eq!(game.piece(key).unwrap().pivot.y, 5);
    let snap = game.game_frame(1001);
    assert_eq!(snap.piece_states[0].pivot.y, 6);
    game.game_frame(1500);
    assert_eq!(game.piece(key).unwrap().pivot.y, 6);
    game.game_frame(2002);
    assert_eq!(game.piece(key).unwrap().pivot.y, 7);
    // a clock that went backwards moves nothing
    game.game_frame(10);
    assert_eq!(game.piece(key).unwrap().pivot.y, 7);
}

#[test]
fn landing_piece_blocks_the_one_above() {
    let mut game = Game::new();
    let (low, _) = game.open_session(None, 0);
    press(&mut game, low, Action::HardDrop);
    let (high, _) = game.open_session(None, 0);
    for _ in 0..12 {
        press(&mut game, high, Action::SoftDrop);
    }
    // live pieces do not block each other: the upper bar fills the row just
    // above the lower one
    assert_eq!(game.piece(high).unwrap().pivot.y, BOARD_HEIGHT - 3);
    let snap = game.game_frame(1001);
    // the lower bar settles on the floor and the upper one rests on it
    assert!(snap.piece_states.is_empty());
    assert_eq!(snap.fallen_blocks.len(), 8);
    for x in 5..9 {
        assert_eq!(game.settled_at(x, (BOARD_HEIGHT - 1) as i64), Some(0));
        assert_eq!(game.settled_at(x, (BOARD_HEIGHT - 2) as i64), Some(0));
    }
}

#[test]
fn falling_piece_never_enters_settled_cells() {
    let mut game = Game::new();
    let (low, _) = game.open_session(None, 3);
    press(&mut game, low, Action::HardDrop);
    let (high, _) = game.open_session(None, 3);
    press(&mut game, high, Action::HardDrop);
    // live pieces do not block each other: both squares rest in the same cells
    assert_eq!(game.piece(high).unwrap().pivot, game.piece(low).unwrap().pivot);
    game.game_frame(1001);
    assert_eq!(game.player_count(), 0);
    let (third, _) = game.open_session(None, 3);
    press(&mut game, third, Action::HardDrop);
    let p = game.piece(third).unwrap();
    assert!(!game.collides(&p));
    assert_eq!(p.pivot.y, BOARD_HEIGHT - 4);
    game.game_frame(3000);
    assert!(game.piece(third).is_none());
    assert_eq!(game.snapshot().fallen_blocks.len(), 8);
    assert_eq!(game.settled_at(6, (BOARD_HEIGHT - 3) as i64), Some(3));
}

#[test]
fn reconnect_keeps_piece_type() {
    let mut game = Game::new();
    let (key, shape) = game.open_session(None, 4);
    assert_eq!(shape, 4);
    let p = game.piece(key).unwrap();
    assert_eq!(p.player_id, key);
    let (again, shape_again) = game.open_session(Some(key), 6);
    assert_eq!(again, key);
    assert_eq!(shape_again, 4);
    assert_eq!(game.player_count(), 1);
    assert_eq!(game.piece(key).unwrap(), p);
}

#[test]
fn reconnect_after_removal_gets_a_new_piece() {
    let mut game = Game::new();
    let (key, _) = game.open_session(None, 4);
    game.remove_player(key);
    let (fresh, shape) = game.open_session(Some(key), 6);
    assert_eq!(shape, 6);
    assert_eq!(game.piece(fresh).unwrap().player_id, fresh);
    assert_eq!(game.piece(fresh).unwrap().shape, 6);
    assert_eq!(game.player_count(), 1);
}

#[test]
fn two_players_do_not_disturb_each_other() {
    let mut game = Game::new();
    let (a, _) = game.open_session(None, 1);
    let (b, _) = game.open_session(None, 2);
    assert_ne!(a, b);
    assert_eq!(game.piece(a).unwrap().player_id, a);
    assert_eq!(game.piece(b).unwrap().player_id, b);
    press(&mut game, a, Action::Left);
    press(&mut game, b, Action::Right);
    press(&mut game, a, Action::SoftDrop);
    let pa = game.piece(a).unwrap();
    let pb = game.piece(b).unwrap();
    assert_eq!(pa.pivot, Pivot { x: 4, y: 6 });
    assert_eq!(pa.shape, 1);
    assert_eq!(pb.pivot, Pivot { x: 6, y: 5 });
    assert_eq!(pb.shape, 2);
}

#[test]
fn silent_connection_is_removed() {
    let mut game = Game::new();
    let (key, _) = game.open_session(None, 2);
    let mut s = SessionState::Connecting;
    let mut actions = Vec::new();
    for e in [
        SessionEvent::Opened,
        SessionEvent::TimerFired,
        SessionEvent::ProbeFailed,
        SessionEvent::Closed { normal: false },
    ] {
        let (next, action) = session_step(s, e);
        s = next;
        actions.push(action);
        if action == SessionAction::RemovePlayer {
            game.remove_player(key);
        }
    }
    assert_eq!(
        actions,
        vec![
            SessionAction::ArmTimer,
            SessionAction::SendProbe,
            SessionAction::CloseWithError,
            SessionAction::RemovePlayer
        ]
    );
    assert_eq!(s, SessionState::Removed);
    assert!(game.snapshot().piece_states.is_empty());
    // removing again is harmless
    game.remove_player(key);
    assert_eq!(game.player_count(), 0);
}

#[test]
fn answered_probe_and_traffic_rearm_the_timer() {
    assert_eq!(
        session_step(SessionState::TimedOut, SessionEvent::ProbeSent),
        (SessionState::Open, SessionAction::ArmTimer)
    );
    assert_eq!(
        session_step(SessionState::TimedOut, SessionEvent::MessageReceived),
        (SessionState::Open, SessionAction::ArmTimer)
    );
    assert_eq!(
        session_step(SessionState::Open, SessionEvent::Closed { normal: true }),
        (SessionState::Closing, SessionAction::LogClose)
    );
    assert_eq!(
        session_step(SessionState::Open, SessionEvent::Closed { normal: false }),
        (SessionState::Removed, SessionAction::RemovePlayer)
    );
    assert_eq!(
        session_step(SessionState::Removed, SessionEvent::Closed { normal: false }),
        (SessionState::Removed, SessionAction::Nothing)
    );
}

#[test]
fn at_most_one_pending_timer() {
    let mut slot: Option<u32> = None;
    assert_eq!(replace_timeout(&mut slot, 1), None);
    assert_eq!(replace_timeout(&mut slot, 2), Some(1));
    assert_eq!(slot, Some(2));
}

#[test]
fn next_piece_is_a_valid_kind() {
    for _ in 0..100 {
        assert!(next_piece() < 7);
    }
}

#[test]
fn clock_reads_after_the_epoch() {
    let a = millis_since_epoch().unwrap();
    let b = millis_since_epoch().unwrap();
    assert!(a > 1_500_000_000_000);
    assert!(b >= a);
}
