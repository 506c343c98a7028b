//! The shared game aggregate: the player registry and the settled board,
//! together with the rules that change them.
use vstd::prelude::*;
use slab::Slab;
use crate::board::{cell_key, SettledBoard};
use crate::collision::{blocked, collides, collides_at, fallen_blocks_collision, lemma_far_piece_collides, lemma_placed_pivot_in_board};
use crate::piece::{occupies, occupies_at, read_block, BlockState, SPAWN_X, SPAWN_Y, shape_grid_width, shape_width, PieceState, Pivot, BOARD_HEIGHT, BOARD_WIDTH, NUM_SHAPES};
use crate::registry::{slab_contents, slab_get, slab_insert, slab_keys, slab_len, slab_new, slab_set, slab_try_remove};

verus! {

/// A move that a player asks for.
#[derive(Clone, Copy, Debug, PartialEq, Eq, Structural)]
pub enum Action {
    Left,
    Right,
    Rotate,
    SoftDrop,
    HardDrop,
}

/// An input event: which player asks for which move. The player is always
/// the connection's own identity, never what the client claimed.
#[derive(Clone, Copy, Debug, PartialEq, Eq, Structural)]
pub struct KeyState {
    pub player_id: usize,
    pub action: Action,
}

/// A live piece registered under `key`: labelled with its key, of a valid
/// kind and rotation, with its pivot left of the right wall and above the floor.
pub open spec fn piece_ok(p: PieceState, key: usize) -> bool {
    &&& p.player_id == key
    &&& p.shape < NUM_SHAPES
    &&& p.rotation < 4
    &&& p.pivot.x < BOARD_WIDTH
    &&& p.pivot.y < BOARD_HEIGHT
}

/// `p` with the given rotation and pivot.
pub open spec fn moved(p: PieceState, rotation: u8, px: int, py: int) -> PieceState {
    PieceState { rotation, pivot: Pivot { x: px as i32, y: py as i32 }, ..p }
}

/// Rotation and pivot that a one-step action aims for.
pub open spec fn step_target(p: PieceState, a: Action) -> (u8, int, int) {
    let x = p.pivot.x as int;
    let y = p.pivot.y as int;
    match a {
        Action::Left => (p.rotation, x - 1, y),
        Action::Right => (p.rotation, x + 1, y),
        Action::Rotate => (((p.rotation + 1) % 4) as u8, x, y),
        _ => (p.rotation, x, y + 1),
    }
}

/// `p` can fall `k` rows, one at a time, without colliding.
pub open spec fn clear_drop(p: PieceState, board: Map<(int, int), u8>, k: int) -> bool {
    forall|j: int| 1 <= j <= k ==> !#[trigger] collides_at(p.shape, p.rotation, p.pivot.x as int, p.pivot.y + j, board)
}

/// `k` is how far `p` falls on a hard drop: it can fall `k` rows and not one more.
pub open spec fn is_drop_distance(p: PieceState, board: Map<(int, int), u8>, k: int) -> bool {
    &&& k >= 0
    &&& clear_drop(p, board, k)
    &&& collides_at(p.shape, p.rotation, p.pivot.x as int, p.pivot.y + k + 1, board)
}

pub open spec fn drop_distance(p: PieceState, board: Map<(int, int), u8>) -> int {
    choose|k: int| is_drop_distance(p, board, k)
}

/// The piece after `a` is applied against `board`: a one-step move is taken
/// only where its target does not collide; a hard drop falls as far as it can.
pub open spec fn after_action(p: PieceState, a: Action, board: Map<(int, int), u8>) -> PieceState {
    if a == Action::HardDrop {
        moved(p, p.rotation, p.pivot.x as int, p.pivot.y + drop_distance(p, board))
    } else {
        let (r, px, py) = step_target(p, a);
        if collides_at(p.shape, r, px, py, board) {
            p
        } else {
            moved(p, r, px, py)
        }
    }
}

/// The registry after `input`: only the sender's own piece can change, and
/// a sender without a piece changes nothing.
pub open spec fn after_input(
    pieces: Map<usize, PieceState>,
    board: Map<(int, int), u8>,
    input: KeyState,
) -> Map<usize, PieceState> {
    if pieces.contains_key(input.player_id) {
        pieces.insert(input.player_id, after_action(pieces[input.player_id], input.action, board))
    } else {
        pieces
    }
}

/// The drop distance, where there is one, is unique.
pub proof fn lemma_drop_distance_unique(p: PieceState, board: Map<(int, int), u8>, k1: int, k2: int)
    requires
        is_drop_distance(p, board, k1),
        is_drop_distance(p, board, k2),
    ensures
        k1 == k2,
{
    if k1 < k2 {
        assert(!collides_at(p.shape, p.rotation, p.pivot.x as int, p.pivot.y + (k1 + 1), board));
    } else if k2 < k1 {
        assert(!collides_at(p.shape, p.rotation, p.pivot.x as int, p.pivot.y + (k2 + 1), board));
    }
}

/// `board` with every free cell of `p` settled as `p`'s kind; cells already
/// settled keep their kind.
pub open spec fn settle(board: Map<(int, int), u8>, p: PieceState) -> Map<(int, int), u8> {
    Map::new(
        |c: (int, int)| board.contains_key(c) || occupies(p, c.0, c.1),
        |c: (int, int)| if board.contains_key(c) { board[c] } else { p.shape },
    )
}

/// Local cell `(c.0, c.1)` relative to `p`'s pivot comes before local cell `(dx, dy)` in row order.
pub open spec fn visited(p: PieceState, c: (int, int), dx: int, dy: int) -> bool {
    c.1 - p.pivot.y < dy || (c.1 - p.pivot.y == dy && c.0 - p.pivot.x < dx)
}

/// `board` with the cells of `p` that come before local cell `(dx, dy)` settled.
pub open spec fn settle_upto(board: Map<(int, int), u8>, p: PieceState, dx: int, dy: int) -> Map<(int, int), u8> {
    Map::new(
        |c: (int, int)| board.contains_key(c) || (occupies(p, c.0, c.1) && visited(p, c, dx, dy)),
        |c: (int, int)| if board.contains_key(c) { board[c] } else { p.shape },
    )
}

/// Copies every cell of `piece` into the settled board, recording its kind
/// where the cell was free.
pub fn add_fallen_blocks(piece: &PieceState, fallen_blocks: &mut SettledBoard)
    requires
        old(fallen_blocks).wf(),
        piece.pivot.x <= i32::MAX - 4,
        piece.pivot.y <= i32::MAX - 4,
    ensures
        final(fallen_blocks).wf(),
        final(fallen_blocks)@ == settle(old(fallen_blocks)@, *piece),
{
    let ghost b0 = fallen_blocks@;
    let p = *piece;
    let width = shape_grid_width(p.shape);
    assert(settle_upto(b0, p, 0, 0) =~= b0);
    let mut y: i32 = 0;
    while y < width
        invariant
            width == shape_width(p.shape),
            0 <= y <= width,
            p.pivot.x <= i32::MAX - 4,
            p.pivot.y <= i32::MAX - 4,
            fallen_blocks.wf(),
            fallen_blocks@ == settle_upto(b0, p, 0, y as int),
        decreases width - y,
    {
        let mut x: i32 = 0;
        while x < width
            invariant
                width == shape_width(p.shape),
                0 <= y < width,
                0 <= x <= width,
                p.pivot.x <= i32::MAX - 4,
                p.pivot.y <= i32::MAX - 4,
                fallen_blocks.wf(),
                fallen_blocks@ == settle_upto(b0, p, x as int, y as int),
            decreases width - x,
        {
            let abs_x = x + p.pivot.x;
            let abs_y = y + p.pivot.y;
            let ghost before = fallen_blocks@;
            if read_block(p.shape, x, y, p.rotation) && !fallen_blocks.contains(abs_x as i64, abs_y as i64) {
                fallen_blocks.insert(Pivot { x: abs_x, y: abs_y }, p.shape);
                assert(fallen_blocks@ =~= settle_upto(b0, p, x + 1, y as int));
            } else {
                assert(fallen_blocks@ =~= settle_upto(b0, p, x + 1, y as int));
            }
            x = x + 1;
        }
        assert(fallen_blocks@ =~= settle_upto(b0, p, 0, y + 1));
        y = y + 1;
    }
    assert(fallen_blocks@ =~= settle(b0, p));
}

/// Ends the life of a landed piece as a controllable piece.
fn remove_from_play(player_id: usize, players: &mut Slab<PieceState>)
    ensures
        slab_contents(*final(players)) == slab_contents(*old(players)).remove(player_id),
{
    slab_try_remove(players, player_id);
}

/// `p` one row lower.
pub open spec fn down(p: PieceState) -> PieceState {
    moved(p, p.rotation, p.pivot.x as int, p.pivot.y + 1)
}

/// `p` cannot fall one more row on `board`.
pub open spec fn lands(p: PieceState, board: Map<(int, int), u8>) -> bool {
    collides_at(p.shape, p.rotation, p.pivot.x as int, p.pivot.y + 1, board)
}

/// `board` with the cells of the pieces `ks` added; a new cell records the
/// kind of one of the pieces that fill it.
pub open spec fn cover(board: Map<(int, int), u8>, pieces: Map<usize, PieceState>, ks: Seq<usize>) -> Map<(int, int), u8> {
    Map::new(
        |c: (int, int)| board.contains_key(c) || exists|i: int| 0 <= i < ks.len() && #[trigger] occupies(pieces[ks[i]], c.0, c.1),
        |c: (int, int)|
            if board.contains_key(c) {
                board[c]
            } else {
                pieces[ks[choose|i: int| 0 <= i < ks.len() && #[trigger] occupies(pieces[ks[i]], c.0, c.1)]].shape
            },
    )
}

/// `ks` lists distinct pieces in an order in which each one lands on the board
/// made of `board` and the pieces listed before it.
pub open spec fn settle_order(pieces: Map<usize, PieceState>, board: Map<(int, int), u8>, ks: Seq<usize>) -> bool {
    &&& ks.no_duplicates()
    &&& forall|i: int| 0 <= i < ks.len() ==> pieces.contains_key(#[trigger] ks[i])
        && lands(pieces[ks[i]], cover(board, pieces, ks.take(i)))
}

/// One gravity step takes `pieces` on `board` to `pieces1` on `board1`,
/// settling the pieces `ks`: each of them lands on the board as it stands
/// with the ones settled before it, so a piece that lands blocks the others;
/// their cells join the board, where no settled cell changes its kind and a
/// new cell records the kind of the first of them to fill it; every
/// other piece can fall on the resulting board and moves one row down.
pub open spec fn gravity_step(
    pieces: Map<usize, PieceState>,
    board: Map<(int, int), u8>,
    ks: Seq<usize>,
    pieces1: Map<usize, PieceState>,
    board1: Map<(int, int), u8>,
) -> bool {
    &&& settle_order(pieces, board, ks)
    &&& pieces1 == Map::new(|k: usize| pieces.contains_key(k) && !ks.contains(k), |k: usize| down(pieces[k]))
    &&& board1.dom() == cover(board, pieces, ks).dom()
    &&& forall|c: (int, int)| #[trigger] board.contains_key(c) ==> board1[c] == board[c]
    &&& forall|c: (int, int)| #[trigger] board1.contains_key(c) && !board.contains_key(c) ==> exists|i: int|
        0 <= i < ks.len() && #[trigger] occupies(pieces[ks[i]], c.0, c.1) && board1[c] == pieces[ks[i]].shape
        && forall|j: int| 0 <= j < i ==> !#[trigger] occupies(pieces[ks[j]], c.0, c.1)
    &&& forall|k: usize| #[trigger] pieces.contains_key(k) && !ks.contains(k) ==> !lands(pieces[k], board1)
}

/// Adding settled cells never frees a piece that collided.
pub proof fn lemma_collides_more_cells(
    shape: u8,
    rotation: u8,
    px: int,
    py: int,
    b1: Map<(int, int), u8>,
    b2: Map<(int, int), u8>,
)
    requires
        b1.dom().subset_of(b2.dom()),
        collides_at(shape, rotation, px, py, b1),
    ensures
        collides_at(shape, rotation, px, py, b2),
{
    let (x, y) = choose|x: int, y: int| #[trigger] occupies_at(shape, rotation, px, py, x, y) && blocked(b1, x, y);
    if b1.contains_key((x, y)) {
        assert(b2.dom().contains((x, y)));
    }
}

proof fn lemma_push_contains(s: Seq<usize>, v: usize)
    ensures
        forall|q: usize| #[trigger] s.push(v).contains(q) == (s.contains(q) || q == v),
{
    assert forall|q: usize| #[trigger] s.push(v).contains(q) == (s.contains(q) || q == v) by {
        if s.contains(q) {
            let j = choose|j: int| 0 <= j < s.len() && s[j] == q;
            assert(s.push(v)[j] == q);
        }
        if q == v {
            assert(s.push(v)[s.len() as int] == q);
        }
        if s.push(v).contains(q) && q != v {
            let j = choose|j: int| 0 <= j < s.len() + 1 && s.push(v)[j] == q;
            assert(s[j] == q);
        }
    }
}

/// A one-step move whose target collides leaves the registry as it was: the
/// player's piece keeps its position and rotation.
pub proof fn lemma_rejected_move_keeps_piece(
    pieces: Map<usize, PieceState>,
    board: Map<(int, int), u8>,
    input: KeyState,
)
    requires
        input.action != Action::HardDrop,
        pieces.contains_key(input.player_id) ==> collides_at(
            pieces[input.player_id].shape,
            step_target(pieces[input.player_id], input.action).0,
            step_target(pieces[input.player_id], input.action).1,
            step_target(pieces[input.player_id], input.action).2,
            board,
        ),
    ensures
        after_input(pieces, board, input) == pieces,
{
    if pieces.contains_key(input.player_id) {
        assert(after_input(pieces, board, input) =~= pieces);
    }
}

/// Inputs of two different players do not interfere: each leaves the other's
/// piece untouched, and applying them in either order gives the same registry.
pub proof fn lemma_inputs_of_different_players_commute(
    pieces: Map<usize, PieceState>,
    board: Map<(int, int), u8>,
    a: KeyState,
    b: KeyState,
)
    requires
        a.player_id != b.player_id,
    ensures
        after_input(pieces, board, a).contains_key(b.player_id) == pieces.contains_key(b.player_id),
        pieces.contains_key(b.player_id) ==> after_input(pieces, board, a)[b.player_id] == pieces[b.player_id],
        after_input(after_input(pieces, board, a), board, b) == after_input(after_input(pieces, board, b), board, a),
{
    assert(after_input(after_input(pieces, board, a), board, b) =~= after_input(after_input(pieces, board, b), board, a));
}

/// A piece that cannot fall settles in the gravity step: it leaves the
/// registry, each of its cells is on the settled board afterwards, and no
/// cell settled before changes its kind.
pub proof fn lemma_landed_piece_settles(
    pieces: Map<usize, PieceState>,
    board: Map<(int, int), u8>,
    ks: Seq<usize>,
    pieces1: Map<usize, PieceState>,
    board1: Map<(int, int), u8>,
    k: usize,
)
    requires
        gravity_step(pieces, board, ks, pieces1, board1),
        pieces.contains_key(k),
        lands(pieces[k], board),
    ensures
        ks.contains(k),
        !pieces1.contains_key(k),
        forall|x: int, y: int| #[trigger] occupies(pieces[k], x, y) ==> board1.contains_key((x, y)),
        forall|c: (int, int)| #[trigger] board.contains_key(c) ==> board1.contains_key(c) && board1[c] == board[c],
{
    assert forall|c: (int, int)| #[trigger] board.contains_key(c) implies board1.contains_key(c) by {
        assert(cover(board, pieces, ks).contains_key(c));
    }
    if !ks.contains(k) {
        let p = pieces[k];
        assert(board.dom().subset_of(board1.dom()));
        lemma_collides_more_cells(p.shape, p.rotation, p.pivot.x as int, p.pivot.y + 1, board, board1);
    }
    let m = choose|m: int| 0 <= m < ks.len() && ks[m] == k;
    assert forall|x: int, y: int| #[trigger] occupies(pieces[k], x, y) implies board1.contains_key((x, y)) by {
        let c = (x, y);
        assert(occupies(pieces[ks[m]], c.0, c.1));
        assert(cover(board, pieces, ks).contains_key(c));
    }
}

/// Every piece left after a gravity step is free of the walls, the floor and
/// the settled board.
pub proof fn lemma_no_overlap_after_gravity(
    pieces: Map<usize, PieceState>,
    board: Map<(int, int), u8>,
    ks: Seq<usize>,
    pieces1: Map<usize, PieceState>,
    board1: Map<(int, int), u8>,
)
    requires
        gravity_step(pieces, board, ks, pieces1, board1),
        forall|k: usize| #[trigger] pieces.contains_key(k) ==> pieces[k].pivot.y < BOARD_HEIGHT,
    ensures
        forall|k: usize| #[trigger] pieces1.contains_key(k) ==> !collides(pieces1[k], board1),
{
    assert forall|k: usize| #[trigger] pieces1.contains_key(k) implies !collides(pieces1[k], board1) by {
        assert(pieces.contains_key(k) && !ks.contains(k));
        assert(!lands(pieces[k], board1));
    }
}

/// The registry and the settled board, which are always changed together.
pub struct Game {
    players: Slab<PieceState>,
    fallen_blocks: SettledBoard,
    last_shift_time: u128,
}

/// Milliseconds between two gravity steps.
pub const SHIFT_PERIOD_MILLIS: u128 = 1000;

/// Most players the registry takes at once.
pub const MAX_PLAYERS: usize = 0xffff_ffff;

/// A gravity step is due at `now` when more than the shift period has passed
/// since the last one; a clock that went backwards makes none due.
pub open spec fn gravity_due(now: u128, last: u128) -> bool {
    now > last && now - last > SHIFT_PERIOD_MILLIS
}

/// What the clients are told each frame: every live piece and every settled cell.
pub struct Snapshot {
    pub piece_states: Vec<PieceState>,
    pub fallen_blocks: Vec<BlockState>,
}

/// `s` lists exactly the pieces of `pieces`, each once, and exactly the cells
/// of `board`, each once with its kind.
pub open spec fn snapshot_of(s: Snapshot, pieces: Map<usize, PieceState>, board: Map<(int, int), u8>) -> bool {
    &&& forall|i: int, j: int| 0 <= i < j < s.piece_states@.len()
        ==> (#[trigger] s.piece_states@[i]).player_id != (#[trigger] s.piece_states@[j]).player_id
    &&& forall|i: int| 0 <= i < s.piece_states@.len()
        ==> pieces.contains_key((#[trigger] s.piece_states@[i]).player_id)
        && pieces[s.piece_states@[i].player_id] == s.piece_states@[i]
    &&& forall|k: usize| #[trigger] pieces.contains_key(k)
        ==> exists|i: int| 0 <= i < s.piece_states@.len() && #[trigger] s.piece_states@[i] == pieces[k]
    &&& forall|i: int, j: int| 0 <= i < j < s.fallen_blocks@.len()
        ==> cell_key(#[trigger] s.fallen_blocks@[i]) != cell_key(#[trigger] s.fallen_blocks@[j])
    &&& forall|i: int| 0 <= i < s.fallen_blocks@.len()
        ==> #[trigger] board.contains_key(cell_key(s.fallen_blocks@[i]))
        && board[cell_key(s.fallen_blocks@[i])] == s.fallen_blocks@[i].original_shape
    &&& forall|c: (int, int)| #[trigger] board.contains_key(c)
        ==> exists|i: int| 0 <= i < s.fallen_blocks@.len() && cell_key(#[trigger] s.fallen_blocks@[i]) == c
}

/// The connection already joined under key `known`, which still holds a piece.
pub open spec fn rejoins(pieces: Map<usize, PieceState>, known: Option<usize>) -> bool {
    match known {
        Some(k) => pieces.contains_key(k),
        None => false,
    }
}

/// The piece a new player starts with.
pub open spec fn spawn_piece(key: usize, shape: u8) -> PieceState {
    PieceState { player_id: key, shape, pivot: Pivot { x: SPAWN_X, y: SPAWN_Y }, rotation: 0 }
}

impl Game {
    /// The live pieces, by player key.
    pub closed spec fn pieces(&self) -> Map<usize, PieceState> {
        slab_contents(self.players)
    }

    /// The settled cells and the kind of piece each came from.
    pub closed spec fn settled(&self) -> Map<(int, int), u8> {
        self.fallen_blocks@
    }

    /// When gravity last moved the pieces.
    pub closed spec fn last_shift(&self) -> u128 {
        self.last_shift_time
    }

    pub closed spec fn wf(&self) -> bool {
        &&& self.fallen_blocks.wf()
        &&& self.pieces().dom().finite()
        &&& forall|k: usize| #[trigger] self.pieces().contains_key(k) ==> piece_ok(self.pieces()[k], k)
    }

    /// A game with no players and an empty board.
    pub fn new() -> (r: Game)
        ensures
            r.wf(),
            r.pieces() == Map::<usize, PieceState>::empty(),
            r.settled() == Map::<(int, int), u8>::empty(),
            r.last_shift() == 0,
    {
        Game { players: slab_new(), fallen_blocks: SettledBoard::new(), last_shift_time: 0 }
    }

    /// The piece of player `key`, if it has one.
    pub fn piece(&self, key: usize) -> (r: Option<PieceState>)
        requires
            self.wf(),
        ensures
            r == (if self.pieces().contains_key(key) {
                Some(self.pieces()[key])
            } else {
                None::<PieceState>
            }),
            r matches Some(p) ==> piece_ok(p, key),
    {
        let r = slab_get(&self.players, key);
        assert(self.pieces().contains_key(key) ==> piece_ok(self.pieces()[key], key));
        r
    }

    /// The kind of piece settled at `(x, y)`, if any.
    pub fn settled_at(&self, x: i64, y: i64) -> (r: Option<u8>)
        requires
            self.wf(),
        ensures
            r == (if self.settled().contains_key((x as int, y as int)) {
                Some(self.settled()[(x as int, y as int)])
            } else {
                None::<u8>
            }),
    {
        self.fallen_blocks.get(x, y)
    }

    /// Whether `p` would overlap a wall, the floor or a settled cell.
    pub fn collides(&self, p: &PieceState) -> (r: bool)
        requires
            self.wf(),
        ensures
            r == collides(*p, self.settled()),
    {
        fallen_blocks_collision(p, &self.fallen_blocks)
    }

    fn hard_drop(&self, p: PieceState) -> (r: PieceState)
        requires
            self.wf(),
            p.shape < NUM_SHAPES,
            p.pivot.y < BOARD_HEIGHT,
        ensures
            r == after_action(p, Action::HardDrop, self.settled()),
            r.pivot.y < BOARD_HEIGHT,
    {
        let mut y: i32 = p.pivot.y;
        loop
            invariant
                self.wf(),
                p.shape < NUM_SHAPES,
                p.pivot.y <= y < BOARD_HEIGHT,
                clear_drop(p, self.settled(), y - p.pivot.y),
            decreases BOARD_HEIGHT - y,
        {
            let c = PieceState { pivot: Pivot { x: p.pivot.x, y: y + 1 }, ..p };
            if fallen_blocks_collision(&c, &self.fallen_blocks) {
                proof {
                    let k = y - p.pivot.y;
                    assert(p.pivot.y + k + 1 == y + 1);
                    assert(is_drop_distance(p, self.settled(), k));
                    lemma_drop_distance_unique(p, self.settled(), k, drop_distance(p, self.settled()));
                }
                return PieceState { pivot: Pivot { x: p.pivot.x, y }, ..p };
            }
            proof {
                lemma_placed_pivot_in_board(c, self.settled());
                assert forall|j: int| 1 <= j <= y + 1 - p.pivot.y implies !#[trigger] collides_at(
                    p.shape,
                    p.rotation,
                    p.pivot.x as int,
                    p.pivot.y + j,
                    self.settled(),
                ) by {
                    if j < y + 1 - p.pivot.y {
                        assert(clear_drop(p, self.settled(), y - p.pivot.y));
                    }
                }
            }
            y = y + 1;
        }
    }

    /// Applies a player's input to that player's own piece, if it has one:
    /// the move is committed only where the moved piece would not collide.
    pub fn update_state(&mut self, input: &KeyState)
        requires
            old(self).wf(),
        ensures
            final(self).wf(),
            final(self).pieces() == after_input(old(self).pieces(), old(self).settled(), *input),
            final(self).settled() == old(self).settled(),
    {
        let id = input.player_id;
        let p = match slab_get(&self.players, id) {
            Some(p) => p,
            None => return,
        };
        assert(self.pieces().contains_key(id));
        assert(piece_ok(p, id));
        let ghost board = self.settled();
        let next = match input.action {
            Action::HardDrop => self.hard_drop(p),
            action => {
                let c = match action {
                    Action::Left => {
                        if p.pivot.x == i32::MIN {
                            proof {
                                lemma_far_piece_collides(p.shape, p.rotation, p.pivot.x - 1, p.pivot.y as int, board);
                            }
                            None
                        } else {
                            Some(PieceState { pivot: Pivot { x: p.pivot.x - 1, y: p.pivot.y }, ..p })
                        }
                    },
                    Action::Right => Some(PieceState { pivot: Pivot { x: p.pivot.x + 1, y: p.pivot.y }, ..p }),
                    Action::Rotate => Some(PieceState { rotation: (p.rotation + 1) % 4, ..p }),
                    _ => Some(PieceState { pivot: Pivot { x: p.pivot.x, y: p.pivot.y + 1 }, ..p }),
                };
                match c {
                    None => p,
                    Some(c) => {
                        if fallen_blocks_collision(&c, &self.fallen_blocks) {
                            p
                        } else {
                            proof {
                                lemma_placed_pivot_in_board(c, board);
                            }
                            c
                        }
                    },
                }
            },
        };
        slab_set(&mut self.players, id, next);
        proof {
            assert(piece_ok(next, id));
            assert(self.pieces() == after_input(old(self).pieces(), board, *input));
            assert forall|k: usize| #[trigger] self.pieces().contains_key(k) implies piece_ok(self.pieces()[k], k) by {
                if k != id {
                    assert(old(self).pieces().contains_key(k));
                }
            }
        }
    }

    /// The state of a gravity step that started from `p0` on `b0` and has
    /// settled the pieces `ks` so far.
    spec fn settling(&self, p0: Map<usize, PieceState>, b0: Map<(int, int), u8>, ks: Seq<usize>) -> bool {
        &&& self.fallen_blocks.wf()
        &&& self.pieces().dom().finite()
        &&& forall|k: usize| #[trigger] p0.contains_key(k) ==> piece_ok(p0[k], k)
        &&& settle_order(p0, b0, ks)
        &&& self.pieces() == p0.remove_keys(ks.to_set())
        &&& self.settled().dom() == cover(b0, p0, ks).dom()
        &&& forall|c: (int, int)| #[trigger] b0.contains_key(c) ==> self.settled()[c] == b0[c]
        &&& forall|c: (int, int)| #[trigger] self.settled().contains_key(c) && !b0.contains_key(c) ==> exists|i: int|
            0 <= i < ks.len() && #[trigger] occupies(p0[ks[i]], c.0, c.1) && self.settled()[c] == p0[ks[i]].shape
            && forall|j: int| 0 <= j < i ==> !#[trigger] occupies(p0[ks[j]], c.0, c.1)
    }

    /// Settles the live piece `p` of player `k`, which cannot fall.
    fn settle_piece(
        &mut self,
        k: usize,
        p: PieceState,
        Ghost(p0): Ghost<Map<usize, PieceState>>,
        Ghost(b0): Ghost<Map<(int, int), u8>>,
        Ghost(ks): Ghost<Seq<usize>>,
    )
        requires
            old(self).settling(p0, b0, ks),
            old(self).pieces().contains_key(k),
            p == p0[k],
            lands(p, old(self).settled()),
        ensures
            final(self).settling(p0, b0, ks.push(k)),
            final(self).pieces() == old(self).pieces().remove(k),
            final(self).last_shift() == old(self).last_shift(),
    {
        assert(p0.contains_key(k) && !ks.to_set().contains(k));
        assert(piece_ok(p, k));
        let ghost before = self.settled();
        add_fallen_blocks(&p, &mut self.fallen_blocks);
        remove_from_play(k, &mut self.players);
        proof {
            let ks2 = ks.push(k);
            let n = ks.len() as int;
            lemma_push_contains(ks, k);
            assert(!ks.contains(k));
            assert forall|a: int, b: int| 0 <= a < b < ks2.len() implies ks2[a] != ks2[b] by {
                if b == n {
                    assert(ks.contains(ks[a]));
                } else {
                    assert(ks[a] != ks[b]);
                }
            }
            assert(ks2.take(n) =~= ks);
            let cov = cover(b0, p0, ks);
            assert(before.dom().subset_of(cov.dom()));
            lemma_collides_more_cells(p.shape, p.rotation, p.pivot.x as int, p.pivot.y + 1, before, cov);
            assert forall|i: int| 0 <= i < ks2.len() implies p0.contains_key(#[trigger] ks2[i])
                && lands(p0[ks2[i]], cover(b0, p0, ks2.take(i))) by {
                if i < n {
                    assert(ks2.take(i) =~= ks.take(i));
                    assert(ks2[i] == ks[i]);
                }
            }
            assert(settle_order(p0, b0, ks2));
            assert(ks2.to_set() =~= ks.to_set().insert(k));
            assert(self.pieces() =~= p0.remove_keys(ks2.to_set()));
            assert forall|q: (int, int)| #[trigger] self.settled().dom().contains(q) == cover(b0, p0, ks2).dom().contains(q) by {
                if occupies(p, q.0, q.1) {
                    assert(occupies(p0[ks2[n]], q.0, q.1));
                }
                if exists|i: int| 0 <= i < ks2.len() && #[trigger] occupies(p0[ks2[i]], q.0, q.1) {
                    let i = choose|i: int| 0 <= i < ks2.len() && #[trigger] occupies(p0[ks2[i]], q.0, q.1);
                    if i < n {
                        assert(occupies(p0[ks[i]], q.0, q.1));
                        assert(cov.contains_key(q));
                    }
                }
                if exists|i: int| 0 <= i < ks.len() && #[trigger] occupies(p0[ks[i]], q.0, q.1) {
                    let i = choose|i: int| 0 <= i < ks.len() && #[trigger] occupies(p0[ks[i]], q.0, q.1);
                    assert(occupies(p0[ks2[i]], q.0, q.1));
                }
            }
            assert(self.settled().dom() =~= cover(b0, p0, ks2).dom());
            assert forall|q: (int, int)| #[trigger] b0.contains_key(q) implies self.settled()[q] == b0[q] by {
                assert(cov.contains_key(q));
            }
            assert forall|q: (int, int)| #[trigger] self.settled().contains_key(q) && !b0.contains_key(q) implies exists|i: int|
                0 <= i < ks2.len() && #[trigger] occupies(p0[ks2[i]], q.0, q.1) && self.settled()[q] == p0[ks2[i]].shape
                && forall|j: int| 0 <= j < i ==> !#[trigger] occupies(p0[ks2[j]], q.0, q.1) by {
                if before.contains_key(q) {
                    let i = choose|i: int| 0 <= i < ks.len() && #[trigger] occupies(p0[ks[i]], q.0, q.1)
                        && before[q] == p0[ks[i]].shape && forall|j: int| 0 <= j < i ==> !#[trigger] occupies(p0[ks[j]], q.0, q.1);
                    assert(ks2[i] == ks[i]);
                    assert forall|j: int| 0 <= j < i implies !#[trigger] occupies(p0[ks2[j]], q.0, q.1) by {
                        assert(ks2[j] == ks[j]);
                    }
                } else {
                    assert(occupies(p0[ks2[n]], q.0, q.1));
                    assert forall|j: int| 0 <= j < n implies !#[trigger] occupies(p0[ks2[j]], q.0, q.1) by {
                        assert(ks2[j] == ks[j]);
                        if occupies(p0[ks[j]], q.0, q.1) {
                            assert(cov.contains_key(q));
                        }
                    }
                }
            }
        }
    }

    /// One gravity step. Pieces that cannot fall settle, in rounds, until no
    /// live piece lands on the board as it then stands: a piece that settles
    /// blocks the ones above it. Every remaining piece then falls one row.
    pub fn shift_pieces(&mut self)
        requires
            old(self).wf(),
        ensures
            final(self).wf(),
            final(self).last_shift() == old(self).last_shift(),
            exists|ks: Seq<usize>| gravity_step(old(self).pieces(), old(self).settled(), ks, final(self).pieces(), final(self).settled()),
            forall|k: usize| #[trigger] final(self).pieces().contains_key(k) ==> !collides(final(self).pieces()[k], final(self).settled()),
    {
        let ghost p0 = self.pieces();
        let ghost b0 = self.settled();
        let ghost mut ks: Seq<usize> = Seq::empty();
        proof {
            assert(p0.remove_keys(ks.to_set()) =~= p0);
            assert(cover(b0, p0, ks).dom() =~= b0.dom());
        }
        let mut settling = true;
        while settling
            invariant
                self.settling(p0, b0, ks),
                self.last_shift() == old(self).last_shift(),
                !settling ==> forall|k: usize| #[trigger] self.pieces().contains_key(k) ==> !lands(p0[k], self.settled()),
            decreases 2 * self.pieces().len() + (if settling { 1int } else { 0int }),
        {
            let keys = slab_keys(&self.players);
            let ghost start = self.pieces();
            let mut any = false;
            let mut i: usize = 0;
            while i < keys.len()
                invariant
                    0 <= i <= keys@.len(),
                    keys@.to_set() == start.dom(),
                    start.dom().finite(),
                    self.settling(p0, b0, ks),
                    self.last_shift() == old(self).last_shift(),
                    self.pieces().dom().subset_of(start.dom()),
                    any ==> self.pieces().len() < start.len(),
                    !any ==> self.pieces() == start,
                    !any ==> forall|j: int| 0 <= j < i && #[trigger] self.pieces().contains_key(keys@[j])
                        ==> !lands(p0[keys@[j]], self.settled()),
                decreases keys@.len() - i,
            {
                let k = keys[i];
                let ghost board_before = self.settled();
                match slab_get(&self.players, k) {
                    Some(p) => {
                        assert(p == p0[k]);
                        assert(piece_ok(p, k));
                        let c = PieceState { pivot: Pivot { x: p.pivot.x, y: p.pivot.y + 1 }, ..p };
                        if fallen_blocks_collision(&c, &self.fallen_blocks) {
                            let ghost len_before = self.pieces().len();
                            self.settle_piece(k, p, Ghost(p0), Ghost(b0), Ghost(ks));
                            proof {
                                ks = ks.push(k);
                                assert(self.pieces().len() == len_before - 1);
                                vstd::set_lib::lemma_len_subset(self.pieces().dom(), start.dom());
                            }
                            any = true;
                        }
                    },
                    None => {},
                }
                i = i + 1;
            }
            proof {
                if !any {
                    assert forall|k: usize| #[trigger] self.pieces().contains_key(k) implies !lands(p0[k], self.settled()) by {
                        assert(keys@.to_set().contains(k));
                        let j = choose|j: int| 0 <= j < keys@.len() && keys@[j] == k;
                    }
                }
            }
            settling = any;
        }
        let ghost p1 = self.pieces();
        let ghost b1 = self.settled();
        assert(settle_order(p0, b0, ks));
        assert(b1.dom() == cover(b0, p0, ks).dom());
        assert(forall|c: (int, int)| #[trigger] b0.contains_key(c) ==> b1[c] == b0[c]);
        assert(forall|c: (int, int)| #[trigger] b1.contains_key(c) && !b0.contains_key(c) ==> exists|i: int|
            0 <= i < ks.len() && #[trigger] occupies(p0[ks[i]], c.0, c.1) && b1[c] == p0[ks[i]].shape
            && forall|j: int| 0 <= j < i ==> !#[trigger] occupies(p0[ks[j]], c.0, c.1));
        let keys = slab_keys(&self.players);
        let mut i: usize = 0;
        while i < keys.len()
            invariant
                0 <= i <= keys@.len(),
                keys@.no_duplicates(),
                keys@.to_set() == p1.dom(),
                p1.dom().finite(),
                p1 == p0.remove_keys(ks.to_set()),
                self.settled() == b1,
                settle_order(p0, b0, ks),
                b1.dom() == cover(b0, p0, ks).dom(),
                forall|c: (int, int)| #[trigger] b0.contains_key(c) ==> b1[c] == b0[c],
                forall|c: (int, int)| #[trigger] b1.contains_key(c) && !b0.contains_key(c) ==> exists|i: int|
                    0 <= i < ks.len() && #[trigger] occupies(p0[ks[i]], c.0, c.1) && b1[c] == p0[ks[i]].shape
                    && forall|j: int| 0 <= j < i ==> !#[trigger] occupies(p0[ks[j]], c.0, c.1),
                forall|k: usize| #[trigger] p0.contains_key(k) ==> piece_ok(p0[k], k),
                forall|k: usize| #[trigger] p1.contains_key(k) ==> !lands(p0[k], self.settled()),
                self.fallen_blocks.wf(),
                self.last_shift() == old(self).last_shift(),
                self.pieces().dom() == p1.dom(),
                forall|k: usize| #[trigger] self.pieces().contains_key(k) ==> self.pieces()[k] == (
                    if keys@.subrange(0, i as int).contains(k) { down(p0[k]) } else { p0[k] }),
                forall|k: usize| #[trigger] self.pieces().contains_key(k) ==> piece_ok(self.pieces()[k], k),
            decreases keys@.len() - i,
        {
            let k = keys[i];
            assert(keys@.to_set().contains(k));
            assert(!keys@.subrange(0, i as int).contains(k)) by {
                if keys@.subrange(0, i as int).contains(k) {
                    let j = choose|j: int| 0 <= j < i && keys@.subrange(0, i as int)[j] == k;
                    assert(keys@[j] == keys@[i as int]);
                }
            }
            let ghost prefix = keys@.subrange(0, i as int);
            assert(keys@.subrange(0, i + 1) == prefix.push(k));
            proof {
                lemma_push_contains(prefix, k);
            }
            match slab_get(&self.players, k) {
                Some(p) => {
                    assert(p == p0[k]);
                    let c = PieceState { pivot: Pivot { x: p.pivot.x, y: p.pivot.y + 1 }, ..p };
                    proof {
                        assert(!collides(c, self.settled()));
                        lemma_placed_pivot_in_board(c, self.settled());
                    }
                    slab_set(&mut self.players, k, c);
                    assert(c == down(p0[k]));
                },
                None => {},
            }
            proof {
                assert forall|q: usize| #[trigger] self.pieces().contains_key(q) implies self.pieces()[q] == (
                    if keys@.subrange(0, i + 1).contains(q) { down(p0[q]) } else { p0[q] }) by {
                    if q != k {
                        assert(keys@.subrange(0, i + 1).contains(q) == prefix.contains(q));
                    }
                }
            }
            i = i + 1;
        }
        proof {
            assert(keys@.subrange(0, keys@.len() as int) == keys@);
            let p2 = Map::new(|k: usize| p0.contains_key(k) && !ks.contains(k), |k: usize| down(p0[k]));
            assert forall|k: usize| #[trigger] self.pieces().contains_key(k) implies self.pieces()[k] == p2[k] by {
                assert(keys@.to_set().contains(k));
            }
            assert(self.pieces() =~= p2);
            assert forall|k: usize| #[trigger] p0.contains_key(k) && !ks.contains(k) implies !lands(p0[k], self.settled()) by {
                assert(p1.contains_key(k));
            }
            assert(gravity_step(p0, b0, ks, self.pieces(), self.settled()));
            assert forall|k: usize| #[trigger] self.pieces().contains_key(k) implies !collides(self.pieces()[k], self.settled()) by {
                assert(p1.contains_key(k));
                assert(piece_ok(p0[k], k));
            }
        }
    }

    /// What a well-formed game guarantees: finitely many live pieces, each
    /// registered under its own label, of a valid kind and rotation, with its
    /// pivot left of the right wall and above the floor; finitely many
    /// settled cells.
    pub proof fn lemma_valid(&self)
        requires
            self.wf(),
        ensures
            self.pieces().dom().finite(),
            self.settled().dom().finite(),
            forall|k: usize| #[trigger] self.pieces().contains_key(k) ==> piece_ok(self.pieces()[k], k),
    {
        self.fallen_blocks.lemma_finite();
    }

    /// The number of live pieces.
    pub fn player_count(&self) -> (r: usize)
        ensures
            r == self.pieces().len(),
    {
        slab_len(&self.players)
    }

    /// Removes a player from the game altogether; nothing happens where the
    /// player has no piece.
    pub fn remove_player(&mut self, player_id: usize)
        requires
            old(self).wf(),
        ensures
            final(self).wf(),
            final(self).pieces() == old(self).pieces().remove(player_id),
            final(self).settled() == old(self).settled(),
            final(self).last_shift() == old(self).last_shift(),
    {
        slab_try_remove(&mut self.players, player_id);
        assert forall|k: usize| #[trigger] self.pieces().contains_key(k) implies piece_ok(self.pieces()[k], k) by {
            assert(old(self).pieces().contains_key(k));
        }
    }

    /// A connection opens. `known` is the key this connection was given when
    /// it first joined, if any. Where that key still holds a piece, the piece
    /// is kept and its key and kind are reported again; otherwise a new piece
    /// of kind `shape` appears at the spawn point, registered and labelled
    /// under a fresh key, which is the connection's identity from then on.
    /// Returns the player's key and piece kind.
    pub fn open_session(&mut self, known: Option<usize>, shape: u8) -> (r: (usize, u8))
        requires
            old(self).wf(),
            shape < NUM_SHAPES,
            rejoins(old(self).pieces(), known) || old(self).pieces().len() < MAX_PLAYERS,
        ensures
            final(self).wf(),
            final(self).settled() == old(self).settled(),
            final(self).last_shift() == old(self).last_shift(),
            final(self).pieces().contains_key(r.0),
            final(self).pieces()[r.0].player_id == r.0,
            final(self).pieces()[r.0].shape == r.1,
            rejoins(old(self).pieces(), known) ==> {
                &&& known == Some(r.0)
                &&& r.1 == old(self).pieces()[r.0].shape
                &&& final(self).pieces() == old(self).pieces()
            },
            !rejoins(old(self).pieces(), known) ==> {
                &&& !old(self).pieces().contains_key(r.0)
                &&& r.1 == shape
                &&& final(self).pieces() == old(self).pieces().insert(r.0, spawn_piece(r.0, shape))
            },
    {
        if let Some(k) = known {
            if let Some(p) = slab_get(&self.players, k) {
                assert(self.pieces().contains_key(k));
                return (k, p.shape);
            }
        }
        let key = slab_insert(&mut self.players, spawn_piece_exec(0, shape));
        let piece = spawn_piece_exec(key, shape);
        slab_set(&mut self.players, key, piece);
        proof {
            assert(self.pieces() =~= old(self).pieces().insert(key, spawn_piece(key, shape)));
            assert forall|k: usize| #[trigger] self.pieces().contains_key(k) implies piece_ok(self.pieces()[k], k) by {
                if k != key {
                    assert(old(self).pieces().contains_key(k));
                }
            }
        }
        (key, shape)
    }

    /// Every live piece and every settled cell.
    pub fn snapshot(&self) -> (r: Snapshot)
        requires
            self.wf(),
        ensures
            snapshot_of(r, self.pieces(), self.settled()),
    {
        let keys = slab_keys(&self.players);
        let mut states: Vec<PieceState> = Vec::new();
        let mut i: usize = 0;
        while i < keys.len()
            invariant
                0 <= i <= keys@.len(),
                keys@.no_duplicates(),
                keys@.to_set() == self.pieces().dom(),
                self.wf(),
                states@.len() == i,
                forall|m: int| 0 <= m < i ==> (#[trigger] states@[m]) == self.pieces()[keys@[m]],
            decreases keys@.len() - i,
        {
            let k = keys[i];
            assert(keys@.to_set().contains(k));
            match slab_get(&self.players, k) {
                Some(p) => {
                    states.push(p);
                },
                None => {
                    assert(false);
                },
            }
            i = i + 1;
        }
        let blocks = self.fallen_blocks.entries();
        let r = Snapshot { piece_states: states, fallen_blocks: blocks };
        proof {
            assert forall|m: int| 0 <= m < r.piece_states@.len() implies
                self.pieces().contains_key((#[trigger] r.piece_states@[m]).player_id)
                && self.pieces()[r.piece_states@[m].player_id] == r.piece_states@[m] by {
                assert(keys@.to_set().contains(keys@[m]));
                assert(self.pieces().contains_key(keys@[m]));
            }
            assert forall|a: int, b: int| 0 <= a < b < r.piece_states@.len()
                implies (#[trigger] r.piece_states@[a]).player_id != (#[trigger] r.piece_states@[b]).player_id by {
                assert(keys@.to_set().contains(keys@[a]));
                assert(keys@.to_set().contains(keys@[b]));
                assert(self.pieces().contains_key(keys@[a]));
                assert(self.pieces().contains_key(keys@[b]));
            }
            assert forall|k: usize| #[trigger] self.pieces().contains_key(k)
                implies exists|m: int| 0 <= m < r.piece_states@.len() && #[trigger] r.piece_states@[m] == self.pieces()[k] by {
                assert(keys@.to_set().contains(k));
                let m = choose|m: int| 0 <= m < keys@.len() && keys@[m] == k;
                assert(r.piece_states@[m] == self.pieces()[k]);
            }
            assert forall|c: (int, int)| #[trigger] self.settled().contains_key(c)
                implies exists|m: int| 0 <= m < r.fallen_blocks@.len() && cell_key(#[trigger] r.fallen_blocks@[m]) == c by {
                assert(self.fallen_blocks@.contains_key(c));
                let m = choose|m: int| 0 <= m < blocks@.len() && cell_key(#[trigger] blocks@[m]) == c;
                assert(r.fallen_blocks@[m] == blocks@[m]);
            }
            assert forall|m: int| 0 <= m < r.fallen_blocks@.len()
                implies #[trigger] self.settled().contains_key(cell_key(r.fallen_blocks@[m]))
                && self.settled()[cell_key(r.fallen_blocks@[m])] == r.fallen_blocks@[m].original_shape by {
                assert(self.fallen_blocks@.contains_key(cell_key(blocks@[m])));
            }
        }
        r
    }

    /// One frame of the simulation at time `now` (milliseconds): a gravity
    /// step runs when one is due, and the state after it is returned.
    pub fn game_frame(&mut self, now: u128) -> (r: Snapshot)
        requires
            old(self).wf(),
        ensures
            final(self).wf(),
            gravity_due(now, old(self).last_shift()) ==> {
                &&& exists|ks: Seq<usize>| gravity_step(old(self).pieces(), old(self).settled(), ks, final(self).pieces(), final(self).settled())
                &&& forall|k: usize| #[trigger] final(self).pieces().contains_key(k) ==> !collides(final(self).pieces()[k], final(self).settled())
                &&& final(self).last_shift() == now
            },
            !gravity_due(now, old(self).last_shift()) ==> *final(self) == *old(self),
            snapshot_of(r, final(self).pieces(), final(self).settled()),
    {
        if now > self.last_shift_time && now - self.last_shift_time > SHIFT_PERIOD_MILLIS {
            self.shift_pieces();
            self.last_shift_time = now;
        }
        self.snapshot()
    }
}

fn spawn_piece_exec(key: usize, shape: u8) -> (r: PieceState)
    ensures
        r == spawn_piece(key, shape),
{
    PieceState { player_id: key, shape, pivot: Pivot { x: SPAWN_X, y: SPAWN_Y }, rotation: 0 }
}

} // verus!
