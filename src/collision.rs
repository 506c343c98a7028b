//! Whether a piece may stand where it is.
use vstd::prelude::*;
use crate::board::SettledBoard;
use crate::piece::{
    anchor_cell, block_at, lemma_shape_nonempty, occupies_at, read_block, shape_grid_width,
    shape_width, PieceState, BOARD_HEIGHT, BOARD_WIDTH, NUM_SHAPES,
};

verus! {

/// A cell left of the left wall, right of the right wall, or at or below the floor.
pub open spec fn out_of_bounds(x: int, y: int) -> bool {
    x < 0 || x >= BOARD_WIDTH || y >= BOARD_HEIGHT
}

/// A cell that a piece may not occupy.
pub open spec fn blocked(board: Map<(int, int), u8>, x: int, y: int) -> bool {
    out_of_bounds(x, y) || board.contains_key((x, y))
}

/// Whether a piece of `shape` at `rotation` with its pivot at `(px, py)`
/// would have a cell out of bounds or already settled.
pub open spec fn collides_at(shape: u8, rotation: u8, px: int, py: int, board: Map<(int, int), u8>) -> bool {
    exists|x: int, y: int| #[trigger] occupies_at(shape, rotation, px, py, x, y) && blocked(board, x, y)
}

/// Whether some cell of `p` is out of bounds or already settled.
pub open spec fn collides(p: PieceState, board: Map<(int, int), u8>) -> bool {
    collides_at(p.shape, p.rotation, p.pivot.x as int, p.pivot.y as int, board)
}

/// A piece of a valid kind whose pivot lies right of the last column, far
/// enough left that its whole grid is left of the first column, or on or
/// below the floor, collides whatever the board holds.
pub proof fn lemma_far_piece_collides(shape: u8, rotation: u8, px: int, py: int, board: Map<(int, int), u8>)
    requires
        shape < NUM_SHAPES,
        px >= BOARD_WIDTH || px <= -4 || py >= BOARD_HEIGHT,
    ensures
        collides_at(shape, rotation, px, py, board),
{
    lemma_shape_nonempty(shape, rotation);
    let (ax, ay) = anchor_cell(shape, rotation);
    assert(occupies_at(shape, rotation, px, py, px + ax, py + ay));
}

/// A piece of a valid kind that does not collide has its pivot inside the board's columns and above its floor.
pub proof fn lemma_placed_pivot_in_board(p: PieceState, board: Map<(int, int), u8>)
    requires
        p.shape < NUM_SHAPES,
        !collides(p, board),
    ensures
        p.pivot.x < BOARD_WIDTH,
        p.pivot.y < BOARD_HEIGHT,
{
    if p.pivot.x >= BOARD_WIDTH || p.pivot.y >= BOARD_HEIGHT {
        lemma_far_piece_collides(p.shape, p.rotation, p.pivot.x as int, p.pivot.y as int, board);
    }
}

/// Whether `p` overlaps a wall, the floor or a settled cell.
pub fn fallen_blocks_collision(p: &PieceState, board: &SettledBoard) -> (r: bool)
    requires
        board.wf(),
    ensures
        r == collides(*p, board@),
{
    let w = shape_grid_width(p.shape);
    let mut dy: i32 = 0;
    while dy < w
        invariant
            w == shape_width(p.shape),
            0 <= dy <= w,
            board.wf(),
            forall|x: int, y: int| #[trigger] occupies_at(p.shape, p.rotation, p.pivot.x as int, p.pivot.y as int, x, y) && y - p.pivot.y < dy ==> !blocked(board@, x, y),
        decreases w - dy,
    {
        let mut dx: i32 = 0;
        while dx < w
            invariant
                w == shape_width(p.shape),
                0 <= dy < w,
                0 <= dx <= w,
                board.wf(),
                forall|x: int, y: int| #[trigger] occupies_at(p.shape, p.rotation, p.pivot.x as int, p.pivot.y as int, x, y) && y - p.pivot.y < dy ==> !blocked(board@, x, y),
                forall|x: int, y: int|
                    #[trigger] occupies_at(p.shape, p.rotation, p.pivot.x as int, p.pivot.y as int, x, y) && y - p.pivot.y == dy && x - p.pivot.x < dx ==> !blocked(board@, x, y),
            decreases w - dx,
        {
            if read_block(p.shape, dx, dy, p.rotation) {
                let x = p.pivot.x as i64 + dx as i64;
                let y = p.pivot.y as i64 + dy as i64;
                assert(occupies_at(p.shape, p.rotation, p.pivot.x as int, p.pivot.y as int, x as int, y as int));
                if x < 0 || x >= BOARD_WIDTH as i64 || y >= BOARD_HEIGHT as i64 || board.contains(x, y) {
                    return true;
                }
            }
            dx = dx + 1;
        }
        dy = dy + 1;
    }
    proof {
        assert forall|x: int, y: int| #[trigger] occupies_at(p.shape, p.rotation, p.pivot.x as int, p.pivot.y as int, x, y) implies !blocked(board@, x, y) by {
            assert(block_at(p.shape, x - p.pivot.x, y - p.pivot.y, p.rotation));
        }
    }
    false
}

} // verus!
