//! Pieces, positions and the static shape table.
use vstd::prelude::*;

verus! {

/// Number of distinct piece kinds.
pub const NUM_SHAPES: u8 = 7;

/// Width of the board in cells; valid columns are `0..BOARD_WIDTH`.
pub const BOARD_WIDTH: i32 = 10;

/// Height of the board in cells; a cell with `y >= BOARD_HEIGHT` lies below the floor.
pub const BOARD_HEIGHT: i32 = 20;

/// Where a newly joined player's piece appears.
pub const SPAWN_X: i32 = 5;

pub const SPAWN_Y: i32 = 5;

/// A cell coordinate: the anchor of a piece, or the key of a settled cell.
#[derive(Clone, Copy, Debug, PartialEq, Eq, Hash, Structural)]
pub struct Pivot {
    pub x: i32,
    pub y: i32,
}

/// One player's falling piece.
#[derive(Clone, Copy, Debug, PartialEq, Eq, Structural)]
pub struct PieceState {
    pub player_id: usize,
    pub shape: u8,
    pub pivot: Pivot,
    pub rotation: u8,
}

/// One settled cell, as it is reported to clients.
#[derive(Clone, Copy, Debug, PartialEq, Eq, Structural)]
pub struct BlockState {
    pub position: Pivot,
    pub original_shape: u8,
}

/// Side length of the local grid that holds a shape: the bar and the square
/// use a 4x4 grid, the other kinds a 3x3 grid.
pub open spec fn shape_width(shape: u8) -> int {
    if shape == 0 || shape == 3 { 4 } else { 3 }
}

/// Whether local cell `(x, y)` of `shape` is filled in its unrotated form.
pub open spec fn base_cell(shape: u8, x: int, y: int) -> bool {
    match shape {
        // bar
        0 => y == 1 && 0 <= x < 4,
        // J
        1 => (x == 0 && y == 0) || (y == 1 && 0 <= x < 3),
        // L
        2 => (x == 2 && y == 0) || (y == 1 && 0 <= x < 3),
        // square
        3 => (x == 1 || x == 2) && (y == 0 || y == 1),
        // S
        4 => (y == 0 && (x == 1 || x == 2)) || (y == 1 && (x == 0 || x == 1)),
        // T
        5 => (x == 1 && y == 0) || (y == 1 && 0 <= x < 3),
        // Z
        6 => (y == 0 && (x == 0 || x == 1)) || (y == 1 && (x == 1 || x == 2)),
        _ => false,
    }
}

/// Whether local cell `(x, y)` of `shape` is filled after `rotation` quarter
/// turns clockwise; the rotation is taken modulo 4.
pub open spec fn block_at(shape: u8, x: int, y: int, rotation: u8) -> bool {
    let w = shape_width(shape);
    let r = rotation % 4;
    &&& 0 <= x < w
    &&& 0 <= y < w
    &&& if r == 0 {
        base_cell(shape, x, y)
    } else if r == 1 {
        base_cell(shape, y, w - 1 - x)
    } else if r == 2 {
        base_cell(shape, w - 1 - x, w - 1 - y)
    } else {
        base_cell(shape, w - 1 - y, x)
    }
}

/// Whether the absolute cell `(x, y)` is filled by a piece of `shape` at
/// `rotation` whose pivot stands at `(px, py)`.
pub open spec fn occupies_at(shape: u8, rotation: u8, px: int, py: int, x: int, y: int) -> bool {
    block_at(shape, x - px, y - py, rotation)
}

/// Whether the absolute cell `(x, y)` is one of the cells that `p` occupies.
pub open spec fn occupies(p: PieceState, x: int, y: int) -> bool {
    occupies_at(p.shape, p.rotation, p.pivot.x as int, p.pivot.y as int, x, y)
}

/// A local cell that every rotation of a shape has filled (used as a witness
/// that no piece is empty).
pub open spec fn anchor_cell(shape: u8, rotation: u8) -> (int, int) {
    let w = shape_width(shape);
    let (bx, by) = if shape == 3 { (1int, 0int) } else { (1int, 1int) };
    let r = rotation % 4;
    if r == 0 {
        (bx, by)
    } else if r == 1 {
        (w - 1 - by, bx)
    } else if r == 2 {
        (w - 1 - bx, w - 1 - by)
    } else {
        (by, w - 1 - bx)
    }
}

/// Every piece of a valid kind fills at least one cell of its local grid.
pub proof fn lemma_shape_nonempty(shape: u8, rotation: u8)
    requires
        shape < NUM_SHAPES,
    ensures
        block_at(shape, anchor_cell(shape, rotation).0, anchor_cell(shape, rotation).1, rotation),
{
}

/// Side length of the local grid of `shape`.
pub fn shape_grid_width(shape: u8) -> (r: i32)
    ensures
        r == shape_width(shape),
{
    if shape == 0 || shape == 3 { 4 } else { 3 }
}

fn base_block(shape: u8, x: i32, y: i32) -> (r: bool)
    ensures
        r == base_cell(shape, x as int, y as int),
{
    match shape {
        0 => y == 1 && 0 <= x && x < 4,
        1 => (x == 0 && y == 0) || (y == 1 && 0 <= x && x < 3),
        2 => (x == 2 && y == 0) || (y == 1 && 0 <= x && x < 3),
        3 => (x == 1 || x == 2) && (y == 0 || y == 1),
        4 => (y == 0 && (x == 1 || x == 2)) || (y == 1 && (x == 0 || x == 1)),
        5 => (x == 1 && y == 0) || (y == 1 && 0 <= x && x < 3),
        6 => (y == 0 && (x == 0 || x == 1)) || (y == 1 && (x == 1 || x == 2)),
        _ => false,
    }
}

/// Whether local cell `(x, y)` of `shape` is filled at `rotation`.
pub fn read_block(shape: u8, x: i32, y: i32, rotation: u8) -> (r: bool)
    ensures
        r == block_at(shape, x as int, y as int, rotation),
{
    let w = shape_grid_width(shape);
    if x < 0 || x >= w || y < 0 || y >= w {
        return false;
    }
    let r = rotation % 4;
    if r == 0 {
        base_block(shape, x, y)
    } else if r == 1 {
        base_block(shape, y, w - 1 - x)
    } else if r == 2 {
        base_block(shape, w - 1 - x, w - 1 - y)
    } else {
        base_block(shape, w - 1 - y, x)
    }
}

} // verus!
