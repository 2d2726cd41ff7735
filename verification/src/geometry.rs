//! Cells, walls and moves, and the local geometry that relates them.

use vstd::prelude::*;

verus! {

/// A cell of the grid. Cells on the board have both coordinates in `1..=9`.
#[derive(PartialEq, Eq, Structural, Copy, Clone, Debug, Hash)]
pub struct Position {
    pub x: i64,
    pub y: i64,
}

/// The direction in which a wall extends.
#[derive(PartialEq, Eq, Structural, Copy, Clone, Debug, Hash)]
pub enum Orientation {
    Horizontal,
    Vertical,
}

/// A wall: its orientation and its anchor, the upper-left cell of the 2x2
/// block of cells that the wall runs through. Anchors on the board have both
/// coordinates in `1..=8`.
pub type Wall = (Orientation, Position);

/// What a player may do in one turn.
#[derive(PartialEq, Eq, Structural, Copy, Clone, Debug)]
pub enum Move {
    PawnTo(Position),
    WallAt(Orientation, Position),
}

/// The cell lies on the board.
pub open spec fn on_board(p: Position) -> bool {
    1 <= p.x <= 9 && 1 <= p.y <= 9
}

/// The position is an admissible wall anchor.
pub open spec fn on_anchor_grid(p: Position) -> bool {
    1 <= p.x <= 8 && 1 <= p.y <= 8
}

/// The position `dx` columns to the right of `p` and `dy` rows below it.
pub open spec fn shifted(p: Position, dx: int, dy: int) -> Position {
    Position { x: (p.x + dx) as i64, y: (p.y + dy) as i64 }
}

/// The four directions in the order in which they are tried: to the right,
/// to the left, down and up.
pub open spec fn direction(d: int) -> (int, int) {
    if d == 0 {
        (1, 0)
    } else if d == 1 {
        (-1, 0)
    } else if d == 2 {
        (0, 1)
    } else {
        (0, -1)
    }
}

/// The neighbour of `p` in direction `d`.
pub open spec fn neighbor(p: Position, d: int) -> Position {
    shifted(p, direction(d).0, direction(d).1)
}

/// The two cells share an edge.
pub open spec fn adjacent(a: Position, b: Position) -> bool {
    ||| a.x == b.x && (a.y + 1 == b.y || b.y + 1 == a.y)
    ||| a.y == b.y && (a.x + 1 == b.x || b.x + 1 == a.x)
}

/// The wall lies on the edge shared by the adjacent cells `a` and `b`.
///
/// A vertical wall anchored at `(ax, ay)` separates column `ax` from column
/// `ax + 1` in rows `ay` and `ay + 1`; a horizontal wall separates row `ay`
/// from row `ay + 1` in columns `ax` and `ax + 1`.
pub open spec fn wall_separates(w: Wall, a: Position, b: Position) -> bool {
    match w.0 {
        Orientation::Vertical => {
            &&& a.y == b.y
            &&& (a.x + 1 == b.x && w.1.x == a.x) || (b.x + 1 == a.x && w.1.x == b.x)
            &&& w.1.y == a.y || w.1.y + 1 == a.y
        },
        Orientation::Horizontal => {
            &&& a.x == b.x
            &&& (a.y + 1 == b.y && w.1.y == a.y) || (b.y + 1 == a.y && w.1.y == b.y)
            &&& w.1.x == a.x || w.1.x + 1 == a.x
        },
    }
}

/// Two walls cannot both stand: walls of one orientation conflict when their
/// anchors are equal or neighbours along the wall's long axis, walls of
/// different orientation when their anchors are equal.
pub open spec fn walls_conflict(a: Wall, b: Wall) -> bool {
    if a.0 == b.0 {
        match a.0 {
            Orientation::Horizontal => a.1.y == b.1.y && (a.1.x == b.1.x || a.1.x + 1 == b.1.x
                || b.1.x + 1 == a.1.x),
            Orientation::Vertical => a.1.x == b.1.x && (a.1.y == b.1.y || a.1.y + 1 == b.1.y
                || b.1.y + 1 == a.1.y),
        }
    } else {
        a.1 == b.1
    }
}

/// The index of a board cell in row-major order, counting from zero.
pub open spec fn cell_index(p: Position) -> int {
    (p.x - 1) + 9 * (p.y - 1)
}

/// The index of a wall anchor in the 64-bit wall sets.
pub open spec fn anchor_index(p: Position) -> int {
    (p.x - 1) + 8 * (p.y - 1)
}

pub fn in_bounds1to9(pos: &Position) -> (r: bool)
    ensures
        r == on_board(*pos),
{
    pos.x > 0 && pos.x <= 9 && pos.y > 0 && pos.y <= 9
}

pub fn in_bounds1to8(pos: &Position) -> (r: bool)
    ensures
        r == on_anchor_grid(*pos),
{
    pos.x > 0 && pos.x <= 8 && pos.y > 0 && pos.y <= 8
}

/// Whether two cells share an edge. Defined for every pair of positions.
pub fn is_neighbor(a: &Position, b: &Position) -> (r: bool)
    ensures
        r == adjacent(*a, *b),
{
    if a.x == b.x {
        (a.y < i64::MAX && a.y + 1 == b.y) || (b.y < i64::MAX && b.y + 1 == a.y)
    } else if a.y == b.y {
        (a.x < i64::MAX && a.x + 1 == b.x) || (b.x < i64::MAX && b.x + 1 == a.x)
    } else {
        false
    }
}

/// Whether two walls conflict. Defined for every pair of walls.
pub fn wall_conflicts(oa: &Orientation, pa: &Position, ob: &Orientation, pb: &Position) -> (r: bool)
    ensures
        r == walls_conflict((*oa, *pa), (*ob, *pb)),
{
    match (oa, ob) {
        (Orientation::Horizontal, Orientation::Horizontal) => {
            pa.y == pb.y && (pa.x == pb.x || (pa.x < i64::MAX && pa.x + 1 == pb.x) || (pb.x
                < i64::MAX && pb.x + 1 == pa.x))
        },
        (Orientation::Vertical, Orientation::Vertical) => {
            pa.x == pb.x && (pa.y == pb.y || (pa.y < i64::MAX && pa.y + 1 == pb.y) || (pb.y
                < i64::MAX && pb.y + 1 == pa.y))
        },
        _ => pa.x == pb.x && pa.y == pb.y,
    }
}

/// Row-major index of the board cell `(x, y)`.
pub fn encode9(x: i64, y: i64) -> (r: usize)
    requires
        1 <= x <= 9,
        1 <= y <= 9,
    ensures
        r == cell_index(Position { x, y }),
        r < 81,
{
    ((x - 1) + 9 * (y - 1)) as usize
}

/// The board cell with row-major index `p`.
pub fn decode9(p: usize) -> (r: Position)
    requires
        p < 81,
    ensures
        on_board(r),
        cell_index(r) == p,
{
    Position { x: (p % 9usize) as i64 + 1, y: (p / 9usize) as i64 + 1 }
}

/// Index of the zero-based anchor `(x, y)` in a 64-bit wall set.
pub fn encode8(x: i64, y: i64) -> (r: usize)
    requires
        0 <= x < 8,
        0 <= y < 8,
    ensures
        r == x + 8 * y,
        r < 64,
{
    (x + 8 * y) as usize
}

/// Conflict between walls does not depend on the order in which the two
/// walls are named.
pub proof fn lemma_conflict_symmetric(a: Wall, b: Wall)
    ensures
        walls_conflict(a, b) == walls_conflict(b, a),
{
}

/// Distinct board cells have distinct indices, all below 81.
pub proof fn lemma_cell_index_injective(a: Position, b: Position)
    requires
        on_board(a),
        on_board(b),
    ensures
        0 <= cell_index(a) < 81,
        cell_index(a) == cell_index(b) ==> a == b,
{
}

} // verus!
