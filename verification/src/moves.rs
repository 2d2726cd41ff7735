//! The moves that the rules allow in a state, in a fixed order: the pawn
//! moves first, then the horizontal walls, then the vertical walls, each kind
//! of wall by column and, within a column, by row.

use crate::board::{Board, BoardView};
use crate::geometry::{
    adjacent, direction, on_anchor_grid, on_board, shifted, Move, Orientation, Position,
};
use vstd::prelude::*;

verus! {

/// The number of candidate pawn moves: for each of the four directions a
/// step, a straight jump and the two diagonal jumps.
pub const PAWN_SLOTS: usize = 16;

/// The number of candidate moves: the pawn moves and, for each orientation,
/// one wall at each of the 64 anchors.
pub const MOVE_SLOTS: usize = 144;

/// Which player a colour stands for.
#[derive(PartialEq, Eq, Structural, Copy, Clone, Debug)]
pub enum PlayerColor {
    /// Player 0, who moves first.
    Blue,
    /// Player 1.
    Red,
}

/// The candidate move in slot `i`.
///
/// Slots `4d .. 4d + 4` hold the pawn moves in direction `d`: the step, the
/// straight jump, and the two diagonal jumps around an opponent that stands
/// in that direction. Slot `16 + 64 o + 8 (x - 1) + (y - 1)` holds the wall
/// of orientation `o` anchored at `(x, y)`.
pub open spec fn move_in_slot(b: BoardView, i: int) -> Move {
    if i < PAWN_SLOTS {
        let (dx, dy) = direction(i / 4);
        let m = b.mover();
        if i % 4 == 0 {
            Move::PawnTo(shifted(m, dx, dy))
        } else if i % 4 == 1 {
            Move::PawnTo(shifted(m, 2 * dx, 2 * dy))
        } else if i % 4 == 2 {
            Move::PawnTo(shifted(m, dx - dy, dy - dx))
        } else {
            Move::PawnTo(shifted(m, dx + dy, dy + dx))
        }
    } else {
        let j = i - PAWN_SLOTS;
        let pos = Position { x: ((j % 64) / 8 + 1) as i64, y: (j % 8 + 1) as i64 };
        if j < 64 {
            Move::WallAt(Orientation::Horizontal, pos)
        } else {
            Move::WallAt(Orientation::Vertical, pos)
        }
    }
}

/// The candidate in slot `i` is a move that the rules allow. A diagonal jump
/// counts only in the slot of the direction in which the opponent stands.
pub open spec fn slot_legal(b: BoardView, i: int) -> bool {
    &&& 0 <= i < MOVE_SLOTS
    &&& b.move_legal(move_in_slot(b, i))
    &&& i < PAWN_SLOTS && i % 4 >= 2 ==> b.opponent() == shifted(
        b.mover(),
        direction(i / 4).0,
        direction(i / 4).1,
    )
}

/// The legal moves in the slots from `from` up to `to`, in the order of the
/// slots.
pub open spec fn moves_between(b: BoardView, from: int, to: int) -> Seq<Move>
    decreases to - from,
{
    if to <= from {
        Seq::empty()
    } else if slot_legal(b, to - 1) {
        moves_between(b, from, to - 1).push(move_in_slot(b, to - 1))
    } else {
        moves_between(b, from, to - 1)
    }
}

/// The moves that the rules allow in the state, in the order in which they
/// are enumerated.
pub open spec fn legal_moves(b: BoardView) -> Seq<Move> {
    moves_between(b, 0, MOVE_SLOTS as int)
}

/// The legal pawn moves, in order.
pub open spec fn legal_pawn_moves(b: BoardView) -> Seq<Move> {
    moves_between(b, 0, PAWN_SLOTS as int)
}

/// The legal wall placements, in order.
pub open spec fn legal_wall_moves(b: BoardView) -> Seq<Move> {
    moves_between(b, PAWN_SLOTS as int, MOVE_SLOTS as int)
}

/// The slot in which a pawn move to `to` is a candidate.
pub open spec fn pawn_slot_of(b: BoardView, to: Position) -> int {
    let m = b.mover();
    let o = b.opponent();
    if adjacent(m, to) {
        if to.x == m.x + 1 {
            0
        } else if to.x == m.x - 1 {
            4
        } else if to.y == m.y + 1 {
            8
        } else {
            12
        }
    } else {
        let d: int = if o.x == m.x + 1 {
            0
        } else if o.x == m.x - 1 {
            1
        } else if o.y == m.y + 1 {
            2
        } else {
            3
        };
        let (dx, dy) = direction(d);
        if to.x == m.x + 2 * dx && to.y == m.y + 2 * dy {
            4 * d + 1
        } else if to.x == m.x + dx - dy && to.y == m.y + dy - dx {
            4 * d + 2
        } else {
            4 * d + 3
        }
    }
}

/// The slot in which a move is a candidate.
pub open spec fn slot_of(b: BoardView, mv: Move) -> int {
    match mv {
        Move::PawnTo(to) => pawn_slot_of(b, to),
        Move::WallAt(ori, pos) => PAWN_SLOTS + (if ori == Orientation::Horizontal {
            0int
        } else {
            64int
        }) + 8 * (pos.x - 1) + (pos.y - 1),
    }
}

/// Every move that the rules allow is the candidate of a legal slot.
pub proof fn lemma_legal_move_has_slot(b: BoardView, mv: Move)
    requires
        b.well_formed(),
        b.move_legal(mv),
    ensures
        slot_legal(b, slot_of(b, mv)),
        move_in_slot(b, slot_of(b, mv)) == mv,
{
    let i = slot_of(b, mv);
    match mv {
        Move::PawnTo(to) => {
            let m = b.mover();
            let o = b.opponent();
            assert(on_board(m) && on_board(o));
            if !adjacent(m, to) {
                assert(b.jump_legal(to));
                assert(adjacent(m, o));
            }
            assert(move_in_slot(b, i) == mv);
        },
        Move::WallAt(ori, pos) => {
            assert(on_anchor_grid(pos));
            let j = i - PAWN_SLOTS;
            assert((j % 64) / 8 + 1 == pos.x);
            assert(j % 8 + 1 == pos.y);
        },
    }
}

/// A slot holds a move exactly when the move is the candidate of a legal
/// slot in the range.
pub proof fn lemma_moves_between_contains(b: BoardView, from: int, to: int, mv: Move)
    ensures
        moves_between(b, from, to).contains(mv) <==> exists|i: int|
            from <= i < to && #[trigger] slot_legal(b, i) && move_in_slot(b, i) == mv,
    decreases to - from,
{
    if to <= from {
        assert(!moves_between(b, from, to).contains(mv));
    } else {
        lemma_moves_between_contains(b, from, to - 1, mv);
        let shorter = moves_between(b, from, to - 1);
        if slot_legal(b, to - 1) {
            let last = move_in_slot(b, to - 1);
            let all = shorter.push(last);
            if all.contains(mv) {
                let k = choose|k: int| 0 <= k < all.len() && all[k] == mv;
                if k < shorter.len() {
                    assert(shorter[k] == mv);
                    assert(shorter.contains(mv));
                }
            }
            if shorter.contains(mv) {
                let k = choose|k: int| 0 <= k < shorter.len() && shorter[k] == mv;
                assert(all[k] == mv);
            }
            if last == mv {
                assert(all[shorter.len() as int] == mv);
            }
        }
    }
}

/// The enumeration yields exactly the moves that the rules allow.
pub proof fn lemma_enumeration_is_exact(b: BoardView, mv: Move)
    requires
        b.well_formed(),
    ensures
        legal_moves(b).contains(mv) <==> b.move_legal(mv),
{
    lemma_moves_between_contains(b, 0, MOVE_SLOTS as int, mv);
    if b.move_legal(mv) {
        lemma_legal_move_has_slot(b, mv);
        assert(slot_legal(b, slot_of(b, mv)));
    }
}

/// The moves of a range of slots are the moves of its first part followed by
/// the moves of the rest.
pub proof fn lemma_moves_between_split(b: BoardView, from: int, mid: int, to: int)
    requires
        from <= mid <= to,
    ensures
        moves_between(b, from, to) == moves_between(b, from, mid) + moves_between(b, mid, to),
    decreases to - mid,
{
    if mid < to {
        lemma_moves_between_split(b, from, mid, to - 1);
    }
    assert(moves_between(b, from, to) =~= moves_between(b, from, mid) + moves_between(b, mid, to));
}

/// The enumeration is the pawn moves followed by the wall placements.
pub proof fn lemma_pawn_moves_first(b: BoardView)
    ensures
        legal_moves(b) == legal_pawn_moves(b) + legal_wall_moves(b),
{
    lemma_moves_between_split(b, 0, PAWN_SLOTS as int, MOVE_SLOTS as int);
}

/// The candidate move in a slot.
pub fn slot_move(board: &Board, slot: usize) -> (mv: Move)
    requires
        board@.well_formed(),
        slot < MOVE_SLOTS,
    ensures
        mv == move_in_slot(board@, slot as int),
{
    if slot < PAWN_SLOTS {
        let m = board.positions[board.player];
        let d: usize = slot / 4;
        let (dx, dy): (i64, i64) = if d == 0 {
            (1, 0)
        } else if d == 1 {
            (-1, 0)
        } else if d == 2 {
            (0, 1)
        } else {
            (0, -1)
        };
        let kind: usize = slot % 4;
        if kind == 0 {
            Move::PawnTo(Position { x: m.x + dx, y: m.y + dy })
        } else if kind == 1 {
            Move::PawnTo(Position { x: m.x + 2 * dx, y: m.y + 2 * dy })
        } else if kind == 2 {
            Move::PawnTo(Position { x: m.x + dx - dy, y: m.y + dy - dx })
        } else {
            Move::PawnTo(Position { x: m.x + dx + dy, y: m.y + dy + dx })
        }
    } else {
        let j: usize = slot - PAWN_SLOTS;
        let pos = Position { x: ((j % 64) / 8 + 1) as i64, y: (j % 8 + 1) as i64 };
        if j < 64 {
            Move::WallAt(Orientation::Horizontal, pos)
        } else {
            Move::WallAt(Orientation::Vertical, pos)
        }
    }
}

/// Whether the candidate in a slot is a move that the rules allow.
pub fn slot_is_legal(board: &Board, slot: usize) -> (r: bool)
    requires
        board@.well_formed(),
        slot < MOVE_SLOTS,
    ensures
        r == slot_legal(board@, slot as int),
{
    let mv = slot_move(board, slot);
    if slot < PAWN_SLOTS && slot % 4 >= 2 {
        let m = board.positions[board.player];
        let o = board.positions[1 - board.player];
        let d: usize = slot / 4;
        let in_direction: bool = if d == 0 {
            o.x == m.x + 1 && o.y == m.y
        } else if d == 1 {
            o.x == m.x - 1 && o.y == m.y
        } else if d == 2 {
            o.x == m.x && o.y == m.y + 1
        } else {
            o.x == m.x && o.y == m.y - 1
        };
        in_direction && board.is_valid_move(&mv)
    } else {
        board.is_valid_move(&mv)
    }
}

/// The first legal move in the slots from `from` up to `end`, with the slot
/// after it; `None` when the range holds no legal move.
fn next_in_range(board: &Board, from: usize, end: usize) -> (r: Option<(Move, usize)>)
    requires
        board@.well_formed(),
        end <= MOVE_SLOTS,
    ensures
        match r {
            Some((mv, next)) => {
                &&& from < next <= end
                &&& slot_legal(board@, next - 1)
                &&& mv == move_in_slot(board@, next - 1)
                &&& forall|i: int| from <= i < next - 1 ==> !slot_legal(board@, i)
            },
            None => forall|i: int| from <= i < end ==> !slot_legal(board@, i),
        },
{
    let mut slot: usize = from;
    while slot < end
        invariant
            from <= slot,
            end <= MOVE_SLOTS,
            board@.well_formed(),
            forall|i: int| from <= i < slot ==> !slot_legal(board@, i),
        decreases end - slot,
    {
        if slot_is_legal(board, slot) {
            return Some((slot_move(board, slot), slot + 1));
        }
        slot = slot + 1;
    }
    None
}

/// The first legal move in the slots from `from` on, with the slot after it,
/// from which the enumeration goes on; `None` when no legal move is left.
///
/// Starting at slot 0 and going on from each slot returned visits the legal
/// moves one by one, in order, without building the list of them.
pub fn next_move(board: &Board, from: usize) -> (r: Option<(Move, usize)>)
    requires
        board@.well_formed(),
    ensures
        match r {
            Some((mv, next)) => {
                &&& from < next <= MOVE_SLOTS
                &&& slot_legal(board@, next - 1)
                &&& mv == move_in_slot(board@, next - 1)
                &&& moves_between(board@, 0, next as int) == moves_between(
                    board@,
                    0,
                    from as int,
                ).push(mv)
            },
            None => from >= MOVE_SLOTS || moves_between(board@, 0, MOVE_SLOTS as int)
                == moves_between(board@, 0, from as int),
        },
{
    let r = next_in_range(board, from, MOVE_SLOTS);
    proof {
        match r {
            Some((mv, next)) => {
                lemma_moves_between_skip(board@, 0, from as int, next - 1);
            },
            None => {
                if from < MOVE_SLOTS {
                    lemma_moves_between_skip(board@, 0, from as int, MOVE_SLOTS as int);
                }
            },
        }
    }
    r
}

/// Skipping slots without a legal move does not change the moves in a range.
pub proof fn lemma_moves_between_skip(b: BoardView, from: int, mid: int, to: int)
    requires
        from <= mid <= to,
        forall|i: int| mid <= i < to ==> !slot_legal(b, i),
    ensures
        moves_between(b, from, to) == moves_between(b, from, mid),
    decreases to - mid,
{
    if mid < to {
        lemma_moves_between_skip(b, from, mid, to - 1);
    }
}

/// All the moves that the rules allow in the state, in order.
pub fn moves(board: &Board) -> (r: Vec<Move>)
    requires
        board@.well_formed(),
    ensures
        r@ == legal_moves(board@),
{
    let mut all: Vec<Move> = Vec::new();
    let mut slot: usize = 0;
    loop
        invariant
            board@.well_formed(),
            slot <= MOVE_SLOTS,
            all@ == moves_between(board@, 0, slot as int),
        decreases MOVE_SLOTS - slot,
    {
        match next_move(board, slot) {
            Some((mv, next)) => {
                all.push(mv);
                slot = next;
            },
            None => {
                return all;
            },
        }
    }
}

/// A visitor answered `true` to the first `k` of the moves `all` and then,
/// unless these were all, `false` to the next one. `cont` says whether it
/// never answered `false`.
pub open spec fn visited_first<F: FnMut(Move) -> bool>(
    f: F,
    all: Seq<Move>,
    k: int,
    cont: bool,
) -> bool {
    &&& 0 <= k <= all.len()
    &&& forall|i: int| 0 <= i < k ==> call_ensures(f, (#[trigger] all[i],), true)
    &&& cont ==> k == all.len()
    &&& !cont ==> k < all.len() && call_ensures(f, (all[k],), false)
}

/// The visitor can be called on each of the moves `all`.
pub open spec fn takes_each<F: FnMut(Move) -> bool>(f: F, all: Seq<Move>) -> bool {
    forall|i: int| 0 <= i < all.len() ==> call_requires(f, (#[trigger] all[i],))
}

/// A visitor was shown the moves `all` in order until it asked to stop.
pub open spec fn visited_in_order<F: FnMut(Move) -> bool>(f: F, all: Seq<Move>, cont: bool) -> bool {
    exists|k: int| #[trigger] visited_first(f, all, k, cont)
}

/// Shows the visitor the legal moves of the slots from `start` up to `end`.
fn visit_range<F: FnMut(Move) -> bool>(board: &Board, f: &mut F, start: usize, end: usize) -> (cont:
    bool)
    requires
        board@.well_formed(),
        start <= end <= MOVE_SLOTS,
        takes_each(*old(f), moves_between(board@, start as int, end as int)),
    ensures
        *final(f) == *old(f),
        visited_in_order(*old(f), moves_between(board@, start as int, end as int), cont),
{
    let ghost all = moves_between(board@, start as int, end as int);
    let mut slot: usize = start;
    loop
        invariant
            board@.well_formed(),
            start <= slot <= end <= MOVE_SLOTS,
            all == moves_between(board@, start as int, end as int),
            *f == *old(f),
            takes_each(*f, all),
            forall|i: int|
                0 <= i < moves_between(board@, start as int, slot as int).len() ==> call_ensures(
                    *f,
                    (#[trigger] moves_between(board@, start as int, slot as int)[i],),
                    true,
                ),
        decreases end - slot,
    {
        let ghost seen = moves_between(board@, start as int, slot as int);
        match next_in_range(board, slot, end) {
            Some((mv, next)) => {
                proof {
                    lemma_moves_between_skip(board@, start as int, slot as int, next - 1);
                    lemma_moves_between_split(board@, start as int, next as int, end as int);
                    assert(moves_between(board@, start as int, next as int) == seen.push(mv));
                    assert(all[seen.len() as int] == mv);
                }
                let go_on = f(mv);
                if !go_on {
                    proof {
                        let k = seen.len() as int;
                        assert(all[k] == mv);
                        assert forall|i: int| 0 <= i < k implies call_ensures(
                            *f,
                            (#[trigger] all[i],),
                            true,
                        ) by {
                            assert(all[i] == seen[i]);
                        }
                        assert(visited_first(*f, all, k, false));
                    }
                    return false;
                }
                slot = next;
            },
            None => {
                proof {
                    lemma_moves_between_skip(board@, start as int, slot as int, end as int);
                    assert(all == seen);
                    assert(visited_first(*f, all, all.len() as int, true));
                }
                return true;
            },
        }
    }
}

/// Shows the visitor the legal pawn moves, in order, until it answers
/// `false`, and nothing else: the visitor need not be able to take any other
/// move. Returns whether the visitor never asked to stop.
pub fn for_each_pawn_move<F: FnMut(Move) -> bool>(board: &Board, f: &mut F) -> (cont: bool)
    requires
        board@.well_formed(),
        takes_each(*old(f), legal_pawn_moves(board@)),
    ensures
        visited_in_order(*old(f), legal_pawn_moves(board@), cont),
{
    visit_range(board, f, 0, PAWN_SLOTS)
}

/// Shows the visitor the legal wall placements, in order, until it answers
/// `false`, and nothing else. Returns whether the visitor never asked to
/// stop.
pub fn for_each_wall_move<F: FnMut(Move) -> bool>(board: &Board, f: &mut F) -> (cont: bool)
    requires
        board@.well_formed(),
        takes_each(*old(f), legal_wall_moves(board@)),
    ensures
        visited_in_order(*old(f), legal_wall_moves(board@), cont),
{
    visit_range(board, f, PAWN_SLOTS, MOVE_SLOTS)
}

/// Shows the visitor the legal moves, in order, until it answers `false`,
/// and nothing else.
pub fn for_each_move<F: FnMut(Move) -> bool>(board: &Board, f: &mut F)
    requires
        board@.well_formed(),
        takes_each(*old(f), legal_moves(board@)),
    ensures
        exists|cont: bool| visited_in_order(*old(f), legal_moves(board@), cont),
{
    let cont = visit_range(board, f, 0, MOVE_SLOTS);
    assert(visited_in_order(*old(f), legal_moves(board@), cont));
}

/// Whether the rules allow the move in the state.
pub fn is_valid_move(board: &Board, mov: &Move) -> (r: bool)
    requires
        board@.well_formed(),
    ensures
        r == legal_moves(board@).contains(*mov),
        r == board@.move_legal(*mov),
{
    proof {
        lemma_enumeration_is_exact(board@, *mov);
    }
    board.is_valid_move(mov)
}

/// The colour of the player who has won, if the game is over.
pub fn is_finished(board: &Board) -> (r: Option<PlayerColor>)
    ensures
        r == match board@.winner() {
            Some(p) => Some(if p == 0 { PlayerColor::Blue } else { PlayerColor::Red }),
            None => None,
        },
{
    match board.get_winner() {
        Some(p) => Some(if p == 0 { PlayerColor::Blue } else { PlayerColor::Red }),
        None => None,
    }
}

} // verus!
