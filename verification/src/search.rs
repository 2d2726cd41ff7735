//! The search for a move: negamax with alpha-beta pruning and a
//! transposition table, and the plain search that it abbreviates.

use crate::board::{Board, BoardView};
use crate::evaluation::{mover_heuristic, mover_value};
use crate::geometry::Move;
use crate::moves::{
    legal_moves, lemma_moves_between_split, moves_between, next_move, MOVE_SLOTS,
};
use crate::score::Score;
use crate::table::{BoardFlag, BoardInfo, TranspositionTable};
use vstd::prelude::*;

verus! {

/// What a transposition table holds.
pub type Memo = Map<BoardView, BoardInfo>;

// ---------------------------------------------------------------------------
// The plain search.
// ---------------------------------------------------------------------------
/// The value of a state for the player to move when both players look
/// `depth` moves ahead and each makes the move that is best for it: the
/// value of the state itself at depth 0 or when the game is over, else the
/// best of the values that the moves lead to.
pub open spec fn minimax_value(b: BoardView, depth: u16) -> Score
    decreases depth, legal_moves(b).len() + 1,
{
    if depth == 0 || b.winner() is Some {
        mover_value(b)
    } else {
        best_reply(b, depth, legal_moves(b).len() as int)
    }
}

/// The best of the values that the first `n` legal moves lead to; the least
/// score where there is no move.
pub open spec fn best_reply(b: BoardView, depth: u16, n: int) -> Score
    decreases depth, n,
{
    if depth == 0 || n <= 0 || n > legal_moves(b).len() {
        Score::NegInf
    } else {
        best_reply(b, depth, n - 1).maximum(
            minimax_value(b.apply(legal_moves(b)[n - 1]), (depth - 1) as u16).negated(),
        )
    }
}

/// The value for the player to move of the state after its `i`-th legal
/// move, searched one move less deep.
pub open spec fn reply_value(b: BoardView, depth: u16, i: int) -> Score {
    minimax_value(b.apply(legal_moves(b)[i]), (depth - 1) as u16).negated()
}

// ---------------------------------------------------------------------------
// The search with pruning and table.
// ---------------------------------------------------------------------------
/// What the table says of a state at the start of a search to `depth` with
/// the window from `alpha` to `beta`: the value to return at once, if there
/// is one, and the window to search with.
///
/// An entry counts if it was searched at least as deep. An exact value is
/// returned; a lower bound raises `alpha`, an upper bound lowers `beta`, and
/// if that closes the window, the stored value is returned.
pub open spec fn probe(table: Memo, b: BoardView, depth: u16, alpha: Score, beta: Score) -> (
    Option<Score>,
    Score,
    Score,
) {
    if table.contains_key(b) && table[b].depth >= depth {
        let info = table[b];
        let a = if info.flag == BoardFlag::LowerBound {
            alpha.maximum(info.value)
        } else {
            alpha
        };
        let bt = if info.flag == BoardFlag::UpperBound {
            beta.minimum(info.value)
        } else {
            beta
        };
        if info.flag == BoardFlag::Exact || a.key() >= bt.key() {
            (Some(info.value), alpha, beta)
        } else {
            (None, a, bt)
        }
    } else {
        (None, alpha, beta)
    }
}

/// How a value found with a window is filed: as an upper bound if it did not
/// get above `alpha`, as a lower bound if it reached `beta`, else as exact.
pub open spec fn flag_for(value: Score, alpha: Score, beta: Score) -> BoardFlag {
    if value.key() <= alpha.key() {
        BoardFlag::UpperBound
    } else if value.key() >= beta.key() {
        BoardFlag::LowerBound
    } else {
        BoardFlag::Exact
    }
}

/// The value that the search gives a state, and the table after it.
pub open spec fn negamax_model(table: Memo, b: BoardView, depth: u16, alpha: Score, beta: Score) -> (
    Score,
    Memo,
)
    decreases depth, legal_moves(b).len() + 1,
{
    let p = probe(table, b, depth, alpha, beta);
    if p.0 is Some {
        (p.0->0, table)
    } else if depth == 0 || b.winner() is Some {
        (mover_value(b), table)
    } else {
        let r = visit_model(table, b, depth, 0, Score::NegInf, p.1, p.2);
        (r.0, r.1.insert(b, BoardInfo { value: r.0, depth, flag: flag_for(r.0, alpha, p.2) }))
    }
}

/// The search over the legal moves from the `i`-th on, with the best value
/// found so far and the window: each move is searched one move less deep
/// with the opposite window; the search stops when `alpha` reaches `beta`.
pub open spec fn visit_model(
    table: Memo,
    b: BoardView,
    depth: u16,
    i: int,
    value: Score,
    alpha: Score,
    beta: Score,
) -> (Score, Memo)
    decreases depth, legal_moves(b).len() - i,
{
    if depth == 0 || i < 0 || i >= legal_moves(b).len() {
        (value, table)
    } else {
        let r = negamax_model(
            table,
            b.apply(legal_moves(b)[i]),
            (depth - 1) as u16,
            beta.negated(),
            alpha.negated(),
        );
        let v = value.maximum(r.0.negated());
        let a = alpha.maximum(v);
        if a.key() >= beta.key() {
            (v, r.1)
        } else {
            visit_model(r.1, b, depth, i + 1, v, a, beta)
        }
    }
}

/// The choice at the root from the `i`-th legal move on: every move is
/// searched to `depth` with the full window, and the last of the moves with
/// the best value is chosen.
pub open spec fn root_model(
    table: Memo,
    b: BoardView,
    depth: u16,
    i: int,
    best: Score,
    choice: Option<Move>,
) -> (Option<Move>, Memo)
    decreases legal_moves(b).len() - i,
{
    if i < 0 || i >= legal_moves(b).len() {
        (choice, table)
    } else {
        let r = negamax_model(
            table,
            b.apply(legal_moves(b)[i]),
            depth,
            Score::NegInf,
            Score::PosInf,
        );
        if r.0.negated().key() >= best.key() {
            root_model(r.1, b, depth, i + 1, r.0.negated(), Some(legal_moves(b)[i]))
        } else {
            root_model(r.1, b, depth, i + 1, best, choice)
        }
    }
}

/// The move that the enumeration yields after the slot `slot` is the legal
/// move with the index of the legal moves before it.
proof fn lemma_next_is_indexed(b: BoardView, slot: int, next: int, mv: Move)
    requires
        0 <= slot < next <= MOVE_SLOTS,
        moves_between(b, 0, next) == moves_between(b, 0, slot).push(mv),
    ensures
        moves_between(b, 0, slot).len() < legal_moves(b).len(),
        legal_moves(b)[moves_between(b, 0, slot).len() as int] == mv,
{
    lemma_moves_between_split(b, 0, next, MOVE_SLOTS as int);
}

/// The state after a legal move.
fn child_of(board: &Board, mv: Move) -> (child: Board)
    requires
        board@.well_formed(),
        board@.move_legal(mv),
    ensures
        child@ == board@.apply(mv),
        child@.well_formed(),
{
    let mut child = board.copy();
    let r = child.integrate(mv);
    assert(r is Ok);
    child
}

/// The value of a state for the player to move, by plain search to `depth`.
pub fn minimax(board: &Board, depth: u16) -> (value: Score)
    requires
        board@.well_formed(),
    ensures
        value == minimax_value(board@, depth),
    decreases depth,
{
    if depth == 0 || board.get_winner().is_some() {
        return mover_heuristic(board);
    }
    let mut value = Score::NegInf;
    let mut slot: usize = 0;
    let ghost mut i: int = 0;
    loop
        invariant
            board@.well_formed(),
            depth > 0,
            slot <= MOVE_SLOTS,
            i == moves_between(board@, 0, slot as int).len(),
            i <= legal_moves(board@).len(),
            board@.winner() is None,
            value == best_reply(board@, depth, i),
        decreases MOVE_SLOTS - slot,
    {
        match next_move(board, slot) {
            None => {
                proof {
                    if slot >= MOVE_SLOTS {
                        lemma_moves_between_split(board@, 0, MOVE_SLOTS as int, slot as int);
                        assert(slot == MOVE_SLOTS);
                    }
                }
                return value;
            },
            Some((mv, next)) => {
                proof {
                    lemma_next_is_indexed(board@, slot as int, next as int, mv);
                }
                let child = child_of(board, mv);
                let reply = minimax(&child, depth - 1).neg();
                value = value.max(reply);
                slot = next;
                proof {
                    i = i + 1;
                }
            },
        }
    }
}

/// The value of a state for the player to move, searched to `depth` within
/// the window from `alpha` to `beta`, with what the table knows; the table
/// takes up what the search finds out.
pub fn negamax(
    table: &mut TranspositionTable,
    board: &Board,
    depth: u16,
    alpha: Score,
    beta: Score,
) -> (value: Score)
    requires
        old(table).wf(),
        board@.well_formed(),
    ensures
        final(table).wf(),
        (value, final(table)@) == negamax_model(old(table)@, board@, depth, alpha, beta),
    decreases depth,
{
    let alpha_original = alpha;
    let mut alpha = alpha;
    let mut beta = beta;
    match table.get(board) {
        Some(info) => {
            if info.depth >= depth {
                match info.flag {
                    BoardFlag::Exact => {
                        return info.value;
                    },
                    BoardFlag::LowerBound => {
                        alpha = alpha.max(info.value);
                    },
                    BoardFlag::UpperBound => {
                        beta = beta.min(info.value);
                    },
                }
                if alpha.ge(beta) {
                    return info.value;
                }
            }
        },
        None => {},
    }
    if depth == 0 || board.get_winner().is_some() {
        return mover_heuristic(board);
    }
    let ghost table0 = table@;
    let ghost alpha0 = alpha;
    let ghost target = visit_model(table0, board@, depth, 0, Score::NegInf, alpha0, beta);
    let mut value = Score::NegInf;
    let mut slot: usize = 0;
    let mut done = false;
    let ghost mut i: int = 0;
    while !done
        invariant
            table.wf(),
            board@.well_formed(),
            depth > 0,
            slot <= MOVE_SLOTS,
            i == moves_between(board@, 0, slot as int).len(),
            i <= legal_moves(board@).len(),
            board@.winner() is None,
            !done ==> visit_model(table@, board@, depth, i, value, alpha, beta) == target,
            done ==> (value, table@) == target,
        decreases MOVE_SLOTS - slot + if done { 0int } else { 1int },
    {
        match next_move(board, slot) {
            None => {
                proof {
                    if slot >= MOVE_SLOTS {
                        lemma_moves_between_split(board@, 0, MOVE_SLOTS as int, slot as int);
                        assert(slot == MOVE_SLOTS);
                    }
                }
                done = true;
            },
            Some((mv, next)) => {
                proof {
                    lemma_next_is_indexed(board@, slot as int, next as int, mv);
                }
                let child = child_of(board, mv);
                let reply = negamax(table, &child, depth - 1, beta.neg(), alpha.neg()).neg();
                value = value.max(reply);
                alpha = alpha.max(value);
                slot = next;
                proof {
                    i = i + 1;
                }
                if alpha.ge(beta) {
                    done = true;
                }
            },
        }
    }
    let flag = if value.le(alpha_original) {
        BoardFlag::UpperBound
    } else if value.ge(beta) {
        BoardFlag::LowerBound
    } else {
        BoardFlag::Exact
    };
    table.insert(board, BoardInfo { value, depth, flag });
    value
}

/// The move to make in a state: every legal move is searched to `depth`, and
/// the last of the moves with the best value is chosen.
pub fn negamax_root(table: &mut TranspositionTable, board: &Board, depth: u16) -> (best: Move)
    requires
        old(table).wf(),
        board@.well_formed(),
        legal_moves(board@).len() > 0,
    ensures
        final(table).wf(),
        (Some(best), final(table)@) == root_model(
            old(table)@,
            board@,
            depth,
            0,
            Score::NegInf,
            None,
        ),
        legal_moves(board@).contains(best),
{
    let ghost target = root_model(table@, board@, depth, 0, Score::NegInf, None);
    let mut score = Score::NegInf;
    let mut choice: Option<Move> = None;
    let mut slot: usize = 0;
    let ghost mut i: int = 0;
    loop
        invariant
            table.wf(),
            board@.well_formed(),
            slot <= MOVE_SLOTS,
            i == moves_between(board@, 0, slot as int).len(),
            i <= legal_moves(board@).len(),
            legal_moves(board@).len() > 0,
            i > 0 ==> choice is Some,
            i == 0 ==> score == Score::NegInf,
            target == root_model(old(table)@, board@, depth, 0, Score::NegInf, None),
            choice matches Some(m) ==> legal_moves(board@).contains(m),
            root_model(table@, board@, depth, i, score, choice) == target,
        decreases MOVE_SLOTS - slot,
    {
        match next_move(board, slot) {
            None => {
                proof {
                    if slot >= MOVE_SLOTS {
                        lemma_moves_between_split(board@, 0, MOVE_SLOTS as int, slot as int);
                        assert(slot == MOVE_SLOTS);
                    }
                }
                return choice.unwrap();
            },
            Some((mv, next)) => {
                proof {
                    lemma_next_is_indexed(board@, slot as int, next as int, mv);
                }
                let child = child_of(board, mv);
                let new_score = negamax(table, &child, depth, Score::NegInf, Score::PosInf).neg();
                if new_score.ge(score) {
                    score = new_score;
                    choice = Some(mv);
                }
                slot = next;
                proof {
                    i = i + 1;
                }
            },
        }
    }
}

} // verus!
