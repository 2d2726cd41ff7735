//! The value of a state: who is ahead, and by how much.

use crate::board::{Board, BoardView};
use crate::flow::{flow_value, lemma_flow_bound, player_flow};
use crate::score::Score;
use vstd::prelude::*;

verus! {

/// What one unit of flow is worth, in twentieths. One wall in stock is worth
/// one twentieth.
pub const FLOW_WEIGHT: i64 = 20;

/// The value of a state for player 0: an infinity where a player has won,
/// else the difference of the players' flows, weighted, plus the difference
/// of their stocks of walls.
pub open spec fn heuristic_value(b: BoardView) -> Score {
    match b.winner() {
        Some(w) => if w == 0 {
            Score::PosInf
        } else {
            Score::NegInf
        },
        None => Score::Finite(
            (FLOW_WEIGHT * (flow_value(b, 0) - flow_value(b, 1)) + (b.walls_left[0]
                - b.walls_left[1])) as i64,
        ),
    }
}

/// The value of a state for the player who is to move.
pub open spec fn mover_value(b: BoardView) -> Score {
    if b.player == 0 {
        heuristic_value(b)
    } else {
        heuristic_value(b).negated()
    }
}

/// The value of a well-formed state is no score without an opposite.
pub proof fn lemma_values_proper(b: BoardView)
    requires
        b.well_formed(),
    ensures
        heuristic_value(b).proper(),
        mover_value(b).proper(),
{
    if b.winner() is None {
        lemma_flow_bound(b, 0);
        lemma_flow_bound(b, 1);
    }
}

/// The value of a state for player 0. Positive values favour player 0,
/// negative values player 1.
pub fn board_heuristic(board: &Board) -> (r: Score)
    requires
        board@.well_formed(),
    ensures
        r == heuristic_value(board@),
        r.proper(),
{
    match board.get_winner() {
        Some(w) => if w == 0 {
            Score::PosInf
        } else {
            Score::NegInf
        },
        None => {
            let f0: u64 = player_flow(board, 0);
            let f1: u64 = player_flow(board, 1);
            let w0: i64 = board.walls_left[0] as i64;
            let w1: i64 = board.walls_left[1] as i64;
            Score::Finite(FLOW_WEIGHT * (f0 as i64 - f1 as i64) + (w0 - w1))
        },
    }
}

/// The value of a state for the player who is to move.
pub fn mover_heuristic(board: &Board) -> (r: Score)
    requires
        board@.well_formed(),
    ensures
        r == mover_value(board@),
        r.proper(),
{
    let h = board_heuristic(board);
    if board.player == 0 {
        h
    } else {
        h.neg()
    }
}

} // verus!
