//! Players: whoever answers a move with a move. Two of them choose their
//! moves themselves: one by the value of the states that its moves lead to,
//! one by search.

use crate::board::{Board, BoardView};
use crate::evaluation::{mover_heuristic, mover_value};
use crate::geometry::Move;
use crate::moves::{
    legal_moves, lemma_enumeration_is_exact, lemma_moves_between_split, moves_between, next_move,
    MOVE_SLOTS,
};
use crate::score::Score;
use crate::search::{negamax_root, root_model};
use crate::table::TranspositionTable;
use vstd::prelude::*;

verus! {

/// How many moves the searching player looks ahead beyond its own.
pub const SEARCH_DEPTH: u16 = 5;

/// A player of the game.
pub trait Player {
    /// Whether the player can take this move of its opponent. A player that
    /// says nothing takes every move.
    open spec fn accepts(&self, mv: Option<Move>) -> bool {
        true
    }

    /// Takes the opponent's move, or `None` where the player is to open the
    /// game, and answers with a move of its own.
    fn mv(&mut self, mv: Option<Move>) -> (reply: Move)
        requires
            old(self).accepts(mv),
    ;

    /// Tells the player that a game is over. What it keeps for the next game
    /// is its own matter.
    fn reset(&mut self);
}

/// How a game stands after a move was handed in.
#[derive(PartialEq, Eq, Structural, Copy, Clone, Debug)]
pub enum Turn {
    /// The move was made and the game goes on with the other player.
    Next,
    /// The move was made and this player has its pawn on its goal row.
    Won(usize),
    /// The rules do not allow the move: this player, the other one, wins.
    Forfeit(usize),
}

/// What the move leads to, by the rules.
pub open spec fn turn_after(b: BoardView, mv: Move) -> Turn {
    if b.refusal(mv) is Some {
        Turn::Forfeit((1 - b.player) as usize)
    } else {
        match b.apply(mv).winner() {
            Some(w) => Turn::Won(w),
            None => Turn::Next,
        }
    }
}

/// Takes the move of the player whose turn it is. A move that the rules do
/// not allow gives the game to the other player and leaves the state as it
/// is. A move that they allow is made; it wins the game for the player whose
/// pawn then stands on its goal row.
pub fn referee_step(board: &mut Board, mv: Move) -> (r: Turn)
    requires
        old(board)@.well_formed(),
    ensures
        r == turn_after(old(board)@, mv),
        r is Forfeit ==> *final(board) == *old(board),
        !(r is Forfeit) ==> final(board)@ == old(board)@.apply(mv),
        final(board)@.well_formed(),
        old(board)@.valid() ==> final(board)@.valid(),
{
    let mover: usize = board.player;
    match board.integrate(mv) {
        Err(_) => Turn::Forfeit(1 - mover),
        Ok(()) => match board.get_winner() {
            Some(w) => Turn::Won(w),
            None => Turn::Next,
        },
    }
}

/// The state after the opponent's move, if it made one.
pub open spec fn after_opponent(b: BoardView, mv: Option<Move>) -> BoardView {
    match mv {
        Some(m) => b.apply(m),
        None => b,
    }
}

/// A player that keeps the state of the game can take the move: the state
/// is well formed, the move is legal in it, and after it the player has a
/// move of its own.
pub open spec fn can_answer(b: BoardView, mv: Option<Move>) -> bool {
    &&& b.well_formed()
    &&& mv matches Some(m) ==> b.move_legal(m)
    &&& legal_moves(after_opponent(b, mv)).len() > 0
}

/// The value for the player to move of making its `i`-th legal move, by the
/// value of the state that the move leads to.
pub open spec fn step_value(b: BoardView, i: int) -> Score {
    mover_value(b.apply(legal_moves(b)[i])).negated()
}

/// The `k`-th legal move is the first of the moves with the best value.
pub open spec fn first_best(b: BoardView, k: int) -> bool {
    &&& 0 <= k < legal_moves(b).len()
    &&& forall|j: int|
        0 <= j < legal_moves(b).len() ==> (#[trigger] step_value(b, j)).key() <= step_value(
            b,
            k,
        ).key()
    &&& forall|j: int| 0 <= j < k ==> (#[trigger] step_value(b, j)).key() < step_value(b, k).key()
}

/// The move that leads to the state of the best value for the player to
/// move; of several such moves the first.
pub fn minimax_step(board: &Board) -> (best: Move)
    requires
        board@.well_formed(),
        legal_moves(board@).len() > 0,
    ensures
        exists|k: int| #[trigger] first_best(board@, k) && legal_moves(board@)[k] == best,
        board@.move_legal(best),
{
    let mut score = Score::NegInf;
    let mut choice: Option<Move> = None;
    let mut slot: usize = 0;
    let ghost mut i: int = 0;
    let ghost mut k: int = 0;
    loop
        invariant
            board@.well_formed(),
            slot <= MOVE_SLOTS,
            i == moves_between(board@, 0, slot as int).len(),
            i <= legal_moves(board@).len(),
            legal_moves(board@).len() > 0,
            i == 0 ==> choice is None,
            i > 0 ==> 0 <= k < i && choice == Some(legal_moves(board@)[k]) && score == step_value(
                board@,
                k,
            ),
            forall|j: int| 0 <= j < i ==> (#[trigger] step_value(board@, j)).key() <= step_value(
                board@,
                k,
            ).key(),
            forall|j: int| 0 <= j < k ==> (#[trigger] step_value(board@, j)).key() < step_value(
                board@,
                k,
            ).key(),
        decreases MOVE_SLOTS - slot,
    {
        match next_move(board, slot) {
            None => {
                proof {
                    if slot >= MOVE_SLOTS {
                        lemma_moves_between_split(board@, 0, MOVE_SLOTS as int, slot as int);
                        assert(slot == MOVE_SLOTS);
                    }
                    assert(first_best(board@, k));
                    lemma_enumeration_is_exact(board@, legal_moves(board@)[k]);
                }
                return choice.unwrap();
            },
            Some((mv, next)) => {
                proof {
                    lemma_moves_between_split(board@, 0, next as int, MOVE_SLOTS as int);
                    assert(legal_moves(board@)[i] == mv);
                }
                let mut child = board.copy();
                let r = child.integrate(mv);
                assert(r is Ok);
                let new_score = mover_heuristic(&child).neg();
                let better: bool = match choice {
                    None => true,
                    Some(_) => !score.ge(new_score),
                };
                if better {
                    score = new_score;
                    choice = Some(mv);
                    proof {
                        k = i;
                    }
                }
                slot = next;
                proof {
                    i = i + 1;
                }
            },
        }
    }
}

/// A player that makes the move which leads to the state of the best value.
pub struct HeuristicBot {
    board: Board,
}

impl View for HeuristicBot {
    type V = BoardView;

    closed spec fn view(&self) -> BoardView {
        self.board@
    }
}

impl HeuristicBot {
    /// A player for a game that stands at `board`.
    pub fn new(board: Board) -> (bot: HeuristicBot)
        ensures
            bot@ == board@,
    {
        HeuristicBot { board }
    }
}

impl Player for HeuristicBot {
    open spec fn accepts(&self, mv: Option<Move>) -> bool {
        can_answer(self@, mv)
    }

    /// Answers with the first of the moves that lead to the state of the
    /// best value, and keeps the state after both moves.
    fn mv(&mut self, mv: Option<Move>) -> (reply: Move)
        ensures
            after_opponent(old(self)@, mv).move_legal(reply),
            exists|k: int| #[trigger]
                first_best(after_opponent(old(self)@, mv), k) && legal_moves(
                    after_opponent(old(self)@, mv),
                )[k] == reply,
            final(self)@ == after_opponent(old(self)@, mv).apply(reply),
    {
        if let Some(m) = mv {
            let r = self.board.integrate(m);
            assert(r is Ok);
        }
        let reply = minimax_step(&self.board);
        let r = self.board.integrate(reply);
        assert(r is Ok);
        reply
    }

    /// Keeps the state as it is.
    fn reset(&mut self)
        ensures
            final(self)@ == old(self)@,
    {
    }
}

/// A player that searches for its moves and keeps what it has found out.
pub struct MinimaxPlayer {
    board: Board,
    memory: TranspositionTable,
}

impl MinimaxPlayer {
    /// The state of the game as the player has it.
    pub closed spec fn state(&self) -> BoardView {
        self.board@
    }

    /// What the player has found out about states.
    pub closed spec fn memo(&self) -> Map<BoardView, crate::table::BoardInfo> {
        self.memory@
    }

    /// The player's table is in order.
    pub closed spec fn wf(&self) -> bool {
        self.memory.wf()
    }

    /// A player for a game that is about to start, with an empty table.
    pub fn new() -> (p: MinimaxPlayer)
        ensures
            p.wf(),
            p.state() == crate::board::initial_board(),
            p.memo() == Map::<BoardView, crate::table::BoardInfo>::empty(),
    {
        MinimaxPlayer { board: Board::default(), memory: TranspositionTable::new() }
    }
}

impl Player for MinimaxPlayer {
    open spec fn accepts(&self, mv: Option<Move>) -> bool {
        self.wf() && can_answer(self.state(), mv)
    }

    /// Answers with the move that the search to depth 5 chooses, and keeps
    /// the state after both moves and what the search has found out.
    fn mv(&mut self, mv: Option<Move>) -> (reply: Move)
        ensures
            final(self).wf(),
            after_opponent(old(self).state(), mv).move_legal(reply),
            (Some(reply), final(self).memo()) == root_model(
                old(self).memo(),
                after_opponent(old(self).state(), mv),
                SEARCH_DEPTH,
                0,
                Score::NegInf,
                None,
            ),
            final(self).state() == after_opponent(old(self).state(), mv).apply(reply),
    {
        if let Some(m) = mv {
            let r = self.board.integrate(m);
            assert(r is Ok);
        }
        let reply = negamax_root(&mut self.memory, &self.board, SEARCH_DEPTH);
        proof {
            lemma_enumeration_is_exact(self.board@, reply);
        }
        let r = self.board.integrate(reply);
        assert(r is Ok);
        reply
    }

    /// Keeps the state and the table as they are.
    fn reset(&mut self)
        ensures
            *final(self) == *old(self),
    {
    }
}

} // verus!
