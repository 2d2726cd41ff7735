//! The search with pruning and table finds what the plain search finds.
//!
//! The table may hold entries of deeper searches, and the search uses them
//! in place of a search of its own depth; its value is then the value of a
//! search that is deeper in places. Where every entry that the search uses
//! has the depth that the search asks for, the value that the search returns
//! is, within its window, the value of the plain search.

use crate::board::{lemma_move_keeps_well_formed, BoardView};
use crate::evaluation::lemma_values_proper;
use crate::geometry::{Move, Position};
use crate::moves::{legal_moves, lemma_enumeration_is_exact};
use crate::score::{lemma_key_injective, lemma_negated, Score};
use crate::search::{
    best_reply, flag_for, minimax_value, negamax_model, probe, reply_value, visit_model, Memo,
};
use crate::table::{BoardFlag, BoardInfo};
use vstd::prelude::*;

verus! {

/// The entry says something true of the value that the plain search to the
/// entry's depth gives the state.
pub open spec fn entry_sound(b: BoardView, info: BoardInfo) -> bool {
    &&& info.value.proper()
    &&& match info.flag {
        BoardFlag::Exact => info.value == minimax_value(b, info.depth),
        BoardFlag::LowerBound => info.value.key() <= minimax_value(b, info.depth).key(),
        BoardFlag::UpperBound => info.value.key() >= minimax_value(b, info.depth).key(),
    }
}

/// Every entry of the table is sound.
pub open spec fn table_sound(table: Memo) -> bool {
    forall|b: BoardView| #[trigger] table.contains_key(b) ==> entry_sound(b, table[b])
}

/// `r` is a value that a search with the window from `alpha` to `beta` may
/// return for a state of value `m`: below the window it is an upper bound of
/// `m`, above the window a lower bound, and within the window it is `m`.
pub open spec fn within_window(r: Score, m: Score, alpha: Score, beta: Score) -> bool {
    &&& r.key() <= alpha.key() ==> m.key() <= r.key()
    &&& r.key() >= beta.key() ==> m.key() >= r.key()
    &&& alpha.key() < r.key() < beta.key() ==> m == r
}

/// The search of `b` to `depth` uses no entry of a deeper search, neither
/// for `b` nor for a state that it comes to.
pub open spec fn exact_run(table: Memo, b: BoardView, depth: u16, alpha: Score, beta: Score) -> bool
    decreases depth, legal_moves(b).len() + 1,
{
    &&& table.contains_key(b) ==> table[b].depth <= depth
    &&& probe(table, b, depth, alpha, beta).0 is None && depth > 0 && b.winner() is None
        ==> exact_visit(
        table,
        b,
        depth,
        0,
        Score::NegInf,
        probe(table, b, depth, alpha, beta).1,
        probe(table, b, depth, alpha, beta).2,
    )
}

/// The search over the legal moves of `b` from the `i`-th on uses no entry
/// of a deeper search.
pub open spec fn exact_visit(
    table: Memo,
    b: BoardView,
    depth: u16,
    i: int,
    value: Score,
    alpha: Score,
    beta: Score,
) -> bool
    decreases depth, legal_moves(b).len() - i,
{
    if depth == 0 || i < 0 || i >= legal_moves(b).len() {
        true
    } else {
        let child = b.apply(legal_moves(b)[i]);
        let r = negamax_model(table, child, (depth - 1) as u16, beta.negated(), alpha.negated());
        let v = value.maximum(r.0.negated());
        let a = alpha.maximum(v);
        &&& exact_run(table, child, (depth - 1) as u16, beta.negated(), alpha.negated())
        &&& a.key() >= beta.key() || exact_visit(r.1, b, depth, i + 1, v, a, beta)
    }
}

/// An exact entry of a search that was at least as deep is returned as it
/// is, whatever the plain search to the depth asked for would find. This is
/// why the search agrees with the plain search only where it uses no entry
/// of a deeper search.
pub proof fn lemma_deeper_entry_is_taken(
    table: Memo,
    b: BoardView,
    depth: u16,
    alpha: Score,
    beta: Score,
)
    requires
        table.contains_key(b),
        table[b].depth >= depth,
        table[b].flag == BoardFlag::Exact,
    ensures
        negamax_model(table, b, depth, alpha, beta) == (table[b].value, table),
{
}

/// The plain search finds no score without an opposite.
pub proof fn lemma_minimax_proper(b: BoardView, depth: u16)
    requires
        b.well_formed(),
    ensures
        minimax_value(b, depth).proper(),
    decreases depth, legal_moves(b).len() + 1,
{
    if depth == 0 || b.winner() is Some {
        lemma_values_proper(b);
    } else {
        lemma_best_reply_proper(b, depth, legal_moves(b).len() as int);
    }
}

/// The best of the first replies is no score without an opposite.
pub proof fn lemma_best_reply_proper(b: BoardView, depth: u16, n: int)
    requires
        b.well_formed(),
    ensures
        best_reply(b, depth, n).proper(),
    decreases depth, n,
{
    if !(depth == 0 || n <= 0 || n > legal_moves(b).len()) {
        lemma_best_reply_proper(b, depth, n - 1);
        lemma_child_well_formed(b, n - 1);
        let child = b.apply(legal_moves(b)[n - 1]);
        lemma_minimax_proper(child, (depth - 1) as u16);
        lemma_negated(minimax_value(child, (depth - 1) as u16), Score::NegInf);
    }
}

/// The listed moves of a well-formed state are moves that the rules allow,
/// and the states after them are well formed.
pub proof fn lemma_child_well_formed(b: BoardView, i: int)
    requires
        b.well_formed(),
        0 <= i < legal_moves(b).len(),
    ensures
        b.move_legal(legal_moves(b)[i]),
        b.apply(legal_moves(b)[i]).well_formed(),
{
    let mv = legal_moves(b)[i];
    assert(legal_moves(b).contains(mv));
    lemma_enumeration_is_exact(b, mv);
    lemma_move_keeps_well_formed(b, mv);
}

/// More replies do not make the best reply worse.
pub proof fn lemma_best_reply_grows(b: BoardView, depth: u16, i: int, n: int)
    requires
        0 <= i <= n <= legal_moves(b).len(),
    ensures
        best_reply(b, depth, i).key() <= best_reply(b, depth, n).key(),
    decreases n - i,
{
    if i < n {
        lemma_best_reply_grows(b, depth, i, n - 1);
    }
}

/// Where the search uses no entry of a deeper search and the table is sound,
/// the value that the search returns is, within its window, the value of the
/// plain search to the same depth, and the table stays sound.
pub proof fn lemma_negamax_sound(table: Memo, b: BoardView, depth: u16, alpha: Score, beta: Score)
    requires
        b.well_formed(),
        table_sound(table),
        exact_run(table, b, depth, alpha, beta),
        alpha.proper(),
        beta.proper(),
        alpha.key() < beta.key(),
    ensures
        within_window(
            negamax_model(table, b, depth, alpha, beta).0,
            minimax_value(b, depth),
            alpha,
            beta,
        ),
        table_sound(negamax_model(table, b, depth, alpha, beta).1),
        negamax_model(table, b, depth, alpha, beta).0.proper(),
    decreases depth, legal_moves(b).len() + 1,
{
    let p = probe(table, b, depth, alpha, beta);
    let m = minimax_value(b, depth);
    lemma_minimax_proper(b, depth);
    if table.contains_key(b) {
        assert(entry_sound(b, table[b]));
    }
    if p.0 is Some {
        assert(table[b].depth == depth);
    } else if depth == 0 || b.winner() is Some {
        lemma_values_proper(b);
    } else {
        let r = visit_model(table, b, depth, 0, Score::NegInf, p.1, p.2);
        lemma_visit_sound(table, b, depth, 0, Score::NegInf, p.1, p.2, p.1);
        assert(m == best_reply(b, depth, legal_moves(b).len() as int));
        lemma_key_injective(m, r.0);
        let info = BoardInfo { value: r.0, depth, flag: flag_for(r.0, alpha, p.2) };
        assert(entry_sound(b, info));
        let after = r.1.insert(b, info);
        assert forall|c: BoardView| #[trigger] after.contains_key(c) implies entry_sound(
            c,
            after[c],
        ) by {
            if c != b {
                assert(r.1.contains_key(c));
            }
        }
    }
}

/// The search over the moves from the `i`-th on, begun with the window that
/// started at `alpha0`: where `value` is at least the best of the first `i`
/// replies, and is that best reply if it lies above `alpha0`, the value that
/// the search returns is, within the window from `alpha0` to `beta`, the
/// best of all replies.
pub proof fn lemma_visit_sound(
    table: Memo,
    b: BoardView,
    depth: u16,
    i: int,
    value: Score,
    alpha: Score,
    beta: Score,
    alpha0: Score,
)
    requires
        b.well_formed(),
        depth > 0,
        table_sound(table),
        exact_visit(table, b, depth, i, value, alpha, beta),
        0 <= i <= legal_moves(b).len(),
        alpha0.proper(),
        beta.proper(),
        value.proper(),
        alpha == alpha0.maximum(value),
        alpha.key() < beta.key(),
        best_reply(b, depth, i).key() <= value.key(),
        value.key() > alpha0.key() ==> best_reply(b, depth, i) == value,
    ensures
        within_window(
            visit_model(table, b, depth, i, value, alpha, beta).0,
            best_reply(b, depth, legal_moves(b).len() as int),
            alpha0,
            beta,
        ),
        table_sound(visit_model(table, b, depth, i, value, alpha, beta).1),
        visit_model(table, b, depth, i, value, alpha, beta).0.proper(),
    decreases depth, legal_moves(b).len() - i,
{
    let n = legal_moves(b).len() as int;
    if i < n {
        let child = b.apply(legal_moves(b)[i]);
        let d = (depth - 1) as u16;
        lemma_child_well_formed(b, i);
        lemma_negated(alpha, beta);
        lemma_negamax_sound(table, child, d, beta.negated(), alpha.negated());
        let r = negamax_model(table, child, d, beta.negated(), alpha.negated());
        let mc = minimax_value(child, d);
        lemma_minimax_proper(child, d);
        lemma_negated(r.0, mc);
        lemma_negated(r.0, alpha);
        lemma_negated(r.0, beta);
        lemma_negated(mc, alpha);
        let reply = r.0.negated();
        let truth = mc.negated();
        assert(truth == reply_value(b, depth, i));
        assert(best_reply(b, depth, i + 1) == best_reply(b, depth, i).maximum(truth));
        lemma_key_injective(reply, truth);
        let v = value.maximum(reply);
        let a = alpha.maximum(v);
        if a.key() >= beta.key() {
            lemma_best_reply_grows(b, depth, i + 1, n);
        } else {
            lemma_key_injective(best_reply(b, depth, i + 1), v);
            lemma_visit_sound(r.1, b, depth, i + 1, v, a, beta, alpha0);
        }
    }
}

/// With the full window, a search that uses no entry of a deeper search
/// returns the value of the plain search to the same depth.
pub proof fn lemma_full_window_is_exact(table: Memo, b: BoardView, depth: u16)
    requires
        b.well_formed(),
        table_sound(table),
        exact_run(table, b, depth, Score::NegInf, Score::PosInf),
    ensures
        negamax_model(table, b, depth, Score::NegInf, Score::PosInf).0 == minimax_value(b, depth),
{
    lemma_negamax_sound(table, b, depth, Score::NegInf, Score::PosInf);
    lemma_key_injective(
        negamax_model(table, b, depth, Score::NegInf, Score::PosInf).0,
        minimax_value(b, depth),
    );
}

// ---------------------------------------------------------------------------
// Searches that begin with an empty table.
// ---------------------------------------------------------------------------
/// What a player has of its own in a state: the cell of its pawn and its
/// stock of walls.
pub open spec fn own_state(b: BoardView, player: int) -> (Position, usize) {
    (b.positions[player], b.walls_left[player])
}

/// A move changes what the mover has of its own, and nothing of what the
/// other player has.
pub proof fn lemma_move_changes_own_state(b: BoardView, mv: Move)
    requires
        b.well_formed(),
        b.move_legal(mv),
    ensures
        own_state(b.apply(mv), b.player) != own_state(b, b.player),
        own_state(b.apply(mv), 1 - b.player) == own_state(b, 1 - b.player),
        b.apply(mv).player == 1 - b.player,
{
}

/// The table of a search to depth 3 or less of a state in which the player
/// `q` is to move: its entries of states with `q` to move are of searches to
/// depth 1, and its entries of states with the other player to move are of
/// searches to depth 2 and of states in which that player has of its own
/// what `theirs` says.
pub open spec fn stamped(table: Memo, q: int, theirs: (Position, usize)) -> bool {
    forall|c: BoardView| #[trigger]
        table.contains_key(c) ==> if c.player == q {
            table[c].depth == 1
        } else {
            table[c].depth == 2 && own_state(c, 1 - q) == theirs
        }
}

/// A search to depth 0 of a state that the table does not hold uses no
/// entry and leaves the table as it is.
proof fn lemma_leaf_run(table: Memo, b: BoardView, alpha: Score, beta: Score)
    requires
        !table.contains_key(b),
    ensures
        exact_run(table, b, 0, alpha, beta),
        negamax_model(table, b, 0, alpha, beta).1 == table,
{
}

proof fn lemma_one_ply_visit(
    table: Memo,
    b: BoardView,
    theirs: (Position, usize),
    i: int,
    value: Score,
    alpha: Score,
    beta: Score,
)
    requires
        b.well_formed(),
        stamped(table, b.player, theirs),
        own_state(b, 1 - b.player) != theirs,
        0 <= i,
    ensures
        exact_visit(table, b, 1, i, value, alpha, beta),
        visit_model(table, b, 1, i, value, alpha, beta).1 == table,
    decreases legal_moves(b).len() - i,
{
    if i < legal_moves(b).len() {
        let child = b.apply(legal_moves(b)[i]);
        lemma_child_well_formed(b, i);
        lemma_move_changes_own_state(b, legal_moves(b)[i]);
        lemma_leaf_run(table, child, beta.negated(), alpha.negated());
        let r = negamax_model(table, child, 0, beta.negated(), alpha.negated());
        let v = value.maximum(r.0.negated());
        let a = alpha.maximum(v);
        if a.key() < beta.key() {
            lemma_one_ply_visit(table, b, theirs, i + 1, v, a, beta);
        }
    }
}

/// A search to depth 1 of a state with `q` to move, in which the other
/// player has moved since the states of the table with that player to move,
/// uses no entry of a deeper search, and leaves such a table.
proof fn lemma_one_ply_run(
    table: Memo,
    b: BoardView,
    theirs: (Position, usize),
    alpha: Score,
    beta: Score,
)
    requires
        b.well_formed(),
        stamped(table, b.player, theirs),
        own_state(b, 1 - b.player) != theirs,
    ensures
        exact_run(table, b, 1, alpha, beta),
        stamped(negamax_model(table, b, 1, alpha, beta).1, b.player, theirs),
{
    let p = probe(table, b, 1, alpha, beta);
    if p.0 is None && b.winner() is None {
        lemma_one_ply_visit(table, b, theirs, 0, Score::NegInf, p.1, p.2);
    }
}

proof fn lemma_two_ply_visit(
    table: Memo,
    b: BoardView,
    i: int,
    value: Score,
    alpha: Score,
    beta: Score,
)
    requires
        b.well_formed(),
        stamped(table, 1 - b.player, own_state(b, b.player)),
        0 <= i,
    ensures
        exact_visit(table, b, 2, i, value, alpha, beta),
        stamped(visit_model(table, b, 2, i, value, alpha, beta).1, 1 - b.player, own_state(b, b.player)),
    decreases legal_moves(b).len() - i,
{
    if i < legal_moves(b).len() {
        let child = b.apply(legal_moves(b)[i]);
        lemma_child_well_formed(b, i);
        lemma_move_changes_own_state(b, legal_moves(b)[i]);
        lemma_one_ply_run(table, child, own_state(b, b.player), beta.negated(), alpha.negated());
        let r = negamax_model(table, child, 1, beta.negated(), alpha.negated());
        let v = value.maximum(r.0.negated());
        let a = alpha.maximum(v);
        if a.key() < beta.key() {
            lemma_two_ply_visit(r.1, b, i + 1, v, a, beta);
        }
    }
}

/// A search to depth 2 of a state in which the player to move has of its
/// own what the states of the table with that player to move have, uses no
/// entry of a deeper search, and leaves such a table.
proof fn lemma_two_ply_run(table: Memo, b: BoardView, alpha: Score, beta: Score)
    requires
        b.well_formed(),
        stamped(table, 1 - b.player, own_state(b, b.player)),
    ensures
        exact_run(table, b, 2, alpha, beta),
        stamped(negamax_model(table, b, 2, alpha, beta).1, 1 - b.player, own_state(b, b.player)),
{
    let p = probe(table, b, 2, alpha, beta);
    if p.0 is None && b.winner() is None {
        lemma_two_ply_visit(table, b, 0, Score::NegInf, p.1, p.2);
    }
}

proof fn lemma_three_ply_visit(
    table: Memo,
    b: BoardView,
    i: int,
    value: Score,
    alpha: Score,
    beta: Score,
)
    requires
        b.well_formed(),
        stamped(table, b.player, own_state(b, 1 - b.player)),
        0 <= i,
    ensures
        exact_visit(table, b, 3, i, value, alpha, beta),
    decreases legal_moves(b).len() - i,
{
    if i < legal_moves(b).len() {
        let child = b.apply(legal_moves(b)[i]);
        lemma_child_well_formed(b, i);
        lemma_move_changes_own_state(b, legal_moves(b)[i]);
        lemma_two_ply_run(table, child, beta.negated(), alpha.negated());
        let r = negamax_model(table, child, 2, beta.negated(), alpha.negated());
        let v = value.maximum(r.0.negated());
        let a = alpha.maximum(v);
        if a.key() < beta.key() {
            lemma_three_ply_visit(r.1, b, i + 1, v, a, beta);
        }
    }
}

/// A search to depth 3 or less that begins with an empty table uses no
/// entry of a deeper search. A state that is searched to depth 0 is none of
/// the states that were searched to depth 2: the player who is to move in
/// both has moved in between, and so has another cell or another stock.
pub proof fn lemma_fresh_run_is_exact(b: BoardView, depth: u16, alpha: Score, beta: Score)
    requires
        b.well_formed(),
        depth <= 3,
    ensures
        exact_run(Map::empty(), b, depth, alpha, beta),
{
    let table: Memo = Map::empty();
    if depth == 0 {
        lemma_leaf_run(table, b, alpha, beta);
    } else if depth == 1 {
        let theirs = (b.positions[1 - b.player], (b.walls_left[1 - b.player] + 1) as usize);
        lemma_one_ply_run(table, b, theirs, alpha, beta);
    } else if depth == 2 {
        lemma_two_ply_run(table, b, alpha, beta);
    } else {
        let p = probe(table, b, 3, alpha, beta);
        if p.0 is None && b.winner() is None {
            lemma_three_ply_visit(table, b, 0, Score::NegInf, p.1, p.2);
        }
    }
}

/// A search to depth 3 or less that begins with an empty table and the full
/// window returns the value of the plain search to the same depth.
pub proof fn lemma_fresh_search_is_plain(b: BoardView, depth: u16)
    requires
        b.well_formed(),
        depth <= 3,
    ensures
        negamax_model(Map::empty(), b, depth, Score::NegInf, Score::PosInf).0 == minimax_value(
            b,
            depth,
        ),
{
    lemma_fresh_run_is_exact(b, depth, Score::NegInf, Score::PosInf);
    lemma_full_window_is_exact(Map::empty(), b, depth);
}

} // verus!
