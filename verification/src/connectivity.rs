//! Which cells a pawn can walk to: the grid of cells as a graph whose edges
//! are the pairs of adjacent cells that no wall separates.

use crate::geometry::{
    adjacent, anchor_index, cell_index, encode8, encode9, lemma_cell_index_injective, on_anchor_grid,
    on_board, shifted, wall_separates, Orientation, Position, Wall,
};
use crate::wallset::{bit_is_set, get_bit, walls_in_bits};
use disjoint_sets::UnionFind;
use vstd::prelude::*;

verus! {

/// Some wall of the set lies between the cells `a` and `b`.
pub open spec fn blocked(ws: Set<Wall>, a: Position, b: Position) -> bool {
    exists|w: Wall| ws.contains(w) && #[trigger] wall_separates(w, a, b)
}

/// A pawn can step from `a` to `b`: both are cells of the board, they share an
/// edge, and no wall lies on it.
pub open spec fn passable(ws: Set<Wall>, a: Position, b: Position) -> bool {
    on_board(a) && on_board(b) && adjacent(a, b) && !blocked(ws, a, b)
}

/// The step from the `i`-th cell of `path` to the next one is passable.
pub open spec fn walk_step(ws: Set<Wall>, path: Seq<Position>, i: int) -> bool {
    passable(ws, path[i], path[i + 1])
}

/// `path` is a walk on the board: it starts on a cell and every step of it is
/// passable.
pub open spec fn is_walk(ws: Set<Wall>, path: Seq<Position>) -> bool {
    &&& path.len() > 0
    &&& on_board(path[0])
    &&& forall|i: int| 0 <= i < path.len() - 1 ==> #[trigger] walk_step(ws, path, i)
}

/// Some walk leads from `a` to `b`.
pub open spec fn connected(ws: Set<Wall>, a: Position, b: Position) -> bool {
    exists|path: Seq<Position>| #[trigger] is_walk(ws, path) && path[0] == a && path.last() == b
}

/// Some walk leads from `a` to a cell of row `row`.
pub open spec fn reaches_row(ws: Set<Wall>, a: Position, row: int) -> bool {
    exists|b: Position| b.y == row && #[trigger] connected(ws, a, b)
}

// ---------------------------------------------------------------------------
// The edges in the order in which the partition takes them up: column by
// column, and down each column. The edge from the c-th cell in that order to
// its right neighbour has rank 2c, the edge to the cell below it rank 2c + 1.
// ---------------------------------------------------------------------------
spec fn visit_order(p: Position) -> int {
    9 * (p.x - 1) + (p.y - 1)
}

spec fn step_rank(a: Position, b: Position) -> int {
    if a.y == b.y {
        2 * visit_order(if a.x < b.x { a } else { b })
    } else {
        2 * visit_order(if a.y < b.y { a } else { b }) + 1
    }
}

spec fn early_step(ws: Set<Wall>, k: int, a: Position, b: Position) -> bool {
    passable(ws, a, b) && step_rank(a, b) < k
}

spec fn early_walk_step(ws: Set<Wall>, k: int, path: Seq<Position>, i: int) -> bool {
    early_step(ws, k, path[i], path[i + 1])
}

spec fn is_early_walk(ws: Set<Wall>, k: int, path: Seq<Position>) -> bool {
    &&& path.len() > 0
    &&& on_board(path[0])
    &&& forall|i: int| 0 <= i < path.len() - 1 ==> #[trigger] early_walk_step(ws, k, path, i)
}

/// Some walk over edges of rank below `k` leads from `a` to `b`.
spec fn early_connected(ws: Set<Wall>, k: int, a: Position, b: Position) -> bool {
    exists|path: Seq<Position>| #[trigger]
        is_early_walk(ws, k, path) && path[0] == a && path.last() == b
}

proof fn lemma_early_refl(ws: Set<Wall>, k: int, a: Position)
    requires
        on_board(a),
    ensures
        early_connected(ws, k, a, a),
{
    let path = seq![a];
    assert(is_early_walk(ws, k, path));
    assert(path[0] == a && path.last() == a);
}

proof fn lemma_early_edge(ws: Set<Wall>, k: int, a: Position, b: Position)
    requires
        early_step(ws, k, a, b),
    ensures
        early_connected(ws, k, a, b),
{
    let path = seq![a, b];
    assert forall|i: int| 0 <= i < path.len() - 1 implies #[trigger] early_walk_step(
        ws,
        k,
        path,
        i,
    ) by {
        assert(path[0] == a && path[1] == b);
    }
    assert(is_early_walk(ws, k, path));
    assert(path[0] == a && path.last() == b);
}

proof fn lemma_passable_symmetric(ws: Set<Wall>, a: Position, b: Position)
    ensures
        passable(ws, a, b) == passable(ws, b, a),
        step_rank(a, b) == step_rank(b, a) || !adjacent(a, b),
{
    if blocked(ws, a, b) {
        let w = choose|w: Wall| ws.contains(w) && #[trigger] wall_separates(w, a, b);
        assert(wall_separates(w, b, a));
    }
    if blocked(ws, b, a) {
        let w = choose|w: Wall| ws.contains(w) && #[trigger] wall_separates(w, b, a);
        assert(wall_separates(w, a, b));
    }
}

proof fn lemma_walk_on_board(ws: Set<Wall>, k: int, path: Seq<Position>, i: int)
    requires
        is_early_walk(ws, k, path),
        0 <= i < path.len(),
    ensures
        on_board(path[i]),
{
    if i > 0 {
        assert(early_walk_step(ws, k, path, i - 1));
    }
}

proof fn lemma_early_sym(ws: Set<Wall>, k: int, a: Position, b: Position)
    requires
        early_connected(ws, k, a, b),
    ensures
        early_connected(ws, k, b, a),
{
    let path = choose|path: Seq<Position>| #[trigger]
        is_early_walk(ws, k, path) && path[0] == a && path.last() == b;
    let back = path.reverse();
    let n = path.len() as int;
    lemma_walk_on_board(ws, k, path, n - 1);
    assert forall|i: int| 0 <= i < back.len() - 1 implies #[trigger] early_walk_step(
        ws,
        k,
        back,
        i,
    ) by {
        assert(back[i] == path[n - 1 - i]);
        assert(back[i + 1] == path[n - 2 - i]);
        assert(early_walk_step(ws, k, path, n - 2 - i));
        lemma_passable_symmetric(ws, path[n - 2 - i], path[n - 1 - i]);
    }
    assert(is_early_walk(ws, k, back));
    assert(back[0] == b && back.last() == a);
}

proof fn lemma_early_trans(ws: Set<Wall>, k: int, a: Position, b: Position, c: Position)
    requires
        early_connected(ws, k, a, b),
        early_connected(ws, k, b, c),
    ensures
        early_connected(ws, k, a, c),
{
    let p = choose|path: Seq<Position>| #[trigger]
        is_early_walk(ws, k, path) && path[0] == a && path.last() == b;
    let q = choose|path: Seq<Position>| #[trigger]
        is_early_walk(ws, k, path) && path[0] == b && path.last() == c;
    let path = p + q.drop_first();
    let n = p.len() as int;
    assert forall|i: int| 0 <= i < path.len() - 1 implies #[trigger] early_walk_step(
        ws,
        k,
        path,
        i,
    ) by {
        if i < n - 1 {
            assert(path[i] == p[i] && path[i + 1] == p[i + 1]);
            assert(early_walk_step(ws, k, p, i));
        } else {
            let j = i - (n - 1);
            assert(path[i] == q[j]);
            assert(path[i + 1] == q[j + 1]);
            assert(early_walk_step(ws, k, q, j));
        }
    }
    assert(is_early_walk(ws, k, path));
    assert(path[0] == a);
    assert(path.last() == c);
}

proof fn lemma_early_mono(ws: Set<Wall>, k: int, m: int, a: Position, b: Position)
    requires
        early_connected(ws, k, a, b),
        k <= m,
    ensures
        early_connected(ws, m, a, b),
{
    let path = choose|path: Seq<Position>| #[trigger]
        is_early_walk(ws, k, path) && path[0] == a && path.last() == b;
    assert forall|i: int| 0 <= i < path.len() - 1 implies #[trigger] early_walk_step(
        ws,
        m,
        path,
        i,
    ) by {
        assert(early_walk_step(ws, k, path, i));
    }
    assert(is_early_walk(ws, m, path));
}

/// The only steps of rank below `m` that are not of rank below `k` lead
/// between `u` and `v`.
spec fn only_new_step(ws: Set<Wall>, k: int, m: int, u: Position, v: Position) -> bool {
    forall|a: Position, b: Position| #[trigger]
        early_step(ws, m, a, b) && !early_step(ws, k, a, b) ==> (a == u && b == v) || (a == v
            && b == u)
}

/// What one more edge adds to the connected pairs.
spec fn joined(ws: Set<Wall>, k: int, u: Position, v: Position, a: Position, b: Position) -> bool {
    ||| early_connected(ws, k, a, b)
    ||| early_connected(ws, k, a, u) && early_connected(ws, k, v, b)
    ||| early_connected(ws, k, a, v) && early_connected(ws, k, u, b)
}

proof fn lemma_walk_splits(
    ws: Set<Wall>,
    k: int,
    m: int,
    u: Position,
    v: Position,
    path: Seq<Position>,
)
    requires
        is_early_walk(ws, m, path),
        only_new_step(ws, k, m, u, v),
    ensures
        joined(ws, k, u, v, path[0], path.last()),
    decreases path.len(),
{
    let a = path[0];
    let b = path.last();
    if path.len() == 1 {
        lemma_early_refl(ws, k, a);
    } else {
        let tail = path.drop_first();
        assert(early_walk_step(ws, m, path, 0));
        assert forall|i: int| 0 <= i < tail.len() - 1 implies #[trigger] early_walk_step(
            ws,
            m,
            tail,
            i,
        ) by {
            assert(early_walk_step(ws, m, path, i + 1));
        }
        assert(is_early_walk(ws, m, tail));
        lemma_walk_splits(ws, k, m, u, v, tail);
        let c = path[1];
        assert(tail[0] == c && tail.last() == b);
        if early_step(ws, k, a, c) {
            lemma_early_edge(ws, k, a, c);
            if early_connected(ws, k, c, b) {
                lemma_early_trans(ws, k, a, c, b);
            } else if early_connected(ws, k, c, u) && early_connected(ws, k, v, b) {
                lemma_early_trans(ws, k, a, c, u);
            } else {
                lemma_early_trans(ws, k, a, c, v);
            }
        } else {
            assert(early_step(ws, m, a, c));
            lemma_early_refl(ws, k, a);
            lemma_early_refl(ws, k, c);
        }
    }
}

proof fn lemma_joined_is_connected(
    ws: Set<Wall>,
    k: int,
    m: int,
    u: Position,
    v: Position,
    a: Position,
    b: Position,
)
    requires
        k <= m,
        early_step(ws, m, u, v),
        joined(ws, k, u, v, a, b),
    ensures
        early_connected(ws, m, a, b),
{
    lemma_early_edge(ws, m, u, v);
    lemma_early_sym(ws, m, u, v);
    if early_connected(ws, k, a, b) {
        lemma_early_mono(ws, k, m, a, b);
    } else if early_connected(ws, k, a, u) && early_connected(ws, k, v, b) {
        lemma_early_mono(ws, k, m, a, u);
        lemma_early_mono(ws, k, m, v, b);
        lemma_early_trans(ws, m, a, u, v);
        lemma_early_trans(ws, m, a, v, b);
    } else {
        lemma_early_mono(ws, k, m, a, v);
        lemma_early_mono(ws, k, m, u, b);
        lemma_early_trans(ws, m, a, v, u);
        lemma_early_trans(ws, m, a, u, b);
    }
}

/// With an edge between `u` and `v` taken up, two cells are connected exactly
/// when they were, or when the new edge joins what they were connected to.
proof fn lemma_step_added(
    ws: Set<Wall>,
    k: int,
    m: int,
    u: Position,
    v: Position,
    a: Position,
    b: Position,
)
    requires
        k <= m,
        early_step(ws, m, u, v),
        only_new_step(ws, k, m, u, v),
    ensures
        early_connected(ws, m, a, b) == joined(ws, k, u, v, a, b),
{
    if early_connected(ws, m, a, b) {
        let path = choose|path: Seq<Position>| #[trigger]
            is_early_walk(ws, m, path) && path[0] == a && path.last() == b;
        lemma_walk_splits(ws, k, m, u, v, path);
    }
    if joined(ws, k, u, v, a, b) {
        lemma_joined_is_connected(ws, k, m, u, v, a, b);
    }
}

/// Where no passable edge has a rank from `k` up to `m`, the connected pairs
/// stay as they are.
proof fn lemma_step_skipped(ws: Set<Wall>, k: int, m: int, a: Position, b: Position)
    requires
        k <= m,
        forall|c: Position, d: Position| #[trigger]
            early_step(ws, m, c, d) ==> early_step(ws, k, c, d),
    ensures
        early_connected(ws, m, a, b) == early_connected(ws, k, a, b),
{
    if early_connected(ws, m, a, b) {
        let path = choose|path: Seq<Position>| #[trigger]
            is_early_walk(ws, m, path) && path[0] == a && path.last() == b;
        assert forall|i: int| 0 <= i < path.len() - 1 implies #[trigger] early_walk_step(
            ws,
            k,
            path,
            i,
        ) by {
            assert(early_walk_step(ws, m, path, i));
        }
        assert(is_early_walk(ws, k, path));
    }
    if early_connected(ws, k, a, b) {
        lemma_early_mono(ws, k, m, a, b);
    }
}

/// Every edge has a rank below 162, so the walks over all ranks are the walks.
proof fn lemma_all_ranks(ws: Set<Wall>, a: Position, b: Position)
    ensures
        early_connected(ws, 162, a, b) == connected(ws, a, b),
{
    if early_connected(ws, 162, a, b) {
        let path = choose|path: Seq<Position>| #[trigger]
            is_early_walk(ws, 162, path) && path[0] == a && path.last() == b;
        assert forall|i: int| 0 <= i < path.len() - 1 implies #[trigger] walk_step(
            ws,
            path,
            i,
        ) by {
            assert(early_walk_step(ws, 162, path, i));
        }
        assert(is_walk(ws, path));
    }
    if connected(ws, a, b) {
        let path = choose|path: Seq<Position>| #[trigger]
            is_walk(ws, path) && path[0] == a && path.last() == b;
        assert forall|i: int| 0 <= i < path.len() - 1 implies #[trigger] early_walk_step(
            ws,
            162,
            path,
            i,
        ) by {
            assert(walk_step(ws, path, i));
        }
        assert(is_early_walk(ws, 162, path));
    }
}

/// Every cell of the board is connected to itself.
pub proof fn lemma_connected_refl(ws: Set<Wall>, a: Position)
    requires
        on_board(a),
    ensures
        connected(ws, a, a),
{
    lemma_early_refl(ws, 162, a);
    lemma_all_ranks(ws, a, a);
}

/// Walks can be walked backwards.
pub proof fn lemma_connected_sym(ws: Set<Wall>, a: Position, b: Position)
    ensures
        connected(ws, a, b) == connected(ws, b, a),
{
    lemma_all_ranks(ws, a, b);
    lemma_all_ranks(ws, b, a);
    if early_connected(ws, 162, a, b) {
        lemma_early_sym(ws, 162, a, b);
    }
    if early_connected(ws, 162, b, a) {
        lemma_early_sym(ws, 162, b, a);
    }
}

/// Walks can be put end to end.
pub proof fn lemma_connected_trans(ws: Set<Wall>, a: Position, b: Position, c: Position)
    requires
        connected(ws, a, b),
        connected(ws, b, c),
    ensures
        connected(ws, a, c),
{
    lemma_all_ranks(ws, a, b);
    lemma_all_ranks(ws, b, c);
    lemma_all_ranks(ws, a, c);
    lemma_early_trans(ws, 162, a, b, c);
}

/// A passable step connects its two cells.
pub proof fn lemma_step_connects(ws: Set<Wall>, a: Position, b: Position)
    requires
        passable(ws, a, b),
    ensures
        connected(ws, a, b),
{
    lemma_early_edge(ws, 162, a, b);
    lemma_all_ranks(ws, a, b);
}

/// Only cells of the board are connected to anything.
pub proof fn lemma_connected_on_board(ws: Set<Wall>, a: Position, b: Position)
    requires
        connected(ws, a, b),
    ensures
        on_board(a),
        on_board(b),
{
    lemma_all_ranks(ws, a, b);
    let path = choose|path: Seq<Position>| #[trigger]
        is_early_walk(ws, 162, path) && path[0] == a && path.last() == b;
    lemma_walk_on_board(ws, 162, path, path.len() - 1);
}

/// Taking walls away keeps every walk a walk.
pub proof fn lemma_fewer_walls_connect_more(
    ws: Set<Wall>,
    more: Set<Wall>,
    a: Position,
    b: Position,
)
    requires
        ws.subset_of(more),
        connected(more, a, b),
    ensures
        connected(ws, a, b),
{
    let path = choose|path: Seq<Position>| #[trigger]
        is_walk(more, path) && path[0] == a && path.last() == b;
    assert forall|i: int| 0 <= i < path.len() - 1 implies #[trigger] walk_step(ws, path, i) by {
        assert(walk_step(more, path, i));
        if blocked(ws, path[i], path[i + 1]) {
            let w = choose|w: Wall|
                ws.contains(w) && #[trigger] wall_separates(w, path[i], path[i + 1]);
            assert(more.contains(w));
        }
    }
    assert(is_walk(ws, path));
}

// ---------------------------------------------------------------------------
// The partition of the cells.
// ---------------------------------------------------------------------------
/// A partition of the numbers below some length into disjoint sets, kept by
/// `disjoint_sets::UnionFind<usize>`.
#[verifier::external_body]
pub struct CellSets {
    sets: UnionFind<usize>,
}

/// For each element of a partition, the representative of the set that the
/// element lies in.
pub uninterp spec fn set_roots(s: CellSets) -> Seq<int>;

/// `UnionFind::new`: every element is alone in its set and is its own
/// representative.
#[verifier::external_body]
pub(crate) fn new_sets(size: usize) -> (s: CellSets)
    ensures
        set_roots(s) == Seq::new(size as nat, |i: int| i),
{
    CellSets { sets: UnionFind::new(size) }
}

/// How the representatives change when the sets of `a` and `b` are joined:
/// the elements of both sets get one representative, which is one of the two
/// that the sets had, and every other element keeps its own.
pub open spec fn roots_joined(before: Seq<int>, after: Seq<int>, a: int, b: int) -> bool {
    &&& after.len() == before.len()
    &&& after[a] == before[a] || after[a] == before[b]
    &&& forall|i: int|
        0 <= i < before.len() ==> #[trigger] after[i] == (if before[i] == before[a] || before[i]
            == before[b] {
            after[a]
        } else {
            before[i]
        })
}

/// `UnionFind::union`: joins the sets of `a` and `b` and returns whether they
/// were different sets. The outside function panics on an element that is
/// not below the length.
#[verifier::external_body]
pub(crate) fn union_sets(s: &mut CellSets, a: usize, b: usize) -> (changed: bool)
    requires
        a < set_roots(*old(s)).len(),
        b < set_roots(*old(s)).len(),
    ensures
        roots_joined(set_roots(*old(s)), set_roots(*final(s)), a as int, b as int),
        changed == (set_roots(*old(s))[a as int] != set_roots(*old(s))[b as int]),
{
    s.sets.union(a, b)
}

/// `UnionFind::find`: the representative of the set of `a`. The outside
/// function panics on an element that is not below the length.
#[verifier::external_body]
pub(crate) fn find_root(s: &CellSets, a: usize) -> (r: usize)
    requires
        a < set_roots(*s).len(),
    ensures
        r == set_roots(*s)[a as int],
{
    s.sets.find(a)
}

/// The partition puts two cells into one set exactly when a walk over edges
/// of rank below `k` joins them.
spec fn sets_follow_walks(roots: Seq<int>, ws: Set<Wall>, k: int) -> bool {
    &&& roots.len() == 81
    &&& forall|a: Position, b: Position|
        on_board(a) && on_board(b) ==> ((roots[cell_index(a)] == roots[cell_index(b)])
            <==> #[trigger] early_connected(ws, k, a, b))
}

proof fn lemma_nothing_joined(roots: Seq<int>, ws: Set<Wall>)
    requires
        roots == Seq::new(81, |i: int| i),
    ensures
        sets_follow_walks(roots, ws, 0),
{
    assert forall|a: Position, b: Position| on_board(a) && on_board(b) implies ((roots[cell_index(
        a,
    )] == roots[cell_index(b)]) <==> #[trigger] early_connected(ws, 0, a, b)) by {
        lemma_cell_index_injective(a, b);
        if a == b {
            lemma_early_refl(ws, 0, a);
        }
        if early_connected(ws, 0, a, b) {
            let path = choose|path: Seq<Position>| #[trigger]
                is_early_walk(ws, 0, path) && path[0] == a && path.last() == b;
            if path.len() > 1 {
                assert(early_walk_step(ws, 0, path, 0));
                lemma_walk_on_board(ws, 0, path, 1);
            }
        }
    }
}

proof fn lemma_sets_after_union(
    before: Seq<int>,
    after: Seq<int>,
    ws: Set<Wall>,
    k: int,
    m: int,
    u: Position,
    v: Position,
)
    requires
        k <= m,
        sets_follow_walks(before, ws, k),
        early_step(ws, m, u, v),
        only_new_step(ws, k, m, u, v),
        after.len() == 81,
        after[cell_index(u)] == before[cell_index(u)] || after[cell_index(u)] == before[cell_index(
            v,
        )],
        forall|i: int|
            0 <= i < 81 ==> #[trigger] after[i] == (if before[i] == before[cell_index(u)]
                || before[i] == before[cell_index(v)] {
                after[cell_index(u)]
            } else {
                before[i]
            }),
    ensures
        sets_follow_walks(after, ws, m),
{
    assert forall|a: Position, b: Position| on_board(a) && on_board(b) implies ((after[cell_index(
        a,
    )] == after[cell_index(b)]) <==> #[trigger] early_connected(ws, m, a, b)) by {
        lemma_step_added(ws, k, m, u, v, a, b);
        lemma_cell_index_injective(a, b);
        lemma_cell_index_injective(u, v);
        assert(before[cell_index(a)] == before[cell_index(u)] <==> early_connected(ws, k, a, u));
        assert(before[cell_index(a)] == before[cell_index(v)] <==> early_connected(ws, k, a, v));
        assert(before[cell_index(u)] == before[cell_index(b)] <==> early_connected(ws, k, u, b));
        assert(before[cell_index(v)] == before[cell_index(b)] <==> early_connected(ws, k, v, b));
        assert(before[cell_index(a)] == before[cell_index(b)] <==> early_connected(ws, k, a, b));
    }
}

proof fn lemma_sets_without_union(roots: Seq<int>, ws: Set<Wall>, k: int, m: int)
    requires
        k <= m,
        sets_follow_walks(roots, ws, k),
        forall|c: Position, d: Position| #[trigger]
            early_step(ws, m, c, d) ==> early_step(ws, k, c, d),
    ensures
        sets_follow_walks(roots, ws, m),
{
    assert forall|a: Position, b: Position| on_board(a) && on_board(b) implies ((roots[cell_index(
        a,
    )] == roots[cell_index(b)]) <==> #[trigger] early_connected(ws, m, a, b)) by {
        lemma_step_skipped(ws, k, m, a, b);
        assert(roots[cell_index(a)] == roots[cell_index(b)] <==> early_connected(ws, k, a, b));
    }
}

/// A wall lies between a cell and its right neighbour exactly when a vertical
/// wall is anchored at the cell or at the cell above it.
pub proof fn lemma_blocked_to_the_right(ws: Set<Wall>, a: Position)
    requires
        on_board(a),
    ensures
        blocked(ws, a, shifted(a, 1, 0)) == (ws.contains((Orientation::Vertical, a))
            || ws.contains((Orientation::Vertical, shifted(a, 0, -1)))),
{
    let b = shifted(a, 1, 0);
    let w1 = (Orientation::Vertical, a);
    let w2 = (Orientation::Vertical, shifted(a, 0, -1));
    assert(wall_separates(w1, a, b));
    assert(wall_separates(w2, a, b));
    if blocked(ws, a, b) {
        let w = choose|w: Wall| ws.contains(w) && #[trigger] wall_separates(w, a, b);
        assert(w == w1 || w == w2);
    }
}

/// A wall lies between a cell and the cell below it exactly when a horizontal
/// wall is anchored at the cell or at its left neighbour.
pub proof fn lemma_blocked_downwards(ws: Set<Wall>, a: Position)
    requires
        on_board(a),
    ensures
        blocked(ws, a, shifted(a, 0, 1)) == (ws.contains((Orientation::Horizontal, a))
            || ws.contains((Orientation::Horizontal, shifted(a, -1, 0)))),
{
    let b = shifted(a, 0, 1);
    let w1 = (Orientation::Horizontal, a);
    let w2 = (Orientation::Horizontal, shifted(a, -1, 0));
    assert(wall_separates(w1, a, b));
    assert(wall_separates(w2, a, b));
    if blocked(ws, a, b) {
        let w = choose|w: Wall| ws.contains(w) && #[trigger] wall_separates(w, a, b);
        assert(w == w1 || w == w2);
    }
}

/// Whether one of the walls in `bits` is anchored at the cell `(x, y)` or at
/// `(x - dx, y - dy)`, the two anchors from which a wall reaches the far edge
/// of the cell.
fn wall_at_either(bits: u64, x: i64, y: i64, dx: i64, dy: i64) -> (r: bool)
    requires
        1 <= x <= 9,
        1 <= y <= 9,
        (dx == 1 && dy == 0) || (dx == 0 && dy == 1),
    ensures
        r == ({
            let p = Position { x, y };
            let q = shifted(p, -dx, -dy);
            (on_anchor_grid(p) && bit_is_set(bits, anchor_index(p))) || (on_anchor_grid(q)
                && bit_is_set(bits, anchor_index(q)))
        }),
{
    let here: bool = x <= 8 && y <= 8 && get_bit(bits, encode8(x - 1, y - 1));
    let before: bool = x - dx >= 1 && x - dx <= 8 && y - dy >= 1 && y - dy <= 8 && get_bit(
        bits,
        encode8(x - dx - 1, y - dy - 1),
    );
    here || before
}

/// Whether a pawn on `pos` can walk to row `goal_row` past the walls that the
/// two words hold.
///
/// Builds the partition of all 81 cells in which every cell is joined to its
/// right neighbour and to the cell below it unless a wall lies between, and
/// looks for a cell of the goal row in the set of `pos`.
pub fn goal_reachable(
    horizontal_walls: u64,
    vertical_walls: u64,
    pos: Position,
    goal_row: i64,
) -> (r: bool)
    requires
        on_board(pos),
        1 <= goal_row <= 9,
    ensures
        r == reaches_row(walls_in_bits(horizontal_walls, vertical_walls), pos, goal_row as int),
{
    let ghost ws = walls_in_bits(horizontal_walls, vertical_walls);
    let mut sets = new_sets(81);
    proof {
        lemma_nothing_joined(set_roots(sets), ws);
    }
    let mut x: i64 = 1;
    while x <= 9
        invariant
            1 <= x <= 10,
            ws == walls_in_bits(horizontal_walls, vertical_walls),
            sets_follow_walks(set_roots(sets), ws, 18 * (x - 1)),
        decreases 10 - x,
    {
        let mut y: i64 = 1;
        while y <= 9
            invariant
                1 <= x <= 9,
                1 <= y <= 10,
                ws == walls_in_bits(horizontal_walls, vertical_walls),
                sets_follow_walks(set_roots(sets), ws, 18 * (x - 1) + 2 * (y - 1)),
            decreases 10 - y,
        {
            let here = Position { x, y };
            let this_node: usize = encode9(x, y);
            let ghost k = 18 * (x - 1) + 2 * (y - 1);
            // to the right
            let right = Position { x: x + 1, y };
            let wall_right: bool = wall_at_either(vertical_walls, x, y, 0, 1);
            proof {
                lemma_blocked_to_the_right(ws, here);
                lemma_passable_symmetric(ws, here, right);
                assert forall|c: Position, d: Position| #[trigger]
                    early_step(ws, k + 1, c, d) && !early_step(ws, k, c, d) implies (c == here
                    && d == right) || (c == right && d == here) by {
                    assert(step_rank(c, d) == k);
                }
            }
            if x < 9 && !wall_right {
                let ghost before = set_roots(sets);
                union_sets(&mut sets, this_node, encode9(x + 1, y));
                proof {
                    lemma_sets_after_union(before, set_roots(sets), ws, k, k + 1, here, right);
                }
            } else {
                proof {
                    lemma_sets_without_union(set_roots(sets), ws, k, k + 1);
                }
            }
            // downwards
            let below = Position { x, y: y + 1 };
            let wall_below: bool = wall_at_either(horizontal_walls, x, y, 1, 0);
            proof {
                lemma_blocked_downwards(ws, here);
                lemma_passable_symmetric(ws, here, below);
                assert forall|c: Position, d: Position| #[trigger]
                    early_step(ws, k + 2, c, d) && !early_step(ws, k + 1, c, d) implies (c == here
                    && d == below) || (c == below && d == here) by {
                    assert(step_rank(c, d) == k + 1);
                }
            }
            if y < 9 && !wall_below {
                let ghost before = set_roots(sets);
                union_sets(&mut sets, this_node, encode9(x, y + 1));
                proof {
                    lemma_sets_after_union(before, set_roots(sets), ws, k + 1, k + 2, here, below);
                }
            } else {
                proof {
                    lemma_sets_without_union(set_roots(sets), ws, k + 1, k + 2);
                }
            }
            y = y + 1;
        }
        x = x + 1;
    }
    let this_value: usize = find_root(&sets, encode9(pos.x, pos.y));
    let mut gx: i64 = 1;
    while gx <= 9
        invariant
            1 <= gx <= 10,
            1 <= goal_row <= 9,
            on_board(pos),
            ws == walls_in_bits(horizontal_walls, vertical_walls),
            sets_follow_walks(set_roots(sets), ws, 162),
            this_value == set_roots(sets)[cell_index(pos)],
            forall|b: Position| 1 <= b.x < gx && b.y == goal_row ==> !connected(ws, pos, b),
        decreases 10 - gx,
    {
        let goal = Position { x: gx, y: goal_row };
        proof {
            lemma_all_ranks(ws, pos, goal);
        }
        if this_value == find_root(&sets, encode9(gx, goal_row)) {
            assert(reaches_row(ws, pos, goal_row as int)) by {
                assert(goal.y == goal_row && connected(ws, pos, goal));
            }
            return true;
        }
        gx = gx + 1;
    }
    proof {
        if reaches_row(ws, pos, goal_row as int) {
            let b = choose|b: Position| b.y == goal_row as int && #[trigger] connected(ws, pos, b);
            lemma_connected_on_board(ws, pos, b);
        }
    }
    false
}

} // verus!
