//! How well a pawn can get to its goal row: a flow from the pawn's cell to
//! the goal row through cells whose capacity falls with their distance from
//! the pawn. Short routes and many routes both raise it.

use crate::board::{goal_row, Board, BoardView};
use crate::connectivity::passable;
use crate::geometry::{
    cell_index, decode9, encode9, in_bounds1to9, neighbor, on_board, Position, Wall,
};
use arrayvec::ArrayVec;
use std::collections::VecDeque;
use vstd::prelude::*;

verus! {

/// The number of cells of the board.
pub const CELLS: usize = 81;

/// The capacity of the cell on which the pawn stands.
pub const SOURCE_CAPACITY: u64 = 100;

/// In a table of predecessors, the entry of a cell that has none.
pub const NO_CELL: usize = 81;

// ---------------------------------------------------------------------------
// Counting and summing over sequences.
// ---------------------------------------------------------------------------
/// How often `v` occurs in `s`.
pub open spec fn count_of<T>(s: Seq<T>, v: T) -> nat
    decreases s.len(),
{
    if s.len() == 0 {
        0
    } else {
        count_of(s.drop_last(), v) + if s.last() == v {
            1nat
        } else {
            0nat
        }
    }
}

/// The sum of the entries of `s`.
pub open spec fn total(s: Seq<u64>) -> nat
    decreases s.len(),
{
    if s.len() == 0 {
        0
    } else {
        total(s.drop_last()) + s.last() as nat
    }
}

pub proof fn lemma_count_after_update<T>(s: Seq<T>, i: int, v: T, w: T)
    requires
        0 <= i < s.len(),
        s[i] == v,
        w != v,
    ensures
        count_of(s.update(i, w), v) + 1 == count_of(s, v),
    decreases s.len(),
{
    let t = s.update(i, w);
    if i == s.len() - 1 {
        assert(t.drop_last() =~= s.drop_last());
    } else {
        lemma_count_after_update(s.drop_last(), i, v, w);
        assert(t.drop_last() =~= s.drop_last().update(i, w));
    }
}

proof fn lemma_count_bound<T>(s: Seq<T>, v: T)
    ensures
        count_of(s, v) <= s.len(),
    decreases s.len(),
{
    if s.len() > 0 {
        lemma_count_bound(s.drop_last(), v);
    }
}

proof fn lemma_total_after_update(s: Seq<u64>, i: int, w: u64)
    requires
        0 <= i < s.len(),
    ensures
        total(s.update(i, w)) + s[i] == total(s) + w,
    decreases s.len(),
{
    let t = s.update(i, w);
    if i == s.len() - 1 {
        assert(t.drop_last() =~= s.drop_last());
    } else {
        lemma_total_after_update(s.drop_last(), i, w);
        assert(t.drop_last() =~= s.drop_last().update(i, w));
    }
}

proof fn lemma_total_bound(s: Seq<u64>, limit: u64)
    requires
        forall|i: int| 0 <= i < s.len() ==> s[i] <= limit,
    ensures
        total(s) <= s.len() * limit,
    decreases s.len(),
{
    if s.len() > 0 {
        lemma_total_bound(s.drop_last(), limit);
        assert(total(s) <= s.len() * limit) by (nonlinear_arith)
            requires
                total(s.drop_last()) <= (s.len() - 1) * limit,
                total(s) == total(s.drop_last()) + s.last(),
                s.last() <= limit,
        ;
    }
}

// ---------------------------------------------------------------------------
// The neighbours of a cell that a pawn can step to.
// ---------------------------------------------------------------------------
/// The cell with row-major index `p`.
pub open spec fn cell_at(p: int) -> Position {
    Position { x: (p % 9 + 1) as i64, y: (p / 9 + 1) as i64 }
}

/// The indices of the neighbours of `c` in the first `n` directions to which
/// a pawn on `c` can step, in the order of the directions.
pub open spec fn open_neighbors_upto(ws: Set<Wall>, c: Position, n: int) -> Seq<usize>
    decreases n,
{
    if n <= 0 {
        Seq::empty()
    } else if passable(ws, c, neighbor(c, n - 1)) {
        open_neighbors_upto(ws, c, n - 1).push(cell_index(neighbor(c, n - 1)) as usize)
    } else {
        open_neighbors_upto(ws, c, n - 1)
    }
}

/// The indices of the neighbours of the cell with index `p` to which a pawn
/// can step: to the right, to the left, down and up, in this order.
pub open spec fn open_neighbors(ws: Set<Wall>, p: int) -> Seq<usize> {
    open_neighbors_upto(ws, cell_at(p), 4)
}

/// The neighbours of every cell.
pub open spec fn adjacency(ws: Set<Wall>) -> Seq<Seq<usize>> {
    Seq::new(CELLS as nat, |p: int| open_neighbors(ws, p))
}

proof fn lemma_open_neighbors_are_cells(ws: Set<Wall>, c: Position, n: int)
    requires
        on_board(c),
        n <= 4,
    ensures
        open_neighbors_upto(ws, c, n).len() <= if n < 0 {
            0
        } else {
            n
        },
        forall|i: int|
            0 <= i < open_neighbors_upto(ws, c, n).len() ==> #[trigger] open_neighbors_upto(
                ws,
                c,
                n,
            )[i] < CELLS,
    decreases n,
{
    if n > 0 {
        lemma_open_neighbors_are_cells(ws, c, n - 1);
    }
}

/// A list of at most four cells, kept by `arrayvec::ArrayVec`.
#[verifier::external_type_specification]
#[verifier::external_body]
#[verifier::reject_recursive_types(T)]
pub struct ExArrayVec<T, const CAP: usize>(ArrayVec<T, CAP>);

/// The cells that a list holds, in the order in which they were added.
pub uninterp spec fn listed(a: ArrayVec<usize, 4>) -> Seq<usize>;

/// `ArrayVec::new`: a list without elements.
#[verifier::external_body]
pub(crate) fn list_new() -> (a: ArrayVec<usize, 4>)
    ensures
        listed(a) == Seq::<usize>::empty(),
{
    ArrayVec::new()
}

/// `ArrayVec::push`: adds the element behind the others. The outside function
/// panics on a list that is full.
#[verifier::external_body]
pub(crate) fn list_push(a: &mut ArrayVec<usize, 4>, v: usize)
    requires
        listed(*old(a)).len() < 4,
    ensures
        listed(*final(a)) == listed(*old(a)).push(v),
{
    a.push(v)
}

/// `ArrayVec::len`: the number of elements.
#[verifier::external_body]
pub(crate) fn list_len(a: &ArrayVec<usize, 4>) -> (n: usize)
    ensures
        n == listed(*a).len(),
{
    a.len()
}

/// Indexing an `ArrayVec`: the element at position `i`. The outside function
/// panics on a position that is not below the length.
#[verifier::external_body]
pub(crate) fn list_get(a: &ArrayVec<usize, 4>, i: usize) -> (v: usize)
    requires
        i < listed(*a).len(),
    ensures
        v == listed(*a)[i as int],
{
    a[i]
}

/// The neighbour of a cell of the board in one of the four directions.
fn neighbor_cell(c: &Position, d: usize) -> (q: Position)
    requires
        on_board(*c),
        d < 4,
    ensures
        q == neighbor(*c, d as int),
{
    if d == 0 {
        Position { x: c.x + 1, y: c.y }
    } else if d == 1 {
        Position { x: c.x - 1, y: c.y }
    } else if d == 2 {
        Position { x: c.x, y: c.y + 1 }
    } else {
        Position { x: c.x, y: c.y - 1 }
    }
}

/// The neighbours of a cell to which a pawn can step.
fn open_neighbor_list(board: &Board, c: &Position) -> (a: ArrayVec<usize, 4>)
    requires
        on_board(*c),
    ensures
        listed(a) == open_neighbors_upto(board@.wall_set(), *c, 4),
{
    let mut a = list_new();
    let mut d: usize = 0;
    while d < 4
        invariant
            d <= 4,
            on_board(*c),
            listed(a) == open_neighbors_upto(board@.wall_set(), *c, d as int),
        decreases 4 - d,
    {
        proof {
            lemma_open_neighbors_are_cells(board@.wall_set(), *c, d as int);
        }
        let q = neighbor_cell(c, d);
        if in_bounds1to9(&q) && !board.wall_between(c, &q) {
            list_push(&mut a, encode9(q.x, q.y));
        }
        d = d + 1;
    }
    a
}

/// The visitor can be called on each neighbour of `pos` to which a pawn on
/// `pos` can step.
pub open spec fn takes_open_neighbors<F: FnMut(Position)>(f: F, ws: Set<Wall>, pos: Position) -> bool {
    forall|d: int|
        0 <= d < 4 && passable(ws, pos, #[trigger] neighbor(pos, d)) ==> call_requires(
            f,
            (neighbor(pos, d),),
        )
}

/// Calls `f` on every neighbour of `pos` to which a pawn on `pos` can step:
/// to the right, to the left, down and up, in this order; and on no other
/// cell: the visitor need not be able to take any other.
pub fn for_each_adjacent_cell<F: FnMut(Position)>(board: &Board, pos: Position, f: &mut F)
    requires
        on_board(pos),
        takes_open_neighbors(*old(f), board@.wall_set(), pos),
    ensures
        forall|d: int|
            0 <= d < 4 && passable(board@.wall_set(), pos, #[trigger] neighbor(pos, d))
                ==> call_ensures(*old(f), (neighbor(pos, d),), ()),
{
    let mut d: usize = 0;
    while d < 4
        invariant
            d <= 4,
            on_board(pos),
            *f == *old(f),
            takes_open_neighbors(*f, board@.wall_set(), pos),
            forall|e: int|
                0 <= e < d && passable(board@.wall_set(), pos, #[trigger] neighbor(pos, e))
                    ==> call_ensures(*f, (neighbor(pos, e),), ()),
        decreases 4 - d,
    {
        let q = neighbor_cell(&pos, d);
        if in_bounds1to9(&q) && !board.wall_between(&pos, &q) {
            f(q);
        }
        d = d + 1;
    }
}

/// Calls `f` on every neighbour of `cell` from which no wall separates it:
/// to the right, to the left, down and up, in this order; and on no other
/// cell.
pub fn for_each_nonwalled_neighbor<F: FnMut(Position)>(board: &Board, cell: Position, f: &mut F)
    requires
        on_board(cell),
        takes_open_neighbors(*old(f), board@.wall_set(), cell),
    ensures
        forall|d: int|
            0 <= d < 4 && passable(board@.wall_set(), cell, #[trigger] neighbor(cell, d))
                ==> call_ensures(*old(f), (neighbor(cell, d),), ()),
{
    for_each_adjacent_cell(board, cell, f)
}

/// The neighbours of every cell of the board.
fn build_adjacency(board: &Board) -> (adj: Vec<ArrayVec<usize, 4>>)
    ensures
        adj@.len() == CELLS,
        forall|p: int| 0 <= p < CELLS ==> listed(#[trigger] adj@[p]) == open_neighbors(board@.wall_set(), p),
{
    let mut adj: Vec<ArrayVec<usize, 4>> = Vec::new();
    let mut p: usize = 0;
    while p < CELLS
        invariant
            p <= CELLS,
            adj@.len() == p,
            forall|q: int|
                0 <= q < p ==> listed(#[trigger] adj@[q]) == open_neighbors(board@.wall_set(), q),
        decreases CELLS - p,
    {
        let c = decode9(p);
        assert(c == cell_at(p as int));
        adj.push(open_neighbor_list(board, &c));
        p = p + 1;
    }
    adj
}

// ---------------------------------------------------------------------------
// Capacities: 100 on the pawn's cell, one less with every step away from it.
// ---------------------------------------------------------------------------
/// Every entry is the index of a cell.
pub open spec fn cells_in(s: Seq<usize>) -> bool {
    forall|i: int| 0 <= i < s.len() ==> #[trigger] s[i] < CELLS
}

/// `adj` holds, for each of the 81 cells, a list of cells.
pub open spec fn neighbors_ok(adj: Seq<Seq<usize>>) -> bool {
    &&& adj.len() == CELLS
    &&& forall|p: int| 0 <= p < CELLS ==> cells_in(#[trigger] adj[p])
}

/// The capacity of a cell one step farther from the pawn than a cell of
/// capacity `cap`: one less, but not less than 1.
pub open spec fn decayed(cap: u64) -> u64 {
    if cap > 1 {
        (cap - 1) as u64
    } else {
        1
    }
}

/// Takes up the cells of `next`, the neighbours of a cell of capacity `cap`:
/// each of them that has no capacity yet gets the decayed capacity and joins
/// the queue. Gives the capacities and the queue afterwards.
pub open spec fn discover(caps: Seq<u64>, queue: Seq<usize>, next: Seq<usize>, cap: u64) -> (
    Seq<u64>,
    Seq<usize>,
)
    decreases next.len(),
{
    if next.len() == 0 {
        (caps, queue)
    } else if caps[next[0] as int] == 0 {
        discover(
            caps.update(next[0] as int, decayed(cap)),
            queue.push(next[0]),
            next.drop_first(),
            cap,
        )
    } else {
        discover(caps, queue, next.drop_first(), cap)
    }
}

pub proof fn lemma_discover(caps: Seq<u64>, queue: Seq<usize>, next: Seq<usize>, cap: u64)
    requires
        caps.len() == CELLS,
        cells_in(queue),
        cells_in(next),
    ensures
        discover(caps, queue, next, cap).0.len() == CELLS,
        cells_in(discover(caps, queue, next, cap).1),
        2 * count_of(discover(caps, queue, next, cap).0, 0u64) + discover(
            caps,
            queue,
            next,
            cap,
        ).1.len() <= 2 * count_of(caps, 0u64) + queue.len(),
    decreases next.len(),
{
    if next.len() > 0 {
        let q = next[0];
        assert(cells_in(next.drop_first())) by {
            assert forall|i: int| 0 <= i < next.drop_first().len() implies #[trigger] next.drop_first()[i]
                < CELLS by {
                assert(next.drop_first()[i] == next[i + 1]);
            }
        }
        if caps[q as int] == 0 {
            lemma_count_after_update(caps, q as int, 0u64, decayed(cap));
            lemma_discover(
                caps.update(q as int, decayed(cap)),
                queue.push(q),
                next.drop_first(),
                cap,
            );
        } else {
            lemma_discover(caps, queue, next.drop_first(), cap);
        }
    }
}

/// Breadth-first spreading of capacities: takes the cells from the queue one
/// by one and takes up the neighbours of each, until the queue is empty.
pub open spec fn spread(adj: Seq<Seq<usize>>, caps: Seq<u64>, queue: Seq<usize>) -> Seq<u64>
    decreases 2 * count_of(caps, 0u64) + queue.len(),
    when caps.len() == CELLS && neighbors_ok(adj) && cells_in(queue)
{
    if queue.len() == 0 {
        caps
    } else {
        let p = queue[0] as int;
        proof {
            assert(cells_in(queue.drop_first())) by {
                assert forall|i: int| 0 <= i < queue.drop_first().len() implies #[trigger] queue.drop_first()[i]
                    < CELLS by {
                    assert(queue.drop_first()[i] == queue[i + 1]);
                }
            }
            lemma_discover(caps, queue.drop_first(), adj[p], caps[p]);
        }
        spread(
            adj,
            discover(caps, queue.drop_first(), adj[p], caps[p]).0,
            discover(caps, queue.drop_first(), adj[p], caps[p]).1,
        )
    }
}

/// The capacity of every cell for a pawn on the cell `source`: 100 on that
/// cell, on every cell that the pawn can walk to the decayed capacity of the
/// cell from which the breadth-first search reaches it first, and 0 on the
/// cells that the pawn cannot walk to.
pub open spec fn capacities(adj: Seq<Seq<usize>>, source: usize) -> Seq<u64> {
    spread(
        adj,
        Seq::new(CELLS as nat, |i: int| 0u64).update(source as int, SOURCE_CAPACITY),
        seq![source],
    )
}

/// The neighbour lists as sequences.
pub open spec fn lists_view(adj: Seq<ArrayVec<usize, 4>>) -> Seq<Seq<usize>> {
    Seq::new(adj.len(), |p: int| listed(adj[p]))
}

fn assign_capacities(adj: &Vec<ArrayVec<usize, 4>>, source: usize) -> (caps: Vec<u64>)
    requires
        neighbors_ok(lists_view(adj@)),
        source < CELLS,
    ensures
        caps@ == capacities(lists_view(adj@), source),
        caps@.len() == CELLS,
        forall|i: int| 0 <= i < CELLS ==> #[trigger] caps@[i] <= SOURCE_CAPACITY,
{
    let ghost lists = lists_view(adj@);
    let mut caps: Vec<u64> = Vec::new();
    let mut i: usize = 0;
    while i < CELLS
        invariant
            i <= CELLS,
            caps@ == Seq::new(i as nat, |j: int| 0u64),
        decreases CELLS - i,
    {
        caps.push(0);
        assert(caps@ =~= Seq::new((i + 1) as nat, |j: int| 0u64));
        i = i + 1;
    }
    caps.set(source, SOURCE_CAPACITY);
    let mut queue: VecDeque<usize> = VecDeque::new();
    queue.push_back(source);
    assert(queue@ =~= seq![source]);
    loop
        invariant
            lists == lists_view(adj@),
            neighbors_ok(lists),
            adj@.len() == CELLS,
            caps@.len() == CELLS,
            cells_in(queue@),
            forall|i: int| 0 <= i < CELLS ==> #[trigger] caps@[i] <= SOURCE_CAPACITY,
            spread(lists, caps@, queue@) == capacities(lists, source),
        decreases 2 * count_of(caps@, 0u64) + queue@.len(),
    {
        let ghost caps_before = caps@;
        let ghost queue_before = queue@;
        match queue.pop_front() {
            None => {
                return caps;
            },
            Some(p) => {
                assert(queue@ =~= queue_before.drop_first());
                assert(p == queue_before[0]);
                assert(cells_in(queue@)) by {
                    assert forall|i: int| 0 <= i < queue@.len() implies #[trigger] queue@[i] < CELLS by {
                        assert(queue@[i] == queue_before[i + 1]);
                    }
                }
                let cap: u64 = caps[p];
                let list = &adj[p];
                assert(listed(*list) == lists[p as int]);
                let n: usize = list_len(list);
                let ghost queue_popped = queue@;
                let ghost next = listed(*list);
                proof {
                    lemma_discover(caps_before, queue_popped, next, cap);
                    assert(next.skip(0) =~= next);
                }
                let mut k: usize = 0;
                while k < n
                    invariant
                        k <= n,
                        n == next.len(),
                        next == listed(*list),
                        cells_in(next),
                        caps@.len() == CELLS,
                        cells_in(queue@),
                        cap <= SOURCE_CAPACITY,
                        forall|i: int| 0 <= i < CELLS ==> #[trigger] caps@[i] <= SOURCE_CAPACITY,
                        discover(caps@, queue@, next.skip(k as int), cap) == discover(
                            caps_before,
                            queue_popped,
                            next,
                            cap,
                        ),
                    decreases n - k,
                {
                    let q: usize = list_get(list, k);
                    proof {
                        let rest = next.skip(k as int);
                        assert(rest[0] == q);
                        assert(rest.drop_first() =~= next.skip(k + 1));
                    }
                    if caps[q] == 0 {
                        let lower: u64 = if cap > 1 { cap - 1 } else { 1 };
                        caps.set(q, lower);
                        queue.push_back(q);
                    }
                    k = k + 1;
                }
                assert(next.skip(n as int) =~= Seq::<usize>::empty());
            },
        }
    }
}

// ---------------------------------------------------------------------------
// Routes: breadth-first search for a way to the goal row through cells that
// have capacity left.
// ---------------------------------------------------------------------------
/// Takes up the cells of `next`, the neighbours of the last cell of `route`:
/// each of them that has capacity left and that no route has reached yet is
/// marked as reached, and the route extended by it joins the queue. Gives the
/// queue and the marks afterwards.
pub open spec fn extend(
    residual: Seq<u64>,
    queue: Seq<Seq<usize>>,
    seen: Seq<bool>,
    next: Seq<usize>,
    route: Seq<usize>,
) -> (Seq<Seq<usize>>, Seq<bool>)
    decreases next.len(),
{
    if next.len() == 0 {
        (queue, seen)
    } else if residual[next[0] as int] > 0 && !seen[next[0] as int] {
        extend(
            residual,
            queue.push(route.push(next[0])),
            seen.update(next[0] as int, true),
            next.drop_first(),
            route,
        )
    } else {
        extend(residual, queue, seen, next.drop_first(), route)
    }
}

/// A route from `source`: it starts there, runs over cells of the board, and
/// every cell after the first has capacity left.
pub open spec fn is_route(residual: Seq<u64>, source: usize, route: Seq<usize>) -> bool {
    &&& route.len() > 0
    &&& route[0] == source
    &&& cells_in(route)
    &&& forall|i: int| 1 <= i < route.len() ==> residual[#[trigger] route[i] as int] > 0
}

/// Every entry of the queue is a route from `source`.
pub open spec fn routes_in(residual: Seq<u64>, source: usize, queue: Seq<Seq<usize>>) -> bool {
    forall|i: int| 0 <= i < queue.len() ==> is_route(residual, source, #[trigger] queue[i])
}

pub proof fn lemma_rest_of_queue<T>(queue: Seq<T>, i: int)
    requires
        0 <= i < queue.len() - 1,
    ensures
        queue.drop_first()[i] == queue[i + 1],
{
}

pub proof fn lemma_extend(
    residual: Seq<u64>,
    source: usize,
    queue: Seq<Seq<usize>>,
    seen: Seq<bool>,
    next: Seq<usize>,
    route: Seq<usize>,
)
    requires
        residual.len() == CELLS,
        seen.len() == CELLS,
        cells_in(next),
        routes_in(residual, source, queue),
        is_route(residual, source, route),
    ensures
        extend(residual, queue, seen, next, route).1.len() == CELLS,
        routes_in(residual, source, extend(residual, queue, seen, next, route).0),
        2 * count_of(extend(residual, queue, seen, next, route).1, false) + extend(
            residual,
            queue,
            seen,
            next,
            route,
        ).0.len() <= 2 * count_of(seen, false) + queue.len(),
    decreases next.len(),
{
    if next.len() > 0 {
        let q = next[0];
        let rest = next.drop_first();
        assert(cells_in(rest)) by {
            assert forall|i: int| 0 <= i < rest.len() implies #[trigger] rest[i] < CELLS by {
                lemma_rest_of_queue(next, i);
            }
        }
        if residual[q as int] > 0 && !seen[q as int] {
            let longer = route.push(q);
            assert(is_route(residual, source, longer)) by {
                assert forall|i: int| 0 <= i < longer.len() implies #[trigger] longer[i] < CELLS by {
                    if i < route.len() {
                        assert(longer[i] == route[i]);
                    }
                }
                assert forall|i: int| 1 <= i < longer.len() implies residual[#[trigger] longer[i] as int]
                    > 0 by {
                    if i < route.len() {
                        assert(longer[i] == route[i]);
                    }
                }
            }
            let grown = queue.push(longer);
            assert(routes_in(residual, source, grown)) by {
                assert forall|i: int| 0 <= i < grown.len() implies is_route(
                    residual,
                    source,
                    #[trigger] grown[i],
                ) by {
                    if i < queue.len() {
                        assert(grown[i] == queue[i]);
                    }
                }
            }
            lemma_count_after_update(seen, q as int, false, true);
            lemma_extend(residual, source, grown, seen.update(q as int, true), rest, route);
        } else {
            lemma_extend(residual, source, queue, seen, rest, route);
        }
    }
}

/// Breadth-first search: takes the routes from the queue one by one; the
/// first that ends in the goal row is the result; every other is extended to
/// the neighbours of its last cell. `None` when the queue runs empty.
pub open spec fn search(
    adj: Seq<Seq<usize>>,
    residual: Seq<u64>,
    source: usize,
    goal: int,
    queue: Seq<Seq<usize>>,
    seen: Seq<bool>,
) -> Option<Seq<usize>>
    decreases 2 * count_of(seen, false) + queue.len(),
    when seen.len() == CELLS && residual.len() == CELLS && neighbors_ok(adj) && routes_in(
        residual,
        source,
        queue,
    )
{
    if queue.len() == 0 {
        None
    } else if cell_at(queue[0].last() as int).y == goal {
        Some(queue[0])
    } else {
        let route = queue[0];
        let rest = queue.drop_first();
        proof {
            assert(routes_in(residual, source, rest)) by {
                assert forall|i: int| 0 <= i < rest.len() implies is_route(
                    residual,
                    source,
                    #[trigger] rest[i],
                ) by {
                    lemma_rest_of_queue(queue, i);
                }
            }
            lemma_extend(residual, source, rest, seen, adj[route.last() as int], route);
        }
        search(
            adj,
            residual,
            source,
            goal,
            extend(residual, rest, seen, adj[route.last() as int], route).0,
            extend(residual, rest, seen, adj[route.last() as int], route).1,
        )
    }
}

/// The first route that the breadth-first search finds from `source` to the
/// row `goal` through cells with capacity left.
pub open spec fn find_route(adj: Seq<Seq<usize>>, residual: Seq<u64>, source: usize, goal: int) -> Option<
    Seq<usize>,
> {
    search(
        adj,
        residual,
        source,
        goal,
        seq![seq![source]],
        Seq::new(CELLS as nat, |i: int| false).update(source as int, true),
    )
}

/// What the search finds is a route that ends in the goal row.
pub proof fn lemma_search_finds_route(
    adj: Seq<Seq<usize>>,
    residual: Seq<u64>,
    source: usize,
    goal: int,
    queue: Seq<Seq<usize>>,
    seen: Seq<bool>,
)
    requires
        seen.len() == CELLS,
        residual.len() == CELLS,
        neighbors_ok(adj),
        routes_in(residual, source, queue),
    ensures
        search(adj, residual, source, goal, queue, seen) matches Some(route) ==> is_route(
            residual,
            source,
            route,
        ) && cell_at(route.last() as int).y == goal,
    decreases 2 * count_of(seen, false) + queue.len(),
{
    if queue.len() > 0 && cell_at(queue[0].last() as int).y != goal {
        let route = queue[0];
        let rest = queue.drop_first();
        assert(routes_in(residual, source, rest)) by {
            assert forall|i: int| 0 <= i < rest.len() implies is_route(
                residual,
                source,
                #[trigger] rest[i],
            ) by {
                lemma_rest_of_queue(queue, i);
            }
        }
        lemma_extend(residual, source, rest, seen, adj[route.last() as int], route);
        let e = extend(residual, rest, seen, adj[route.last() as int], route);
        lemma_search_finds_route(adj, residual, source, goal, e.0, e.1);
    }
}

/// The least capacity left on the cells of a route after the first, and at
/// most the capacity of the source.
pub open spec fn bottleneck(residual: Seq<u64>, route: Seq<usize>) -> u64
    decreases route.len(),
{
    if route.len() <= 1 {
        SOURCE_CAPACITY
    } else if residual[route.last() as int] < bottleneck(residual, route.drop_last()) {
        residual[route.last() as int]
    } else {
        bottleneck(residual, route.drop_last())
    }
}

/// The route passes over the cell `c` at position `from` or later.
pub open spec fn passes(route: Seq<usize>, from: int, c: int) -> bool {
    exists|j: int| from <= j < route.len() && #[trigger] route[j] == c
}

/// The capacities left after `amount` has been taken from every cell of the
/// route after the first.
pub open spec fn drained(residual: Seq<u64>, route: Seq<usize>, amount: u64) -> Seq<u64> {
    Seq::new(
        residual.len(),
        |i: int|
            if passes(route, 1, i) {
                (residual[i] - amount) as u64
            } else {
                residual[i]
            },
    )
}

pub proof fn lemma_bottleneck(residual: Seq<u64>, source: usize, route: Seq<usize>)
    requires
        residual.len() == CELLS,
        is_route(residual, source, route),
    ensures
        1 <= bottleneck(residual, route) <= SOURCE_CAPACITY,
        forall|i: int|
            1 <= i < route.len() ==> bottleneck(residual, route) <= residual[#[trigger] route[i] as int],
    decreases route.len(),
{
    if route.len() > 1 {
        let shorter = route.drop_last();
        assert(is_route(residual, source, shorter)) by {
            assert forall|i: int| 0 <= i < shorter.len() implies #[trigger] shorter[i] < CELLS by {
                assert(shorter[i] == route[i]);
            }
            assert forall|i: int| 1 <= i < shorter.len() implies residual[#[trigger] shorter[i] as int]
                > 0 by {
                assert(shorter[i] == route[i]);
            }
        }
        lemma_bottleneck(residual, source, shorter);
        assert forall|i: int| 1 <= i < route.len() implies bottleneck(residual, route)
            <= residual[#[trigger] route[i] as int] by {
            if i < shorter.len() {
                assert(shorter[i] == route[i]);
            }
        }
    }
}

pub proof fn lemma_total_drops(s: Seq<u64>, t: Seq<u64>, j: int)
    requires
        s.len() == t.len(),
        0 <= j < s.len(),
        forall|i: int| 0 <= i < s.len() ==> t[i] <= s[i],
        t[j] < s[j],
    ensures
        total(t) < total(s),
        total(t) + (s[j] - t[j]) <= total(s),
    decreases s.len(),
{
    lemma_total_le(s.drop_last(), t.drop_last());
    if j < s.len() - 1 {
        lemma_total_drops(s.drop_last(), t.drop_last(), j);
    }
}

pub proof fn lemma_total_le(s: Seq<u64>, t: Seq<u64>)
    requires
        s.len() == t.len(),
        forall|i: int| 0 <= i < s.len() ==> t[i] <= s[i],
    ensures
        total(t) <= total(s),
    decreases s.len(),
{
    if s.len() > 0 {
        lemma_total_le(s.drop_last(), t.drop_last());
    }
}

/// Draining a route takes at least its bottleneck from the capacities left.
pub proof fn lemma_drained(residual: Seq<u64>, source: usize, route: Seq<usize>)
    requires
        residual.len() == CELLS,
        is_route(residual, source, route),
        route.len() >= 2,
    ensures
        drained(residual, route, bottleneck(residual, route)).len() == CELLS,
        total(drained(residual, route, bottleneck(residual, route))) + bottleneck(residual, route)
            <= total(residual),
        total(drained(residual, route, bottleneck(residual, route))) < total(residual),
{
    let amount = bottleneck(residual, route);
    let after = drained(residual, route, amount);
    lemma_bottleneck(residual, source, route);
    let j = route[1];
    assert(passes(route, 1, j as int));
    assert forall|i: int| 0 <= i < residual.len() implies after[i] <= residual[i] by {
        if passes(route, 1, i) {
            let k = choose|k: int| 1 <= k < route.len() && #[trigger] route[k] == i;
        }
    }
    lemma_total_drops(residual, after, j as int);
}

/// The flow: as long as the search finds a route, the bottleneck of the
/// route is added to the flow and taken from the cells of the route.
pub open spec fn flow_from(adj: Seq<Seq<usize>>, residual: Seq<u64>, source: usize, goal: int) -> nat
    decreases total(residual),
    when residual.len() == CELLS && neighbors_ok(adj) && source < CELLS && cell_at(source as int).y
        != goal
{
    match find_route(adj, residual, source, goal) {
        None => 0,
        Some(route) => {
            proof {
                lemma_find_route(adj, residual, source, goal);
                lemma_drained(residual, source, route);
            }
            bottleneck(residual, route) as nat + flow_from(
                adj,
                drained(residual, route, bottleneck(residual, route)),
                source,
                goal,
            )
        },
    }
}

/// What the search from the source finds is a route of at least two cells
/// that ends in the goal row, unless the source lies in the goal row.
pub proof fn lemma_find_route(adj: Seq<Seq<usize>>, residual: Seq<u64>, source: usize, goal: int)
    requires
        residual.len() == CELLS,
        neighbors_ok(adj),
        source < CELLS,
        cell_at(source as int).y != goal,
    ensures
        find_route(adj, residual, source, goal) matches Some(route) ==> is_route(
            residual,
            source,
            route,
        ) && cell_at(route.last() as int).y == goal && route.len() >= 2,
{
    let queue = seq![seq![source]];
    assert(is_route(residual, source, queue[0]));
    lemma_search_finds_route(
        adj,
        residual,
        source,
        goal,
        queue,
        Seq::new(CELLS as nat, |i: int| false).update(source as int, true),
    );
}

/// The value of a player's position: the flow from the cell of its pawn to
/// its goal row, with capacities that fall with the distance from the pawn.
pub open spec fn flow_value(b: BoardView, player: int) -> nat {
    let adj = adjacency(b.wall_set());
    let source = cell_index(b.positions[player]) as usize;
    flow_from(adj, capacities(adj, source), source, goal_row(player))
}

// ---------------------------------------------------------------------------
// The search as it is run, with a table of predecessors.
// ---------------------------------------------------------------------------
/// No cell occurs twice on the route.
spec fn no_repeat(route: Seq<usize>) -> bool {
    forall|i: int, j: int| 0 <= i < j < route.len() ==> route[i] != route[j]
}

/// Every cell of the route after the first has the cell before it as its
/// predecessor.
spec fn follows(parent: Seq<usize>, route: Seq<usize>) -> bool {
    forall|i: int| 1 <= i < route.len() ==> parent[#[trigger] route[i] as int] == route[i - 1]
}

/// `route` is the route on which the search reached the cell `q`.
spec fn route_to(
    residual: Seq<u64>,
    source: usize,
    visited: Seq<bool>,
    parent: Seq<usize>,
    route: Seq<usize>,
    q: int,
) -> bool {
    &&& is_route(residual, source, route)
    &&& route.last() == q
    &&& no_repeat(route)
    &&& follows(parent, route)
    &&& forall|i: int| 0 <= i < route.len() ==> visited[#[trigger] route[i] as int]
}

/// The routes on which the search reached the cells that it has visited.
spec fn tree_ok(
    residual: Seq<u64>,
    source: usize,
    visited: Seq<bool>,
    parent: Seq<usize>,
    routes: Seq<Seq<usize>>,
) -> bool {
    &&& visited.len() == CELLS
    &&& parent.len() == CELLS
    &&& routes.len() == CELLS
    &&& forall|q: int|
        0 <= q < CELLS && visited[q] ==> route_to(
            residual,
            source,
            visited,
            parent,
            #[trigger] routes[q],
            q,
        )
}

/// The routes of the cells in the queue.
spec fn queued_routes(queue: Seq<usize>, routes: Seq<Seq<usize>>) -> Seq<Seq<usize>> {
    Seq::new(queue.len(), |i: int| routes[queue[i] as int])
}

/// The cells in the queue have been visited.
spec fn queue_visited(queue: Seq<usize>, visited: Seq<bool>) -> bool {
    forall|i: int| 0 <= i < queue.len() ==> #[trigger] queue[i] < CELLS && visited[queue[i] as int]
}

proof fn lemma_queued_routes_in(
    residual: Seq<u64>,
    source: usize,
    visited: Seq<bool>,
    parent: Seq<usize>,
    routes: Seq<Seq<usize>>,
    queue: Seq<usize>,
)
    requires
        tree_ok(residual, source, visited, parent, routes),
        queue_visited(queue, visited),
    ensures
        routes_in(residual, source, queued_routes(queue, routes)),
{
    let qr = queued_routes(queue, routes);
    assert forall|i: int| 0 <= i < qr.len() implies is_route(residual, source, #[trigger] qr[i]) by {
        assert(queue[i] < CELLS && visited[queue[i] as int]);
        assert(route_to(residual, source, visited, parent, routes[queue[i] as int], queue[i] as int));
    }
}

/// Reaching a cell that was not visited before keeps the routes in order.
proof fn lemma_tree_grows(
    residual: Seq<u64>,
    source: usize,
    visited: Seq<bool>,
    parent: Seq<usize>,
    routes: Seq<Seq<usize>>,
    p: usize,
    q: usize,
)
    requires
        residual.len() == CELLS,
        tree_ok(residual, source, visited, parent, routes),
        p < CELLS,
        q < CELLS,
        visited[p as int],
        !visited[q as int],
        residual[q as int] > 0,
    ensures
        tree_ok(
            residual,
            source,
            visited.update(q as int, true),
            parent.update(q as int, p),
            routes.update(q as int, routes[p as int].push(q)),
        ),
{
    let visited2 = visited.update(q as int, true);
    let parent2 = parent.update(q as int, p);
    let route = routes[p as int];
    let longer = route.push(q);
    let routes2 = routes.update(q as int, longer);
    assert(route_to(residual, source, visited, parent, route, p as int));
    assert forall|c: int| 0 <= c < CELLS && visited2[c] implies route_to(
        residual,
        source,
        visited2,
        parent2,
        #[trigger] routes2[c],
        c,
    ) by {
        if c == q {
            assert forall|i: int| 0 <= i < longer.len() implies #[trigger] longer[i] < CELLS by {
                if i < route.len() {
                    assert(longer[i] == route[i]);
                }
            }
            assert forall|i: int| 1 <= i < longer.len() implies residual[#[trigger] longer[i] as int]
                > 0 by {
                if i < route.len() {
                    assert(longer[i] == route[i]);
                }
            }
            assert forall|i: int, j: int| 0 <= i < j < longer.len() implies longer[i] != longer[j] by {
                assert(longer[i] == route[i]);
                assert(visited[route[i] as int]);
                if j < route.len() {
                    assert(longer[j] == route[j]);
                }
            }
            assert forall|i: int| 1 <= i < longer.len() implies parent2[#[trigger] longer[i] as int]
                == longer[i - 1] by {
                assert(longer[i - 1] == route[i - 1]);
                assert(visited[route[i - 1] as int]);
                if i < route.len() {
                    assert(longer[i] == route[i]);
                    assert(visited[route[i] as int]);
                }
            }
            assert forall|i: int| 0 <= i < longer.len() implies visited2[#[trigger] longer[i] as int] by {
                if i < route.len() {
                    assert(longer[i] == route[i]);
                    assert(visited[route[i] as int]);
                }
            }
        } else {
            let r = routes[c];
            assert(route_to(residual, source, visited, parent, r, c));
            assert forall|i: int| 1 <= i < r.len() implies parent2[#[trigger] r[i] as int] == r[i
                - 1] by {
                assert(visited[r[i] as int]);
            }
            assert forall|i: int| 0 <= i < r.len() implies visited2[#[trigger] r[i] as int] by {
                assert(visited[r[i] as int]);
            }
        }
    }
}

/// Searches breadth first for a route from `source` to the row `goal_y`
/// through cells with capacity left, and records the predecessor of every
/// cell that it reaches. Gives the cell in which the route ends.
fn find_path(
    adj: &Vec<ArrayVec<usize, 4>>,
    residual: &Vec<u64>,
    source: usize,
    goal_y: i64,
    parent: &mut Vec<usize>,
) -> (r: (Option<usize>, Ghost<Seq<usize>>))
    requires
        neighbors_ok(lists_view(adj@)),
        residual@.len() == CELLS,
        old(parent)@.len() == CELLS,
        source < CELLS,
    ensures
        final(parent)@.len() == CELLS,
        match r.0 {
            None => find_route(lists_view(adj@), residual@, source, goal_y as int) is None,
            Some(end) => {
                &&& find_route(lists_view(adj@), residual@, source, goal_y as int) == Some(r.1@)
                &&& is_route(residual@, source, r.1@)
                &&& r.1@.last() == end
                &&& no_repeat(r.1@)
                &&& follows(final(parent)@, r.1@)
            },
        },
{
    let ghost lists = lists_view(adj@);
    let ghost goal = goal_y as int;
    let mut visited: Vec<bool> = Vec::new();
    let mut i: usize = 0;
    while i < CELLS
        invariant
            i <= CELLS,
            visited@ == Seq::new(i as nat, |j: int| false),
        decreases CELLS - i,
    {
        visited.push(false);
        assert(visited@ =~= Seq::new((i + 1) as nat, |j: int| false));
        i = i + 1;
    }
    let mut queue: VecDeque<usize> = VecDeque::new();
    queue.push_back(source);
    visited.set(source, true);
    let ghost mut routes: Seq<Seq<usize>> = Seq::new(CELLS as nat, |q: int| seq![source]);
    proof {
        assert(queue@ =~= seq![source]);
        assert(queued_routes(queue@, routes) =~= seq![seq![source]]);
        assert forall|q: int| 0 <= q < CELLS && visited@[q] implies route_to(
            residual@,
            source,
            visited@,
            parent@,
            #[trigger] routes[q],
            q,
        ) by {
            assert(q == source);
        }
    }
    loop
        invariant
            lists == lists_view(adj@),
            goal == goal_y as int,
            neighbors_ok(lists),
            adj@.len() == CELLS,
            residual@.len() == CELLS,
            source < CELLS,
            tree_ok(residual@, source, visited@, parent@, routes),
            queue_visited(queue@, visited@),
            search(lists, residual@, source, goal, queued_routes(queue@, routes), visited@)
                == find_route(lists, residual@, source, goal),
        decreases 2 * count_of(visited@, false) + queue@.len(),
    {
        let ghost queue_before = queue@;
        proof {
            lemma_queued_routes_in(residual@, source, visited@, parent@, routes, queue@);
        }
        match queue.pop_front() {
            None => {
                return (None, Ghost(Seq::empty()));
            },
            Some(p) => {
                let ghost route = routes[p as int];
                let ghost spec_queue = queued_routes(queue_before, routes);
                proof {
                    assert(queue@ =~= queue_before.drop_first());
                    assert(p == queue_before[0]);
                    assert(p < CELLS && visited@[p as int]);
                    assert(spec_queue[0] == route);
                    assert(route_to(residual@, source, visited@, parent@, route, p as int));
                    assert(queue_visited(queue@, visited@)) by {
                        assert forall|i: int| 0 <= i < queue@.len() implies #[trigger] queue@[i] < CELLS
                            && visited@[queue@[i] as int] by {
                            assert(queue@[i] == queue_before[i + 1]);
                        }
                    }
                    assert(spec_queue.drop_first() =~= queued_routes(queue@, routes));
                }
                if decode9(p).y == goal_y {
                    return (Some(p), Ghost(route));
                }
                let list = &adj[p];
                let n: usize = list_len(list);
                let ghost next = listed(*list);
                let ghost queue_popped = queue@;
                let ghost visited_before = visited@;
                let ghost routes_before = routes;
                proof {
                    assert(next == lists[p as int]);
                    assert(next.skip(0) =~= next);
                    lemma_queued_routes_in(residual@, source, visited@, parent@, routes, queue@);
                    lemma_extend(
                        residual@,
                        source,
                        queued_routes(queue_popped, routes_before),
                        visited_before,
                        next,
                        route,
                    );
                }
                let mut k: usize = 0;
                while k < n
                    invariant
                        k <= n,
                        n == next.len(),
                        next == listed(*list),
                        cells_in(next),
                        residual@.len() == CELLS,
                        source < CELLS,
                        p < CELLS,
                        visited@[p as int],
                        route == routes[p as int],
                        tree_ok(residual@, source, visited@, parent@, routes),
                        queue_visited(queue@, visited@),
                        2 * count_of(visited@, false) + queue@.len() <= 2 * count_of(
                            visited_before,
                            false,
                        ) + queue_popped.len(),
                        extend(
                            residual@,
                            queued_routes(queue@, routes),
                            visited@,
                            next.skip(k as int),
                            route,
                        ) == extend(
                            residual@,
                            queued_routes(queue_popped, routes_before),
                            visited_before,
                            next,
                            route,
                        ),
                    decreases n - k,
                {
                    let q: usize = list_get(list, k);
                    proof {
                        let rest = next.skip(k as int);
                        assert(rest[0] == q);
                        assert(rest.drop_first() =~= next.skip(k + 1));
                    }
                    if residual[q] > 0 && !visited[q] {
                        proof {
                            lemma_tree_grows(residual@, source, visited@, parent@, routes, p, q);
                            lemma_count_after_update(visited@, q as int, false, true);
                            let routes2 = routes.update(q as int, route.push(q));
                            assert(queued_routes(queue@.push(q), routes2) =~= queued_routes(
                                queue@,
                                routes,
                            ).push(route.push(q))) by {
                                assert forall|i: int| 0 <= i < queue@.len() implies routes2[queue@[i] as int]
                                    == routes[queue@[i] as int] by {
                                    assert(queue@[i] < CELLS && visited@[queue@[i] as int]);
                                }
                            }
                            assert(routes2[p as int] == route);
                            routes = routes2;
                        }
                        let ghost queue_mid = queue@;
                        let ghost visited_mid = visited@;
                        queue.push_back(q);
                        parent.set(q, p);
                        visited.set(q, true);
                        proof {
                            assert(queue_visited(queue@, visited@)) by {
                                assert forall|i: int| 0 <= i < queue@.len() implies #[trigger] queue@[i]
                                    < CELLS && visited@[queue@[i] as int] by {
                                    if i < queue_mid.len() {
                                        assert(queue@[i] == queue_mid[i]);
                                        assert(visited_mid[queue_mid[i] as int]);
                                    }
                                }
                            }
                        }
                    }
                    k = k + 1;
                }
                assert(next.skip(n as int) =~= Seq::<usize>::empty());
            },
        }
    }
}

proof fn lemma_bottleneck_step(residual: Seq<u64>, route: Seq<usize>, k: int)
    requires
        1 <= k < route.len(),
    ensures
        bottleneck(residual, route.take(k + 1)) == if residual[route[k] as int] < bottleneck(
            residual,
            route.take(k),
        ) {
            residual[route[k] as int]
        } else {
            bottleneck(residual, route.take(k))
        },
{
    assert(route.take(k + 1).drop_last() =~= route.take(k));
    assert(route.take(k + 1).last() == route[k]);
}

/// The flow from a player's pawn to its goal row.
///
/// Every cell that the pawn can walk to gets a capacity: 100 for the pawn's
/// cell and one less for every step of the breadth-first search away from
/// it. Then, as long as a breadth-first search finds a route to the goal row
/// over cells with capacity left, the least capacity on the route is added
/// to the flow and taken from the cells of the route.
pub fn player_flow(board: &Board, player: usize) -> (flow: u64)
    requires
        board@.well_formed(),
        player < 2,
        board@.positions[player as int].y != goal_row(player as int),
    ensures
        flow == flow_value(board@, player as int),
        flow <= 8100,
{
    let pos = board.positions[player];
    let source: usize = encode9(pos.x, pos.y);
    let goal_y: i64 = if player == 0 { 9 } else { 1 };
    let adj = build_adjacency(board);
    let ghost lists = lists_view(adj@);
    let ghost goal = goal_y as int;
    proof {
        assert(lists =~= adjacency(board@.wall_set()));
        assert forall|p: int| 0 <= p < CELLS implies cells_in(#[trigger] lists[p]) by {
            lemma_open_neighbors_are_cells(board@.wall_set(), cell_at(p), 4);
        }
        assert(cell_at(source as int) == pos);
    }
    let mut residual = assign_capacities(&adj, source);
    let ghost caps = residual@;
    proof {
        lemma_total_bound(caps, SOURCE_CAPACITY);
    }
    let mut parent: Vec<usize> = Vec::new();
    let mut i: usize = 0;
    while i < CELLS
        invariant
            i <= CELLS,
            parent@.len() == i,
        decreases CELLS - i,
    {
        parent.push(NO_CELL);
        i = i + 1;
    }
    let mut flow: u64 = 0;
    loop
        invariant
            lists == lists_view(adj@),
            neighbors_ok(lists),
            adj@.len() == CELLS,
            residual@.len() == CELLS,
            parent@.len() == CELLS,
            source < CELLS,
            goal == goal_y as int,
            goal == goal_row(player as int),
            source == cell_index(board@.positions[player as int]),
            lists == adjacency(board@.wall_set()),
            caps == capacities(lists, source),
            caps.len() == CELLS,
            cell_at(source as int).y != goal,
            flow + total(residual@) <= total(caps),
            total(caps) <= 8100,
            flow + flow_from(lists, residual@, source, goal) == flow_from(lists, caps, source, goal),
        decreases total(residual@),
    {
        let (found, Ghost(route)) = find_path(&adj, &residual, source, goal_y, &mut parent);
        let end: usize = match found {
            None => {
                return flow;
            },
            Some(end) => end,
        };
        let ghost before = residual@;
        proof {
            lemma_find_route(lists, before, source, goal);
            lemma_bottleneck(before, source, route);
            lemma_drained(before, source, route);
        }
        // the least capacity on the route
        let mut path_flow: u64 = SOURCE_CAPACITY;
        let mut n: usize = end;
        let ghost mut k: int = route.len() - 1;
        proof {
            assert(route.take(k + 1) =~= route);
        }
        while n != source
            invariant
                0 <= k < route.len(),
                n == route[k],
                n < CELLS,
                residual@ == before,
                residual@.len() == CELLS,
                parent@.len() == CELLS,
                is_route(before, source, route),
                no_repeat(route),
                follows(parent@, route),
                path_flow <= SOURCE_CAPACITY,
                (if path_flow < bottleneck(before, route.take(k + 1)) {
                    path_flow
                } else {
                    bottleneck(before, route.take(k + 1))
                }) == bottleneck(before, route),
            decreases k,
        {
            proof {
                if k == 0 {
                    assert(route[0] == source);
                }
                lemma_bottleneck_step(before, route, k);
                assert(parent@[route[k] as int] == route[k - 1]);
                assert(route[k - 1] < CELLS);
            }
            if residual[n] < path_flow {
                path_flow = residual[n];
            }
            n = parent[n];
            proof {
                k = k - 1;
            }
        }
        proof {
            if k > 0 {
                assert(route[k] != route[0]);
            }
            assert(route.take(1).len() == 1);
            assert(path_flow == bottleneck(before, route));
        }
        flow = flow + path_flow;
        // take it from the cells of the route
        let mut n: usize = end;
        let ghost mut k: int = route.len() - 1;
        while n != source
            invariant
                0 <= k < route.len(),
                n == route[k],
                n < CELLS,
                before.len() == CELLS,
                residual@.len() == CELLS,
                parent@.len() == CELLS,
                is_route(before, source, route),
                no_repeat(route),
                follows(parent@, route),
                path_flow == bottleneck(before, route),
                forall|j: int|
                    1 <= j < route.len() ==> bottleneck(before, route) <= before[#[trigger] route[j] as int],
                forall|c: int|
                    0 <= c < CELLS ==> #[trigger] residual@[c] == if passes(route, k + 1, c) {
                        (before[c] - path_flow) as u64
                    } else {
                        before[c]
                    },
            decreases k,
        {
            let ghost now = residual@;
            proof {
                if k == 0 {
                    assert(route[0] == source);
                }
                assert(parent@[route[k] as int] == route[k - 1]);
                assert(route[k - 1] < CELLS);
                assert(!passes(route, k + 1, n as int)) by {
                    if passes(route, k + 1, n as int) {
                        let j = choose|j: int| k + 1 <= j < route.len() && #[trigger] route[j] == n as int;
                        assert(route[k] != route[j]);
                    }
                }
                assert(now[n as int] == before[n as int]);
            }
            let left: u64 = residual[n] - path_flow;
            residual.set(n, left);
            proof {
                assert forall|c: int| 0 <= c < CELLS implies #[trigger] residual@[c] == if passes(
                    route,
                    k,
                    c,
                ) {
                    (before[c] - path_flow) as u64
                } else {
                    before[c]
                } by {
                    if c == n {
                        assert(passes(route, k, c));
                    } else {
                        assert(residual@[c] == now[c]);
                        if passes(route, k, c) {
                            let j = choose|j: int| k <= j < route.len() && #[trigger] route[j] == c;
                            assert(j != k);
                            assert(passes(route, k + 1, c));
                        }
                        if passes(route, k + 1, c) {
                            let j = choose|j: int| k + 1 <= j < route.len() && #[trigger] route[j] == c;
                            assert(passes(route, k, c));
                        }
                    }
                }
            }
            n = parent[n];
            proof {
                k = k - 1;
            }
        }
        proof {
            if k > 0 {
                assert(route[k] != route[0]);
            }
            assert(residual@ =~= drained(before, route, path_flow));
        }
    }
}

// ---------------------------------------------------------------------------
// Bounds.
// ---------------------------------------------------------------------------
/// No entry is above the capacity of the source.
pub open spec fn within_capacity(caps: Seq<u64>) -> bool {
    forall|i: int| 0 <= i < caps.len() ==> #[trigger] caps[i] <= SOURCE_CAPACITY
}

proof fn lemma_discover_within_capacity(
    caps: Seq<u64>,
    queue: Seq<usize>,
    next: Seq<usize>,
    cap: u64,
)
    requires
        caps.len() == CELLS,
        cells_in(next),
        within_capacity(caps),
        cap <= SOURCE_CAPACITY,
    ensures
        within_capacity(discover(caps, queue, next, cap).0),
    decreases next.len(),
{
    if next.len() > 0 {
        let rest = next.drop_first();
        assert(cells_in(rest)) by {
            assert forall|i: int| 0 <= i < rest.len() implies #[trigger] rest[i] < CELLS by {
                lemma_rest_of_queue(next, i);
            }
        }
        if caps[next[0] as int] == 0 {
            lemma_discover_within_capacity(
                caps.update(next[0] as int, decayed(cap)),
                queue.push(next[0]),
                rest,
                cap,
            );
        } else {
            lemma_discover_within_capacity(caps, queue, rest, cap);
        }
    }
}

proof fn lemma_spread_within_capacity(adj: Seq<Seq<usize>>, caps: Seq<u64>, queue: Seq<usize>)
    requires
        caps.len() == CELLS,
        neighbors_ok(adj),
        cells_in(queue),
        within_capacity(caps),
    ensures
        spread(adj, caps, queue).len() == CELLS,
        within_capacity(spread(adj, caps, queue)),
    decreases 2 * count_of(caps, 0u64) + queue.len(),
{
    if queue.len() > 0 {
        let p = queue[0] as int;
        let rest = queue.drop_first();
        assert(cells_in(rest)) by {
            assert forall|i: int| 0 <= i < rest.len() implies #[trigger] rest[i] < CELLS by {
                lemma_rest_of_queue(queue, i);
            }
        }
        lemma_discover(caps, rest, adj[p], caps[p]);
        lemma_discover_within_capacity(caps, rest, adj[p], caps[p]);
        let d = discover(caps, rest, adj[p], caps[p]);
        lemma_spread_within_capacity(adj, d.0, d.1);
    }
}

proof fn lemma_flow_within_total(adj: Seq<Seq<usize>>, residual: Seq<u64>, source: usize, goal: int)
    requires
        residual.len() == CELLS,
        neighbors_ok(adj),
        source < CELLS,
        cell_at(source as int).y != goal,
    ensures
        flow_from(adj, residual, source, goal) <= total(residual),
    decreases total(residual),
{
    match find_route(adj, residual, source, goal) {
        None => {},
        Some(route) => {
            lemma_find_route(adj, residual, source, goal);
            lemma_drained(residual, source, route);
            lemma_flow_within_total(
                adj,
                drained(residual, route, bottleneck(residual, route)),
                source,
                goal,
            );
        },
    }
}

/// The neighbour lists of a board are lists of cells.
pub proof fn lemma_adjacency_ok(ws: Set<Wall>)
    ensures
        neighbors_ok(adjacency(ws)),
{
    assert forall|p: int| 0 <= p < CELLS implies cells_in(#[trigger] adjacency(ws)[p]) by {
        lemma_open_neighbors_are_cells(ws, cell_at(p), 4);
    }
}

/// The flow of a player whose pawn has not reached its goal row is at most
/// 8100, the capacity of the source on each of the 81 cells.
pub proof fn lemma_flow_bound(b: BoardView, player: int)
    requires
        b.well_formed(),
        0 <= player < 2,
        b.positions[player].y != goal_row(player),
    ensures
        flow_value(b, player) <= 8100,
{
    let adj = adjacency(b.wall_set());
    let source = cell_index(b.positions[player]) as usize;
    lemma_adjacency_ok(b.wall_set());
    let start = Seq::new(CELLS as nat, |i: int| 0u64).update(source as int, SOURCE_CAPACITY);
    assert(cell_at(source as int) == b.positions[player]);
    lemma_spread_within_capacity(adj, start, seq![source]);
    lemma_total_bound(capacities(adj, source), SOURCE_CAPACITY);
    lemma_flow_within_total(adj, capacities(adj, source), source, goal_row(player));
}

} // verus!
