//! What the capacities say: the capacity of a cell is 100 less the number of
//! steps of the shortest walk from the pawn to the cell, and 0 where no walk
//! leads.

use crate::connectivity::{connected, is_walk, passable, walk_step};
use crate::flow::{
    adjacency, capacities, cell_at, cells_in, count_of, decayed, discover, lemma_adjacency_ok,
    lemma_count_after_update, lemma_discover, lemma_rest_of_queue, neighbors_ok,
    open_neighbors_upto, spread, CELLS, SOURCE_CAPACITY,
};
use crate::geometry::{adjacent, cell_index, neighbor, on_board, Position, Wall};
use vstd::prelude::*;

verus! {

// ---------------------------------------------------------------------------
// Trails: walks in the lists of neighbours.
// ---------------------------------------------------------------------------
/// The list of the cell `p` names the cell `q`.
pub open spec fn linked(adj: Seq<Seq<usize>>, p: int, q: int) -> bool {
    0 <= p < CELLS && 0 <= q < CELLS && adj[p].contains(q as usize)
}

/// The `i`-th cell of the trail is linked to the next.
pub open spec fn trail_step(adj: Seq<Seq<usize>>, t: Seq<int>, i: int) -> bool {
    linked(adj, t[i], t[i + 1])
}

/// `t` is a trail: a cell, and from each cell on to a cell that its list
/// names.
pub open spec fn is_trail(adj: Seq<Seq<usize>>, t: Seq<int>) -> bool {
    &&& t.len() > 0
    &&& 0 <= t[0] < CELLS
    &&& forall|i: int| 0 <= i < t.len() - 1 ==> #[trigger] trail_step(adj, t, i)
}

/// A trail of `n` steps leads from `a` to `b`.
pub open spec fn leads(adj: Seq<Seq<usize>>, a: int, b: int, n: int) -> bool {
    exists|t: Seq<int>| #[trigger] is_trail(adj, t) && t.len() == n + 1 && t[0] == a && t.last() == b
}

/// The number of steps that a capacity stands for.
pub open spec fn steps(caps: Seq<u64>, c: int) -> int {
    SOURCE_CAPACITY - caps[c]
}

/// The search has reached the cell.
pub open spec fn reached(caps: Seq<u64>, c: int) -> bool {
    0 <= c < CELLS && caps[c] != 0
}

/// The first `k` cells that the list of `p` names are reached, none of them
/// more than one step farther than `p`.
spec fn settled_upto(adj: Seq<Seq<usize>>, caps: Seq<u64>, p: int, k: int) -> bool {
    forall|i: int|
        0 <= i < k ==> reached(caps, #[trigger] adj[p][i] as int) && steps(caps, adj[p][i] as int)
            <= steps(caps, p) + 1
}

/// All the cells that the list of `p` names are reached, none of them more
/// than one step farther than `p`.
spec fn settled(adj: Seq<Seq<usize>>, caps: Seq<u64>, p: int) -> bool {
    settled_upto(adj, caps, p, adj[p].len() as int)
}

/// What holds of every reached cell while the cell `p` is at work, with the
/// first `k` of its neighbours done: the capacity tells the steps of a trail
/// that leads to it, the cell waits in the queue or is settled, and it is at
/// most one step farther than `p`.
spec fn cell_ok(
    adj: Seq<Seq<usize>>,
    source: int,
    caps: Seq<u64>,
    queue: Seq<usize>,
    p: int,
    k: int,
    c: int,
) -> bool {
    &&& caps[c] <= SOURCE_CAPACITY
    &&& steps(caps, c) + 1 <= CELLS - count_of(caps, 0u64)
    &&& leads(adj, source, c, steps(caps, c))
    &&& steps(caps, c) <= steps(caps, p) + 1
    &&& if c == p {
        settled_upto(adj, caps, p, k)
    } else {
        queue.contains(c as usize) || settled(adj, caps, c)
    }
}

/// The state of the search while the cell `p` is at work, with the first
/// `k` of its neighbours done.
spec fn at_work(
    adj: Seq<Seq<usize>>,
    source: int,
    caps: Seq<u64>,
    queue: Seq<usize>,
    p: int,
    k: int,
) -> bool {
    &&& caps.len() == CELLS
    &&& neighbors_ok(adj)
    &&& cells_in(queue)
    &&& reached(caps, p)
    &&& 0 <= k <= adj[p].len()
    &&& forall|c: int| #[trigger] reached(caps, c) ==> cell_ok(adj, source, caps, queue, p, k, c)
    &&& forall|i: int|
        0 <= i < queue.len() ==> reached(caps, #[trigger] queue[i] as int) && steps(caps, p)
            <= steps(caps, queue[i] as int)
    &&& forall|i: int, j: int|
        0 <= i <= j < queue.len() ==> steps(caps, #[trigger] queue[i] as int) <= steps(
            caps,
            #[trigger] queue[j] as int,
        )
}

/// The state of the search between two cells: every reached cell waits in
/// the queue or is settled, the queue is in the order of the steps, and no
/// reached cell is more than one step farther than the head of the queue.
spec fn between_cells(adj: Seq<Seq<usize>>, source: int, caps: Seq<u64>, queue: Seq<usize>) -> bool {
    &&& caps.len() == CELLS
    &&& neighbors_ok(adj)
    &&& cells_in(queue)
    &&& forall|c: int| #[trigger]
        reached(caps, c) ==> {
            &&& caps[c] <= SOURCE_CAPACITY
            &&& steps(caps, c) + 1 <= CELLS - count_of(caps, 0u64)
            &&& leads(adj, source, c, steps(caps, c))
            &&& queue.len() > 0 ==> steps(caps, c) <= steps(caps, queue[0] as int) + 1
            &&& queue.contains(c as usize) || settled(adj, caps, c)
        }
    &&& forall|i: int| 0 <= i < queue.len() ==> reached(caps, #[trigger] queue[i] as int)
    &&& forall|i: int, j: int|
        0 <= i <= j < queue.len() ==> steps(caps, #[trigger] queue[i] as int) <= steps(
            caps,
            #[trigger] queue[j] as int,
        )
}

proof fn lemma_count_positive<T>(s: Seq<T>, i: int, v: T)
    requires
        0 <= i < s.len(),
        s[i] == v,
    ensures
        count_of(s, v) >= 1,
    decreases s.len(),
{
    if i < s.len() - 1 {
        lemma_count_positive(s.drop_last(), i, v);
    }
}

/// A trail goes on by one step.
proof fn lemma_trail_grows(adj: Seq<Seq<usize>>, a: int, p: int, q: int, n: int)
    requires
        leads(adj, a, p, n),
        linked(adj, p, q),
    ensures
        leads(adj, a, q, n + 1),
{
    let t = choose|t: Seq<int>| #[trigger] is_trail(adj, t) && t.len() == n + 1 && t[0] == a
        && t.last() == p;
    let longer = t.push(q);
    assert forall|i: int| 0 <= i < longer.len() - 1 implies #[trigger] trail_step(
        adj,
        longer,
        i,
    ) by {
        if i < t.len() - 1 {
            assert(trail_step(adj, t, i));
            assert(longer[i] == t[i] && longer[i + 1] == t[i + 1]);
        } else {
            assert(longer[i] == p && longer[i + 1] == q);
        }
    }
    assert(is_trail(adj, longer));
    assert(longer[0] == a && longer.last() == q);
}

/// Taking up the rest of the neighbours of the cell at work settles it.
proof fn lemma_discover_settles(
    adj: Seq<Seq<usize>>,
    source: int,
    caps: Seq<u64>,
    queue: Seq<usize>,
    p: int,
    k: int,
)
    requires
        at_work(adj, source, caps, queue, p, k),
    ensures
        at_work(
            adj,
            source,
            discover(caps, queue, adj[p].skip(k), caps[p]).0,
            discover(caps, queue, adj[p].skip(k), caps[p]).1,
            p,
            adj[p].len() as int,
        ),
        discover(caps, queue, adj[p].skip(k), caps[p]).0[p] == caps[p],
    decreases adj[p].len() - k,
{
    let next = adj[p].skip(k);
    if next.len() > 0 {
        let q = next[0];
        assert(q == adj[p][k]);
        assert(cells_in(adj[p]));
        assert(q < CELLS);
        assert(next.drop_first() =~= adj[p].skip(k + 1));
        assert(cell_ok(adj, source, caps, queue, p, k, p));
        assert(adj[p].contains(q));
        assert(linked(adj, p, q as int));
        if caps[q as int] == 0 {
            let caps2 = caps.update(q as int, decayed(caps[p]));
            let queue2 = queue.push(q);
            lemma_count_after_update(caps, q as int, 0u64, decayed(caps[p]));
            lemma_count_positive(caps, q as int, 0u64);
            assert(caps[p] > 1);
            assert(steps(caps2, q as int) == steps(caps, p) + 1);
            lemma_trail_grows(adj, source, p, q as int, steps(caps, p));
            assert forall|c: int| #[trigger] reached(caps2, c) implies cell_ok(
                adj,
                source,
                caps2,
                queue2,
                p,
                k + 1,
                c,
            ) by {
                if c == q {
                    assert(queue2[queue.len() as int] == q);
                } else {
                    assert(reached(caps, c));
                    assert(cell_ok(adj, source, caps, queue, p, k, c));
                    assert(steps(caps2, c) == steps(caps, c));
                    if c == p {
                        assert forall|i: int| 0 <= i < k + 1 implies reached(
                            caps2,
                            #[trigger] adj[p][i] as int,
                        ) && steps(caps2, adj[p][i] as int) <= steps(caps2, p) + 1 by {
                            if i < k {
                                assert(reached(caps, adj[p][i] as int));
                            }
                        }
                    } else if queue.contains(c as usize) {
                        let i = choose|i: int| 0 <= i < queue.len() && queue[i] == c as usize;
                        assert(queue2[i] == c as usize);
                    } else {
                        assert forall|i: int| 0 <= i < adj[c].len() implies reached(
                            caps2,
                            #[trigger] adj[c][i] as int,
                        ) && steps(caps2, adj[c][i] as int) <= steps(caps2, c) + 1 by {
                            assert(reached(caps, adj[c][i] as int));
                        }
                    }
                }
            }
            assert forall|i: int| 0 <= i < queue2.len() implies reached(
                caps2,
                #[trigger] queue2[i] as int,
            ) && steps(caps2, p) <= steps(caps2, queue2[i] as int) by {
                if i < queue.len() {
                    assert(queue2[i] == queue[i]);
                    assert(reached(caps, queue[i] as int));
                }
            }
            assert forall|i: int, j: int| 0 <= i <= j < queue2.len() implies steps(
                caps2,
                #[trigger] queue2[i] as int,
            ) <= steps(caps2, #[trigger] queue2[j] as int) by {
                if j < queue.len() {
                    assert(queue2[i] == queue[i] && queue2[j] == queue[j]);
                    assert(reached(caps, queue[i] as int) && reached(caps, queue[j] as int));
                } else if i < queue.len() {
                    assert(queue2[i] == queue[i]);
                    assert(reached(caps, queue[i] as int));
                    assert(cell_ok(adj, source, caps, queue, p, k, queue[i] as int));
                }
            }
            assert(cells_in(queue2)) by {
                assert forall|i: int| 0 <= i < queue2.len() implies #[trigger] queue2[i] < CELLS by {
                    if i < queue.len() {
                        assert(queue2[i] == queue[i]);
                    }
                }
            }
            lemma_discover_settles(adj, source, caps2, queue2, p, k + 1);
        } else {
            assert(reached(caps, q as int));
            assert(cell_ok(adj, source, caps, queue, p, k, q as int));
            assert forall|c: int| #[trigger] reached(caps, c) implies cell_ok(
                adj,
                source,
                caps,
                queue,
                p,
                k + 1,
                c,
            ) by {
                assert(cell_ok(adj, source, caps, queue, p, k, c));
            }
            lemma_discover_settles(adj, source, caps, queue, p, k + 1);
        }
    } else {
        assert(k == adj[p].len());
    }
}

/// When the search ends, every reached cell is settled, and the capacity of
/// each tells the steps of a trail that leads to it.
proof fn lemma_spread_settles(adj: Seq<Seq<usize>>, source: int, caps: Seq<u64>, queue: Seq<usize>)
    requires
        between_cells(adj, source, caps, queue),
    ensures
        between_cells(adj, source, spread(adj, caps, queue), Seq::empty()),
        forall|c: int| #[trigger] reached(caps, c) ==> spread(adj, caps, queue)[c] == caps[c],
    decreases 2 * count_of(caps, 0u64) + queue.len(),
{
    if queue.len() > 0 {
        let p = queue[0] as int;
        let rest = queue.drop_first();
        assert(cells_in(rest)) by {
            assert forall|i: int| 0 <= i < rest.len() implies #[trigger] rest[i] < CELLS by {
                lemma_rest_of_queue(queue, i);
            }
        }
        assert(reached(caps, queue[0] as int));
        // the head goes to work
        assert(at_work(adj, source, caps, rest, p, 0)) by {
            assert forall|c: int| #[trigger] reached(caps, c) implies cell_ok(
                adj,
                source,
                caps,
                rest,
                p,
                0,
                c,
            ) by {
                if c != p && queue.contains(c as usize) {
                    let i = choose|i: int| 0 <= i < queue.len() && queue[i] == c as usize;
                    assert(rest[i - 1] == c as usize);
                }
            }
            assert forall|i: int| 0 <= i < rest.len() implies reached(
                caps,
                #[trigger] rest[i] as int,
            ) && steps(caps, p) <= steps(caps, rest[i] as int) by {
                assert(rest[i] == queue[i + 1]);
                assert(reached(caps, queue[i + 1] as int));
            }
            assert forall|i: int, j: int| 0 <= i <= j < rest.len() implies steps(
                caps,
                #[trigger] rest[i] as int,
            ) <= steps(caps, #[trigger] rest[j] as int) by {
                assert(rest[i] == queue[i + 1] && rest[j] == queue[j + 1]);
                assert(reached(caps, queue[i + 1] as int) && reached(caps, queue[j + 1] as int));
            }
        }
        assert(adj[p].skip(0) =~= adj[p]);
        lemma_discover_settles(adj, source, caps, rest, p, 0);
        lemma_discover(caps, rest, adj[p], caps[p]);
        let d = discover(caps, rest, adj[p], caps[p]);
        lemma_discover_keeps(caps, rest, adj[p], caps[p]);
        // the head is done
        assert(between_cells(adj, source, d.0, d.1)) by {
            assert forall|c: int| #[trigger] reached(d.0, c) implies ({
                &&& d.0[c] <= SOURCE_CAPACITY
                &&& steps(d.0, c) + 1 <= CELLS - count_of(d.0, 0u64)
                &&& leads(adj, source, c, steps(d.0, c))
                &&& d.1.len() > 0 ==> steps(d.0, c) <= steps(d.0, d.1[0] as int) + 1
                &&& d.1.contains(c as usize) || settled(adj, d.0, c)
            }) by {
                assert(cell_ok(adj, source, d.0, d.1, p, adj[p].len() as int, c));
                if d.1.len() > 0 {
                    assert(reached(d.0, d.1[0] as int));
                }
            }
        }
        lemma_spread_settles(adj, source, d.0, d.1);
        assert(spread(adj, caps, queue) == spread(adj, d.0, d.1));
        assert forall|c: int| #[trigger] reached(caps, c) implies spread(adj, caps, queue)[c]
            == caps[c] by {
            assert(d.0[c] == caps[c]);
            assert(reached(d.0, c));
        }
    }
}

/// Taking up cells leaves the capacities of the reached cells as they are.
proof fn lemma_discover_keeps(caps: Seq<u64>, queue: Seq<usize>, next: Seq<usize>, cap: u64)
    requires
        caps.len() == CELLS,
        cells_in(next),
    ensures
        forall|c: int| #[trigger]
            reached(caps, c) ==> discover(caps, queue, next, cap).0[c] == caps[c],
    decreases next.len(),
{
    if next.len() > 0 {
        let rest = next.drop_first();
        assert(cells_in(rest)) by {
            assert forall|i: int| 0 <= i < rest.len() implies #[trigger] rest[i] < CELLS by {
                lemma_rest_of_queue(next, i);
            }
        }
        assert(next[0] < CELLS);
        if caps[next[0] as int] == 0 {
            let caps2 = caps.update(next[0] as int, decayed(cap));
            let queue2 = queue.push(next[0]);
            lemma_discover_keeps(caps2, queue2, rest, cap);
            assert(discover(caps, queue, next, cap) == discover(caps2, queue2, rest, cap));
            assert forall|c: int| #[trigger] reached(caps, c) implies discover(
                caps,
                queue,
                next,
                cap,
            ).0[c] == caps[c] by {
                assert(c != next[0]);
                assert(caps2[c] == caps[c]);
                assert(reached(caps2, c));
            }
        } else {
            lemma_discover_keeps(caps, queue, rest, cap);
            assert(discover(caps, queue, next, cap) == discover(caps, queue, rest, cap));
        }
    }
}

proof fn lemma_count_of_zeros(n: nat)
    ensures
        count_of(Seq::new(n, |i: int| 0u64), 0u64) == n,
    decreases n,
{
    if n > 0 {
        lemma_count_of_zeros((n - 1) as nat);
        assert(Seq::new(n, |i: int| 0u64).drop_last() =~= Seq::new((n - 1) as nat, |i: int| 0u64));
    }
}

/// Where every reached cell is settled, every cell of a trail from the
/// source is reached, and in no more steps than the trail takes to it.
proof fn lemma_trail_is_no_shorter(
    adj: Seq<Seq<usize>>,
    source: int,
    caps: Seq<u64>,
    t: Seq<int>,
    i: int,
)
    requires
        between_cells(adj, source, caps, Seq::empty()),
        reached(caps, source),
        caps[source] == SOURCE_CAPACITY,
        is_trail(adj, t),
        t[0] == source,
        0 <= i < t.len(),
    ensures
        reached(caps, t[i]),
        steps(caps, t[i]) <= i,
    decreases i,
{
    if i > 0 {
        lemma_trail_is_no_shorter(adj, source, caps, t, i - 1);
        let p = t[i - 1];
        assert(trail_step(adj, t, i - 1));
        assert(reached(caps, p));
        assert(settled(adj, caps, p));
        let k = choose|k: int| 0 <= k < adj[p].len() && adj[p][k] == t[i] as usize;
        assert(reached(caps, adj[p][k] as int));
    }
}

/// The capacity of a cell tells the steps of the shortest trail from the
/// source to it: a trail of so many steps leads there, no trail of fewer
/// steps does, and a cell to which no trail leads has no capacity.
pub proof fn lemma_capacities_are_steps(adj: Seq<Seq<usize>>, source: usize, v: int, n: int)
    requires
        neighbors_ok(adj),
        source < CELLS,
        0 <= v < CELLS,
    ensures
        capacities(adj, source).len() == CELLS,
        capacities(adj, source)[v] != 0 ==> 20 <= capacities(adj, source)[v] <= SOURCE_CAPACITY
            && leads(adj, source as int, v, SOURCE_CAPACITY - capacities(adj, source)[v]),
        leads(adj, source as int, v, n) ==> capacities(adj, source)[v] != 0 && SOURCE_CAPACITY
            - capacities(adj, source)[v] <= n,
{
    let zeros = Seq::new(CELLS as nat, |i: int| 0u64);
    let start = zeros.update(source as int, SOURCE_CAPACITY);
    let queue = seq![source];
    let s = source as int;
    lemma_count_of_zeros(CELLS as nat);
    lemma_count_after_update(zeros, s, 0u64, SOURCE_CAPACITY);
    assert(between_cells(adj, s, start, queue)) by {
        assert forall|c: int| #[trigger] reached(start, c) implies ({
            &&& start[c] <= SOURCE_CAPACITY
            &&& steps(start, c) + 1 <= CELLS - count_of(start, 0u64)
            &&& leads(adj, s, c, steps(start, c))
            &&& queue.len() > 0 ==> steps(start, c) <= steps(start, queue[0] as int) + 1
            &&& queue.contains(c as usize) || settled(adj, start, c)
        }) by {
            assert(c == s);
            let t = seq![s];
            assert(is_trail(adj, t));
            assert(t.len() == 1 && t[0] == s && t.last() == s);
            assert(queue[0] == source);
        }
    }
    lemma_spread_settles(adj, s, start, queue);
    let caps = capacities(adj, source);
    assert(reached(start, s));
    assert(caps[s] == SOURCE_CAPACITY);
    if caps[v] != 0 {
        assert(reached(caps, v));
    }
    if leads(adj, s, v, n) {
        let t = choose|t: Seq<int>| #[trigger] is_trail(adj, t) && t.len() == n + 1 && t[0] == s
            && t.last() == v;
        lemma_trail_is_no_shorter(adj, s, caps, t, n);
    }
}

// ---------------------------------------------------------------------------
// Trails on the board are walks.
// ---------------------------------------------------------------------------
/// A walk of `n` steps leads from `a` to `b`.
pub open spec fn walk_of(ws: Set<Wall>, a: Position, b: Position, n: int) -> bool {
    exists|path: Seq<Position>| #[trigger]
        is_walk(ws, path) && path.len() == n + 1 && path[0] == a && path.last() == b
}

proof fn lemma_open_neighbors_hold(ws: Set<Wall>, c: Position, n: int, q: usize)
    requires
        on_board(c),
        0 <= n <= 4,
    ensures
        open_neighbors_upto(ws, c, n).contains(q) <==> exists|d: int|
            0 <= d < n && passable(ws, c, #[trigger] neighbor(c, d)) && cell_index(neighbor(c, d))
                == q,
    decreases n,
{
    if n > 0 {
        lemma_open_neighbors_hold(ws, c, n - 1, q);
        let shorter = open_neighbors_upto(ws, c, n - 1);
        let x = neighbor(c, n - 1);
        if passable(ws, c, x) {
            let all = shorter.push(cell_index(x) as usize);
            if all.contains(q) {
                let k = choose|k: int| 0 <= k < all.len() && all[k] == q;
                if k < shorter.len() {
                    assert(shorter[k] == q);
                    assert(shorter.contains(q));
                }
            }
            if shorter.contains(q) {
                let k = choose|k: int| 0 <= k < shorter.len() && shorter[k] == q;
                assert(all[k] == q);
            }
            if cell_index(x) == q {
                assert(all[shorter.len() as int] == q);
            }
        }
    } else {
        assert(!open_neighbors_upto(ws, c, n).contains(q));
    }
}

/// The list of a cell names the cells to which a pawn on it can step.
proof fn lemma_linked_is_passable(ws: Set<Wall>, a: Position, b: Position)
    requires
        on_board(a),
        on_board(b),
    ensures
        linked(adjacency(ws), cell_index(a), cell_index(b)) <==> passable(ws, a, b),
{
    assert(cell_at(cell_index(a)) == a);
    lemma_open_neighbors_hold(ws, a, 4, cell_index(b) as usize);
    if passable(ws, a, b) {
        assert(adjacent(a, b));
        let d: int = if b.x == a.x + 1 {
            0
        } else if b.x == a.x - 1 {
            1
        } else if b.y == a.y + 1 {
            2
        } else {
            3
        };
        assert(neighbor(a, d) == b);
    }
    if linked(adjacency(ws), cell_index(a), cell_index(b)) {
        let d = choose|d: int|
            0 <= d < 4 && passable(ws, a, #[trigger] neighbor(a, d)) && cell_index(neighbor(a, d))
                == cell_index(b);
        crate::geometry::lemma_cell_index_injective(neighbor(a, d), b);
    }
}

proof fn lemma_walk_cells_on_board(ws: Set<Wall>, path: Seq<Position>, i: int)
    requires
        is_walk(ws, path),
        0 <= i < path.len(),
    ensures
        on_board(path[i]),
{
    if i > 0 {
        assert(walk_step(ws, path, i - 1));
    }
}

proof fn lemma_trail_cells(adj: Seq<Seq<usize>>, t: Seq<int>, i: int)
    requires
        is_trail(adj, t),
        0 <= i < t.len(),
    ensures
        0 <= t[i] < CELLS,
{
    if i > 0 {
        assert(trail_step(adj, t, i - 1));
    }
}

/// The trails in the lists of a board are the walks on the board.
proof fn lemma_trails_are_walks(ws: Set<Wall>, a: Position, b: Position, n: int)
    requires
        on_board(a),
        on_board(b),
    ensures
        leads(adjacency(ws), cell_index(a), cell_index(b), n) <==> walk_of(ws, a, b, n),
{
    let adj = adjacency(ws);
    if leads(adj, cell_index(a), cell_index(b), n) {
        let t = choose|t: Seq<int>| #[trigger] is_trail(adj, t) && t.len() == n + 1 && t[0]
            == cell_index(a) && t.last() == cell_index(b);
        let path = Seq::new(t.len(), |i: int| cell_at(t[i]));
        assert forall|i: int| 0 <= i < path.len() - 1 implies #[trigger] walk_step(
            ws,
            path,
            i,
        ) by {
            assert(trail_step(adj, t, i));
            lemma_trail_cells(adj, t, i);
            lemma_trail_cells(adj, t, i + 1);
            lemma_linked_is_passable(ws, cell_at(t[i]), cell_at(t[i + 1]));
        }
        assert(path[0] == a);
        assert(path.last() == b);
        assert(is_walk(ws, path));
    }
    if walk_of(ws, a, b, n) {
        let path = choose|path: Seq<Position>| #[trigger]
            is_walk(ws, path) && path.len() == n + 1 && path[0] == a && path.last() == b;
        let t = Seq::new(path.len(), |i: int| cell_index(path[i]));
        assert forall|i: int| 0 <= i < t.len() - 1 implies #[trigger] trail_step(adj, t, i) by {
            assert(walk_step(ws, path, i));
            lemma_walk_cells_on_board(ws, path, i);
            lemma_walk_cells_on_board(ws, path, i + 1);
            lemma_linked_is_passable(ws, path[i], path[i + 1]);
        }
        assert(is_trail(adj, t));
        assert(t.len() == n + 1 && t[0] == cell_index(a) && t.last() == cell_index(b));
    }
}

/// The capacity of a cell for a pawn on `from` is 100 less the steps of the
/// shortest walk from `from` to the cell, and 0 where no walk leads: a walk
/// of so many steps leads to the cell, and no walk of fewer steps does.
pub proof fn lemma_capacity_is_distance(ws: Set<Wall>, from: Position, to: Position, n: int)
    requires
        on_board(from),
        on_board(to),
    ensures
        ({
            let cap = capacities(adjacency(ws), cell_index(from) as usize)[cell_index(to)];
            &&& cap == 0 <==> !connected(ws, from, to)
            &&& cap != 0 ==> 20 <= cap <= SOURCE_CAPACITY && walk_of(
                ws,
                from,
                to,
                SOURCE_CAPACITY - cap,
            )
            &&& walk_of(ws, from, to, n) ==> cap != 0 && SOURCE_CAPACITY - cap <= n
        }),
{
    let adj = adjacency(ws);
    let source = cell_index(from) as usize;
    let v = cell_index(to);
    let cap = capacities(adj, source)[v];
    lemma_adjacency_ok(ws);
    lemma_capacities_are_steps(adj, source, v, n);
    lemma_trails_are_walks(ws, from, to, n);
    if cap != 0 {
        lemma_trails_are_walks(ws, from, to, SOURCE_CAPACITY - cap);
        let path = choose|path: Seq<Position>| #[trigger]
            is_walk(ws, path) && path.len() == SOURCE_CAPACITY - cap + 1 && path[0] == from
                && path.last() == to;
        assert(connected(ws, from, to));
    }
    if connected(ws, from, to) {
        let path = choose|path: Seq<Position>| #[trigger]
            is_walk(ws, path) && path[0] == from && path.last() == to;
        let m = path.len() - 1;
        assert(walk_of(ws, from, to, m));
        lemma_capacities_are_steps(adj, source, v, m);
        lemma_trails_are_walks(ws, from, to, m);
    }
}

} // verus!
