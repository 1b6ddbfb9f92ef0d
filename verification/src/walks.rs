//! Walks in a directed graph, and what a breadth-first search has to do with
//! them: it meets exactly the nodes that a walk leads to, and comes to each
//! on a shortest walk.

use crate::digraph::{
    all_below, bfs_order, explored, finder, frontier_end, lemma_distinct_below, lemma_explored_distinct,
    lemma_explored_grows, lemma_explored_settles, lemma_with_new, place_of, route, shortest_path,
    well_formed, with_new, within,
};
use vstd::prelude::*;

verus! {

/// A walk: one node or more, each linked to the next.
pub open spec fn is_walk(g: Seq<Seq<usize>>, w: Seq<usize>) -> bool {
    &&& w.len() >= 1
    &&& all_below(w, g.len())
    &&& forall|i: int| 0 <= i < w.len() - 1 ==> g[(#[trigger] w[i]) as int].contains(w[i + 1])
}

/// A walk from `a` to `b`.
pub open spec fn joins(g: Seq<Seq<usize>>, w: Seq<usize>, a: usize, b: usize) -> bool {
    is_walk(g, w) && w[0] == a && w.last() == b
}

/// Whether some walk leads from `a` to `b`.
pub open spec fn reachable(g: Seq<Seq<usize>>, a: usize, b: usize) -> bool {
    exists|w: Seq<usize>| joins(g, w, a, b)
}

/// The search from `start` ends with as many nodes as it has met, at most
/// as many as the graph has, and it has followed the links of all of them.
pub proof fn lemma_order_settled(g: Seq<Seq<usize>>, start: usize)
    requires
        well_formed(g),
        start < g.len(),
    ensures
        1 <= bfs_order(g, start).len() <= g.len(),
        bfs_order(g, start).no_duplicates(),
        all_below(bfs_order(g, start), g.len()),
        bfs_order(g, start)[0] == start,
        forall|p: nat|
            p >= bfs_order(g, start).len() ==> #[trigger] explored(g, start, p) == bfs_order(g, start),
{
    let n = g.len();
    let order = bfs_order(g, start);
    lemma_explored_distinct(g, start, n);
    lemma_distinct_below(order, n);
    lemma_explored_grows(g, start, n, n);
    let len = order.len();
    lemma_explored_grows(g, start, len, n);
    lemma_explored_settles(g, start, len, n);
    assert forall|p: nat| p >= len implies #[trigger] explored(g, start, p) == order by {
        lemma_explored_settles(g, start, len, p);
    }
}

/// While the search still meets nodes, it has met more nodes than it has
/// followed the links of, and the node whose links it follows next is the
/// one at that place of its order.
pub proof fn lemma_step_in_order(g: Seq<Seq<usize>>, start: usize, p: nat)
    requires
        well_formed(g),
        start < g.len(),
        p < bfs_order(g, start).len(),
    ensures
        p < explored(g, start, p).len(),
        explored(g, start, p)[p as int] == bfs_order(g, start)[p as int],
        explored(g, start, p + 1) == with_new(
            explored(g, start, p),
            g[bfs_order(g, start)[p as int] as int],
        ),
{
    let order = bfs_order(g, start);
    lemma_order_settled(g, start);
    let n = g.len();
    let ep = explored(g, start, p);
    if ep.len() <= p {
        lemma_explored_settles(g, start, p, n);
        assert(false);
    }
    lemma_explored_grows(g, start, p, n);
    assert(order.take(ep.len() as int)[p as int] == order[p as int]);
    lemma_explored_distinct(g, start, p);
}

/// The links of every node that the search meets lead to nodes that it
/// meets, no later than the step at which it follows them.
pub proof fn lemma_links_met(g: Seq<Seq<usize>>, start: usize, p: nat, t: usize)
    requires
        well_formed(g),
        start < g.len(),
        p < bfs_order(g, start).len(),
        g[bfs_order(g, start)[p as int] as int].contains(t),
    ensures
        explored(g, start, p + 1).contains(t),
        bfs_order(g, start).contains(t),
        place_of(bfs_order(g, start), t) < explored(g, start, p + 1).len(),
{
    let order = bfs_order(g, start);
    let n = g.len();
    lemma_order_settled(g, start);
    lemma_step_in_order(g, start, p);
    let targets = g[order[p as int] as int];
    lemma_with_new(explored(g, start, p), targets);
    let next = explored(g, start, p + 1);
    let k = choose|k: int| 0 <= k < targets.len() && targets[k] == t;
    assert(next.contains(targets[k]));
    let j = choose|j: int| 0 <= j < next.len() && next[j] == t;
    if p + 1 <= n {
        lemma_explored_grows(g, start, p + 1, n);
    } else {
        assert(explored(g, start, p + 1) == order);
        assert(order.take(order.len() as int) =~= order);
    }
    assert(order.take(next.len() as int)[j] == order[j]);
    assert(order[j] == t);
    assert(place_of(order, t) == j);
}

/// Where the node at `place` was met: at a step before `place`, after which
/// the search had met more than `place` nodes, and not before.
pub proof fn lemma_finder(g: Seq<Seq<usize>>, start: usize, place: nat, at: nat)
    requires
        well_formed(g),
        start < g.len(),
        explored(g, start, at).len() <= place < bfs_order(g, start).len(),
    ensures
        at <= finder(g, start, place, at) < place,
        explored(g, start, finder(g, start, place, at)).len() <= place,
        place < explored(g, start, finder(g, start, place, at) + 1).len(),
    decreases g.len() - at,
{
    lemma_order_settled(g, start);
    let n = g.len();
    if at >= n {
        assert(explored(g, start, at) == bfs_order(g, start));
        assert(false);
    } else if place < explored(g, start, at + 1).len() {
        if at >= bfs_order(g, start).len() {
            assert(explored(g, start, at) == bfs_order(g, start));
            assert(false);
        }
        lemma_step_in_order(g, start, at);
    } else {
        lemma_finder(g, start, place, at + 1);
    }
}

/// A node that was met later was met at no earlier step.
pub proof fn lemma_finder_ordered(g: Seq<Seq<usize>>, start: usize, i: nat, j: nat)
    requires
        well_formed(g),
        start < g.len(),
        1 <= i <= j < bfs_order(g, start).len(),
    ensures
        finder(g, start, i, 0) <= finder(g, start, j, 0),
{
    lemma_explored_grows(g, start, 0, 0);
    lemma_finder(g, start, i, 0);
    lemma_finder(g, start, j, 0);
    let fi = finder(g, start, i, 0);
    let fj = finder(g, start, j, 0);
    if fj < fi {
        lemma_explored_grows(g, start, fj + 1, fi);
    }
}

/// The way to the node at `place` is a walk from `start` to that node.
pub proof fn lemma_route_is_walk(g: Seq<Seq<usize>>, start: usize, place: nat)
    requires
        well_formed(g),
        start < g.len(),
        place < bfs_order(g, start).len(),
    ensures
        joins(g, route(g, start, place), start, bfs_order(g, start)[place as int]),
    decreases place,
{
    let order = bfs_order(g, start);
    lemma_order_settled(g, start);
    if place == 0 {
        let w = route(g, start, 0);
        assert(w =~= seq![start]);
    } else {
        lemma_explored_grows(g, start, 0, 0);
        lemma_finder(g, start, place, 0);
        let from = finder(g, start, place, 0);
        lemma_route_is_walk(g, start, from);
        let before = route(g, start, from);
        let w = route(g, start, place);
        assert(w == before.push(order[place as int]));
        lemma_step_in_order(g, start, from);
        let targets = g[order[from as int] as int];
        let ef = explored(g, start, from);
        let next = explored(g, start, from + 1);
        lemma_with_new(ef, targets);
        if from + 1 <= g.len() {
            lemma_explored_grows(g, start, from + 1, g.len());
        } else {
            assert(order.take(order.len() as int) =~= order);
        }
        assert(order.take(next.len() as int)[place as int] == order[place as int]);
        assert(targets.contains(next[place as int]));
        assert forall|i: int| 0 <= i < w.len() - 1 implies g[(#[trigger] w[i]) as int].contains(
            w[i + 1],
        ) by {
            if i < before.len() - 1 {
                assert(w[i] == before[i]);
                assert(w[i + 1] == before[i + 1]);
            } else {
                assert(w[i] == before.last());
            }
        }
        assert forall|i: int| 0 <= i < w.len() implies (#[trigger] w[i]) < g.len() by {
            if i < before.len() {
                assert(w[i] == before[i]);
            }
        }
    }
}

/// The way to a node that was met later is no shorter.
pub proof fn lemma_route_ordered(g: Seq<Seq<usize>>, start: usize, i: nat, j: nat)
    requires
        well_formed(g),
        start < g.len(),
        i <= j < bfs_order(g, start).len(),
    ensures
        route(g, start, i).len() <= route(g, start, j).len(),
    decreases j,
{
    lemma_order_settled(g, start);
    lemma_route_is_walk(g, start, j);
    if i == 0 {
    } else {
        lemma_explored_grows(g, start, 0, 0);
        lemma_finder(g, start, i, 0);
        lemma_finder(g, start, j, 0);
        lemma_finder_ordered(g, start, i, j);
        lemma_route_ordered(g, start, finder(g, start, i, 0), finder(g, start, j, 0));
    }
}

/// Every node that a walk of `start` leads to is met by the search, on a
/// way that is no longer than the walk.
pub proof fn lemma_walk_is_met(g: Seq<Seq<usize>>, start: usize, w: Seq<usize>)
    requires
        well_formed(g),
        start < g.len(),
        is_walk(g, w),
        w[0] == start,
    ensures
        bfs_order(g, start).contains(w.last()),
        route(g, start, place_of(bfs_order(g, start), w.last()) as nat).len() <= w.len(),
    decreases w.len(),
{
    let order = bfs_order(g, start);
    lemma_order_settled(g, start);
    if w.len() == 1 {
        assert(order[0] == start);
        assert(place_of(order, start) == 0);
    } else {
        let v = w.drop_last();
        assert forall|i: int| 0 <= i < v.len() - 1 implies g[(#[trigger] v[i]) as int].contains(
            v[i + 1],
        ) by {
            assert(v[i] == w[i] && v[i + 1] == w[i + 1]);
        }
        assert(all_below(v, g.len())) by {
            assert forall|i: int| 0 <= i < v.len() implies (#[trigger] v[i]) < g.len() by {
                assert(v[i] == w[i]);
            }
        }
        lemma_walk_is_met(g, start, v);
        let q = place_of(order, v.last()) as nat;
        assert(order[q as int] == v.last());
        assert(v.last() == w[w.len() - 2]);
        assert(g[w[w.len() - 2] as int].contains(w[w.len() - 2 + 1]));
        lemma_links_met(g, start, q, w.last());
        let j = place_of(order, w.last()) as nat;
        assert(order[j as int] == w.last());
        if j == 0 {
        } else {
            lemma_explored_grows(g, start, 0, 0);
            lemma_finder(g, start, j, 0);
            let f = finder(g, start, j, 0);
            if f > q {
                lemma_explored_grows(g, start, q + 1, f);
            }
            lemma_route_ordered(g, start, f, q);
        }
    }
}

/// A breadth-first search meets exactly the nodes that can be reached.
pub proof fn lemma_bfs_meets_reachable(g: Seq<Seq<usize>>, start: usize, x: usize)
    requires
        well_formed(g),
        start < g.len(),
    ensures
        bfs_order(g, start).contains(x) <==> reachable(g, start, x),
{
    let order = bfs_order(g, start);
    if order.contains(x) {
        let j = place_of(order, x);
        lemma_route_is_walk(g, start, j as nat);
        assert(joins(g, route(g, start, j as nat), start, x));
    }
    if reachable(g, start, x) {
        let w = choose|w: Seq<usize>| joins(g, w, start, x);
        lemma_walk_is_met(g, start, w);
    }
}

/// The shortest path between two nodes is a walk from the one to the other,
/// no walk between them is shorter, and there is none exactly where no walk
/// leads from the one to the other.
pub proof fn lemma_shortest_path(g: Seq<Seq<usize>>, from: usize, to: usize)
    requires
        well_formed(g),
        from < g.len(),
    ensures
        shortest_path(g, from, to) is Some <==> reachable(g, from, to),
        shortest_path(g, from, to) matches Some(p) ==> joins(g, p, from, to) && forall|w: Seq<usize>|
            joins(g, w, from, to) ==> p.len() <= w.len(),
{
    let order = bfs_order(g, from);
    lemma_bfs_meets_reachable(g, from, to);
    if order.contains(to) {
        let j = place_of(order, to);
        lemma_route_is_walk(g, from, j as nat);
        let p = route(g, from, j as nat);
        assert forall|w: Seq<usize>| joins(g, w, from, to) implies p.len() <= w.len() by {
            lemma_walk_is_met(g, from, w);
        }
    }
}

/// A depth bound larger by one lets the search follow no fewer links.
proof fn lemma_frontier_step(g: Seq<Seq<usize>>, start: usize, d: nat)
    ensures
        frontier_end(g, start, d) <= frontier_end(g, start, d + 1),
    decreases d,
{
    if d > 0 {
        lemma_frontier_step(g, start, (d - 1) as nat);
        lemma_explored_grows(
            g,
            start,
            frontier_end(g, start, (d - 1) as nat),
            frontier_end(g, start, d),
        );
    }
}

/// A larger depth bound lets the search follow no fewer links.
pub proof fn lemma_frontier_grows(g: Seq<Seq<usize>>, start: usize, a: nat, b: nat)
    requires
        a <= b,
    ensures
        frontier_end(g, start, a) <= frontier_end(g, start, b),
    decreases b,
{
    if a < b {
        lemma_frontier_grows(g, start, a, (b - 1) as nat);
        lemma_frontier_step(g, start, (b - 1) as nat);
    }
}

/// With depth bound nought a traversal meets the start alone. With a larger
/// bound it meets what it met with a smaller one, in the same order, and
/// then what lies further away; and never more than the search without a
/// bound, which meets no node twice.
pub proof fn lemma_within_grows(g: Seq<Seq<usize>>, start: usize, a: nat, b: nat)
    requires
        well_formed(g),
        start < g.len(),
        a <= b,
    ensures
        within(g, start, 0) == seq![start],
        within(g, start, a).len() <= within(g, start, b).len(),
        within(g, start, b).take(within(g, start, a).len() as int) == within(g, start, a),
        within(g, start, b).len() <= bfs_order(g, start).len() <= g.len(),
        bfs_order(g, start).take(within(g, start, b).len() as int) == within(g, start, b),
        within(g, start, b).no_duplicates(),
{
    lemma_frontier_grows(g, start, a, b);
    let fa = frontier_end(g, start, a);
    let fb = frontier_end(g, start, b);
    lemma_explored_grows(g, start, fa, fb);
    lemma_order_settled(g, start);
    let order = bfs_order(g, start);
    if fb <= g.len() {
        lemma_explored_grows(g, start, fb, g.len());
    } else {
        assert(explored(g, start, fb) == order);
        assert(order.take(order.len() as int) =~= order);
    }
    lemma_explored_distinct(g, start, fb);
}

/// A traversal with a depth bound meets a node exactly when the way on
/// which the search comes to it has no more links than the bound.
pub proof fn lemma_within_by_route(g: Seq<Seq<usize>>, start: usize, depth: nat, place: nat)
    requires
        well_formed(g),
        start < g.len(),
        place < bfs_order(g, start).len(),
    ensures
        place < within(g, start, depth).len() <==> route(g, start, place).len() <= depth + 1,
    decreases depth, place,
{
    lemma_order_settled(g, start);
    lemma_route_is_walk(g, start, place);
    lemma_explored_grows(g, start, 0, 0);
    if place == 0 {
        lemma_within_grows(g, start, 0, depth);
    } else {
        lemma_finder(g, start, place, 0);
        let f = finder(g, start, place, 0);
        lemma_route_is_walk(g, start, f);
        if depth == 0 {
        } else {
            let m = frontier_end(g, start, depth);
            assert(m == within(g, start, (depth - 1) as nat).len());
            lemma_within_by_route(g, start, (depth - 1) as nat, f);
            if f < m {
                lemma_explored_grows(g, start, f + 1, m);
            } else {
                lemma_explored_grows(g, start, m, f);
            }
        }
    }
}

/// A traversal with a depth bound meets exactly the nodes to which a walk
/// of no more links than the bound leads.
pub proof fn lemma_within_meets_near(g: Seq<Seq<usize>>, start: usize, depth: nat, x: usize)
    requires
        well_formed(g),
        start < g.len(),
    ensures
        within(g, start, depth).contains(x) <==> exists|w: Seq<usize>|
            joins(g, w, start, x) && w.len() <= depth + 1,
{
    let order = bfs_order(g, start);
    let near = within(g, start, depth);
    lemma_within_grows(g, start, depth, depth);
    lemma_order_settled(g, start);
    if near.contains(x) {
        let j = choose|j: int| 0 <= j < near.len() && near[j] == x;
        assert(order.take(near.len() as int)[j] == order[j]);
        lemma_within_by_route(g, start, depth, j as nat);
        lemma_route_is_walk(g, start, j as nat);
        let w = route(g, start, j as nat);
        assert(joins(g, w, start, x) && w.len() <= depth + 1);
    }
    if exists|w: Seq<usize>| joins(g, w, start, x) && w.len() <= depth + 1 {
        let w = choose|w: Seq<usize>| joins(g, w, start, x) && w.len() <= depth + 1;
        lemma_walk_is_met(g, start, w);
        let j = place_of(order, x);
        assert(order[j] == x);
        lemma_within_by_route(g, start, depth, j as nat);
        assert(order.take(near.len() as int)[j] == order[j]);
        assert(near[j] == x);
    }
}

/// Whether the nodes of `ring` form a closed chain: each links to the next
/// and to nothing else, the last to the first.
pub open spec fn is_ring(g: Seq<Seq<usize>>, ring: Seq<usize>) -> bool {
    &&& ring.len() >= 1
    &&& ring.no_duplicates()
    &&& all_below(ring, g.len())
    &&& forall|i: int| 0 <= i < ring.len() - 1 ==> g[(#[trigger] ring[i]) as int] == seq![ring[i + 1]]
    &&& g[ring.last() as int] == seq![ring[0]]
}

/// On a closed chain the search from the first node meets the nodes of the
/// chain, each once, in the order of the chain, and nothing else.
pub proof fn lemma_ring_search(g: Seq<Seq<usize>>, ring: Seq<usize>)
    requires
        well_formed(g),
        is_ring(g, ring),
    ensures
        bfs_order(g, ring[0]) == ring,
{
    let k = ring.len();
    lemma_distinct_below(ring, g.len());
    lemma_ring_steps(g, ring, (k - 1) as nat);
    let e = explored(g, ring[0], (k - 1) as nat);
    assert(ring.take(k as int) =~= ring);
    assert(e == ring);
    let targets = g[ring[k - 1] as int];
    assert(targets.drop_last() =~= Seq::<usize>::empty());
    assert(with_new(ring, targets.drop_last()) == ring);
    assert(ring[0] == ring[0] && ring.contains(ring[0]));
    assert(with_new(ring, targets) == ring);
    assert(explored(g, ring[0], k) == ring);
    lemma_explored_settles(g, ring[0], k, g.len());
}

/// The search on a closed chain, step by step: after `q` steps it has met
/// the first `q + 1` nodes of the chain.
proof fn lemma_ring_steps(g: Seq<Seq<usize>>, ring: Seq<usize>, q: nat)
    requires
        is_ring(g, ring),
        q < ring.len(),
    ensures
        explored(g, ring[0], q) == ring.take(q as int + 1),
    decreases q,
{
    if q == 0 {
        assert(ring.take(1) =~= seq![ring[0]]);
    } else {
        lemma_ring_steps(g, ring, (q - 1) as nat);
        let sofar = explored(g, ring[0], (q - 1) as nat);
        assert(sofar == ring.take(q as int));
        assert(sofar[q - 1] == ring[q - 1]);
        let targets = g[ring[q - 1] as int];
        assert(targets == seq![ring[q as int]]);
        assert(targets.drop_last() =~= Seq::<usize>::empty());
        assert(with_new(sofar, targets.drop_last()) == sofar);
        assert(!sofar.contains(ring[q as int])) by {
            if sofar.contains(ring[q as int]) {
                let j = choose|j: int| 0 <= j < sofar.len() && sofar[j] == ring[q as int];
                assert(ring[j] == ring[q as int]);
            }
        }
        assert(with_new(sofar, targets) == sofar.push(ring[q as int]));
        assert(sofar.push(ring[q as int]) =~= ring.take(q as int + 1));
    }
}

/// A closed chain, begun at another of its nodes, is a closed chain.
pub proof fn lemma_ring_turned(g: Seq<Seq<usize>>, ring: Seq<usize>, i: int)
    requires
        is_ring(g, ring),
        0 <= i < ring.len(),
    ensures
        is_ring(g, ring.skip(i) + ring.take(i)),
        (ring.skip(i) + ring.take(i))[0] == ring[i],
{
    let k = ring.len();
    let turned = ring.skip(i) + ring.take(i);
    assert forall|a: int| 0 <= a < k implies #[trigger] turned[a] == (if a < k - i {
        ring[a + i]
    } else {
        ring[a - (k - i)]
    }) by {}
    assert forall|a: int, b: int| 0 <= a < k && 0 <= b < k && a != b implies turned[a] != turned[b] by {
        let a2 = if a < k - i {
            a + i
        } else {
            a - (k - i)
        };
        let b2 = if b < k - i {
            b + i
        } else {
            b - (k - i)
        };
        assert(turned[a] == ring[a2] && turned[b] == ring[b2]);
    }
    assert forall|a: int| 0 <= a < k - 1 implies g[(#[trigger] turned[a]) as int] == seq![
        turned[a + 1],
    ] by {
        if a < k - i - 1 {
            assert(turned[a] == ring[a + i]);
        } else if a == k - i - 1 {
            assert(turned[a] == ring.last());
            assert(turned[a + 1] == ring[0]);
        } else {
            assert(turned[a] == ring[a - (k - i)]);
        }
    }
    if i == 0 {
        assert(turned.last() == ring.last());
    } else {
        assert(turned.last() == ring[i - 1]);
        assert(turned[0] == ring[i]);
    }
}

/// On a closed chain the search from any of its nodes meets the nodes of
/// the chain, each once, and nothing else.
pub proof fn lemma_ring_search_from(g: Seq<Seq<usize>>, ring: Seq<usize>, i: int)
    requires
        well_formed(g),
        is_ring(g, ring),
        0 <= i < ring.len(),
    ensures
        bfs_order(g, ring[i]) == ring.skip(i) + ring.take(i),
        bfs_order(g, ring[i]).len() == ring.len(),
        bfs_order(g, ring[i]).no_duplicates(),
        forall|x: usize| bfs_order(g, ring[i]).contains(x) <==> ring.contains(x),
{
    lemma_ring_turned(g, ring, i);
    let turned = ring.skip(i) + ring.take(i);
    lemma_ring_search(g, turned);
    assert forall|x: usize| turned.contains(x) <==> ring.contains(x) by {
        if turned.contains(x) {
            let a = choose|a: int| 0 <= a < turned.len() && turned[a] == x;
            if a < ring.len() - i {
                assert(ring[a + i] == x);
            } else {
                assert(ring[a - (ring.len() - i)] == x);
            }
        }
        if ring.contains(x) {
            let a = choose|a: int| 0 <= a < ring.len() && ring[a] == x;
            if a >= i {
                assert(turned[a - i] == x);
            } else {
                assert(turned[a + (ring.len() - i)] == x);
            }
        }
    }
}

} // verus!
