//! Depth-first search with a stack of its own, in place of recursion.

use crate::digraph::{all_below, lemma_distinct_below, lists, well_formed};
use crate::walks::{is_ring, is_walk, joins, reachable};
use vstd::prelude::*;

verus! {

/// The nodes that a depth-first search visits, after `seen`, when `stack`
/// holds the nodes that it has still to look at, the next one last. A node
/// taken from the stack is visited unless it was visited before, and its
/// targets are put on the stack in their order, so that the last of them is
/// looked at first.
pub open spec fn dfs_run(g: Seq<Seq<usize>>, stack: Seq<usize>, seen: Seq<usize>) -> Seq<usize>
    decreases g.len() - seen.len(), stack.len(),
    when seen.no_duplicates() && all_below(seen, g.len())
{
    if stack.len() == 0 {
        seen
    } else if stack.last() >= g.len() || seen.contains(stack.last()) {
        dfs_run(g, stack.drop_last(), seen)
    } else {
        proof {
            lemma_push_fits(seen, stack.last(), g.len());
        }
        dfs_run(g, stack.drop_last() + g[stack.last() as int], seen.push(stack.last()))
    }
}

/// The nodes that can be reached from `start`, in the order in which a
/// depth-first search visits them.
pub open spec fn dfs_order(g: Seq<Seq<usize>>, start: usize) -> Seq<usize> {
    dfs_run(g, seq![start], Seq::empty())
}

/// A sequence of distinct nodes stays one, and within the graph, when a
/// node of the graph that it does not hold is added.
pub proof fn lemma_push_fits(seen: Seq<usize>, u: usize, n: nat)
    requires
        seen.no_duplicates(),
        all_below(seen, n),
        u < n,
        !seen.contains(u),
    ensures
        seen.push(u).no_duplicates(),
        all_below(seen.push(u), n),
        seen.len() < n,
{
    let next = seen.push(u);
    assert forall|i: int, j: int| 0 <= i < next.len() && 0 <= j < next.len() && i != j implies next[i]
        != next[j] by {
        if i < seen.len() && j < seen.len() {
            assert(seen[i] != seen[j]);
        } else if i < seen.len() {
            assert(seen.contains(seen[i]));
        } else {
            assert(seen.contains(seen[j]));
        }
    }
    assert forall|i: int| 0 <= i < next.len() implies (#[trigger] next[i]) < n by {
        if i < seen.len() {
            assert(seen[i] < n);
        }
    }
    lemma_distinct_below(next, n);
}

/// The nodes that can be reached from `start`, in the order in which a
/// depth-first search visits them; none of them twice.
pub fn depth_first(adj: &Vec<Vec<usize>>, start: usize) -> (order: Vec<usize>)
    requires
        well_formed(lists(adj@)),
        start < adj.len(),
    ensures
        order@ == dfs_order(lists(adj@), start),
        order@.no_duplicates(),
        all_below(order@, adj.len() as nat),
{
    let ghost g = lists(adj@);
    let n: usize = adj.len();
    let mut marks: Vec<bool> = Vec::new();
    while marks.len() < n
        invariant
            marks.len() <= n,
            forall|i: int| 0 <= i < marks.len() ==> !marks[i],
        decreases n - marks.len(),
    {
        marks.push(false);
    }
    let mut order: Vec<usize> = Vec::new();
    let mut stack: Vec<usize> = Vec::new();
    stack.push(start);
    proof {
        assert(stack@ =~= seq![start]);
        assert(order@ =~= Seq::<usize>::empty());
    }
    while stack.len() > 0
        invariant
            g == lists(adj@),
            well_formed(g),
            n == adj.len() == marks.len(),
            order@.no_duplicates(),
            all_below(order@, n as nat),
            all_below(stack@, n as nat),
            forall|x: int| 0 <= x < n ==> (#[trigger] marks[x] <==> order@.contains(x as usize)),
            dfs_order(g, start) == dfs_run(g, stack@, order@),
        decreases n - order.len(), stack.len(),
    {
        let ghost before = stack@;
        let ghost seen = order@;
        let u = stack.pop().unwrap();
        proof {
            assert(u == before.last());
            assert(before[before.len() - 1] < n);
            assert(stack@ =~= before.drop_last());
        }
        if !marks[u] {
            proof {
                lemma_push_fits(seen, u, n as nat);
            }
            marks.set(u, true);
            order.push(u);
            proof {
                assert forall|x: int| 0 <= x < n implies (#[trigger] marks[x] <==> order@.contains(
                    x as usize,
                )) by {
                    if x == u {
                        assert(order@[seen.len() as int] == u);
                    } else {
                        if seen.contains(x as usize) {
                            let k = choose|k: int| 0 <= k < seen.len() && seen[k] == x as usize;
                            assert(order@[k] == x as usize);
                        }
                        if order@.contains(x as usize) {
                            let k = choose|k: int| 0 <= k < order@.len() && order@[k] == x as usize;
                            assert(seen[k] == x as usize);
                        }
                    }
                }
            }
            let targets = &adj[u];
            let ghost rest = stack@;
            let mut e: usize = 0;
            proof {
                assert(g[u as int] == targets@);
                assert(rest + targets@.take(0) =~= rest);
            }
            while e < targets.len()
                invariant
                    e <= targets.len(),
                    g[u as int] == targets@,
                    well_formed(g),
                    u < n == g.len(),
                    all_below(stack@, n as nat),
                    stack@ == rest + targets@.take(e as int),
                decreases targets.len() - e,
            {
                proof {
                    assert(g[u as int][e as int] < g.len());
                    assert(targets@.take(e + 1) =~= targets@.take(e as int).push(targets@[e as int]));
                    assert((rest + targets@.take(e as int)).push(targets@[e as int]) =~= rest
                        + targets@.take(e + 1));
                }
                stack.push(targets[e]);
                e += 1;
            }
            proof {
                assert(targets@.take(targets.len() as int) =~= targets@);
            }
        }
    }
    order
}

/// A link leads from a node that can be reached to a node that can be
/// reached.
pub proof fn lemma_reachable_step(g: Seq<Seq<usize>>, start: usize, u: usize, t: usize)
    requires
        reachable(g, start, u),
        g[u as int].contains(t),
        t < g.len(),
    ensures
        reachable(g, start, t),
{
    let w = choose|w: Seq<usize>| joins(g, w, start, u);
    let v = w.push(t);
    assert forall|i: int| 0 <= i < v.len() implies (#[trigger] v[i]) < g.len() by {
        if i < w.len() {
            assert(v[i] == w[i]);
        }
    }
    assert forall|i: int| 0 <= i < v.len() - 1 implies g[(#[trigger] v[i]) as int].contains(v[i + 1]) by {
        if i < w.len() - 1 {
            assert(v[i] == w[i] && v[i + 1] == w[i + 1]);
        } else {
            assert(v[i] == w.last());
        }
    }
    assert(joins(g, v, start, t));
}

/// Whether the links of every node of `seen` lead to nodes that `seen` or
/// `stack` holds.
pub open spec fn links_kept(g: Seq<Seq<usize>>, stack: Seq<usize>, seen: Seq<usize>) -> bool {
    forall|i: int, k: int|
        0 <= i < seen.len() && 0 <= k < g[seen[i] as int].len() ==> seen.contains(
            #[trigger] g[seen[i] as int][k],
        ) || stack.contains(g[seen[i] as int][k])
}

/// What a depth-first search ends with, from any state in which it holds
/// only nodes that can be reached and has kept the links of the nodes it
/// visited: the nodes it had visited and those it had still to look at, only
/// nodes that can be reached, and for each node the nodes that it links to.
proof fn lemma_dfs_run(g: Seq<Seq<usize>>, start: usize, stack: Seq<usize>, seen: Seq<usize>)
    requires
        well_formed(g),
        seen.no_duplicates(),
        all_below(seen, g.len()),
        all_below(stack, g.len()),
        links_kept(g, stack, seen),
        forall|i: int| 0 <= i < seen.len() ==> reachable(g, start, #[trigger] seen[i]),
        forall|i: int| 0 <= i < stack.len() ==> reachable(g, start, #[trigger] stack[i]),
    ensures
        ({
            let end = dfs_run(g, stack, seen);
            &&& end.no_duplicates()
            &&& all_below(end, g.len())
            &&& links_kept(g, Seq::empty(), end)
            &&& forall|i: int| 0 <= i < end.len() ==> reachable(g, start, #[trigger] end[i])
            &&& forall|i: int| 0 <= i < seen.len() ==> end.contains(#[trigger] seen[i])
            &&& forall|i: int| 0 <= i < stack.len() ==> end.contains(#[trigger] stack[i])
        }),
    decreases g.len() - seen.len(), stack.len(),
{
    if stack.len() == 0 {
        assert forall|i: int| 0 <= i < seen.len() implies seen.contains(#[trigger] seen[i]) by {}
    } else {
        let u = stack.last();
        let rest = stack.drop_last();
        assert(stack[stack.len() - 1] < g.len());
        assert(all_below(rest, g.len())) by {
            assert forall|i: int| 0 <= i < rest.len() implies (#[trigger] rest[i]) < g.len() by {
                assert(rest[i] == stack[i]);
            }
        }
        assert forall|i: int| 0 <= i < rest.len() implies reachable(g, start, #[trigger] rest[i]) by {
            assert(rest[i] == stack[i]);
        }
        if seen.contains(u) {
            assert(links_kept(g, rest, seen)) by {
                assert forall|i: int, k: int|
                    0 <= i < seen.len() && 0 <= k < g[seen[i] as int].len() implies seen.contains(
                    #[trigger] g[seen[i] as int][k],
                ) || rest.contains(g[seen[i] as int][k]) by {
                    let t = g[seen[i] as int][k];
                    if !seen.contains(t) {
                        assert(stack.contains(t));
                        let j = choose|j: int| 0 <= j < stack.len() && stack[j] == t;
                        assert(j < rest.len());
                        assert(rest[j] == t);
                    }
                }
            }
            lemma_dfs_run(g, start, rest, seen);
            let end = dfs_run(g, rest, seen);
            assert forall|i: int| 0 <= i < stack.len() implies end.contains(#[trigger] stack[i]) by {
                if i < rest.len() {
                    assert(rest[i] == stack[i]);
                } else {
                    let j = choose|j: int| 0 <= j < seen.len() && seen[j] == u;
                    assert(end.contains(seen[j]));
                }
            }
        } else {
            lemma_push_fits(seen, u, g.len());
            let next = seen.push(u);
            let more = rest + g[u as int];
            assert(reachable(g, start, stack[stack.len() - 1]));
            assert(all_below(more, g.len())) by {
                assert forall|i: int| 0 <= i < more.len() implies (#[trigger] more[i]) < g.len() by {
                    if i < rest.len() {
                        assert(more[i] == rest[i]);
                    } else {
                        assert(more[i] == g[u as int][i - rest.len()]);
                    }
                }
            }
            assert forall|i: int| 0 <= i < more.len() implies reachable(g, start, #[trigger] more[i]) by {
                if i < rest.len() {
                    assert(more[i] == rest[i]);
                } else {
                    assert(more[i] == g[u as int][i - rest.len()]);
                    assert(g[u as int].contains(g[u as int][i - rest.len()]));
                    lemma_reachable_step(g, start, u, more[i]);
                }
            }
            assert forall|i: int| 0 <= i < next.len() implies reachable(g, start, #[trigger] next[i]) by {
                if i < seen.len() {
                    assert(next[i] == seen[i]);
                }
            }
            assert(links_kept(g, more, next)) by {
                assert forall|i: int, k: int|
                    0 <= i < next.len() && 0 <= k < g[next[i] as int].len() implies next.contains(
                    #[trigger] g[next[i] as int][k],
                ) || more.contains(g[next[i] as int][k]) by {
                    let t = g[next[i] as int][k];
                    if i < seen.len() {
                        assert(next[i] == seen[i]);
                        if seen.contains(t) {
                            let j = choose|j: int| 0 <= j < seen.len() && seen[j] == t;
                            assert(next[j] == t);
                        } else {
                            assert(stack.contains(t));
                            let j = choose|j: int| 0 <= j < stack.len() && stack[j] == t;
                            if j < rest.len() {
                                assert(more[j] == t);
                            } else {
                                assert(next[seen.len() as int] == t);
                            }
                        }
                    } else {
                        assert(more[rest.len() + k] == t);
                    }
                }
            }
            lemma_dfs_run(g, start, more, next);
            let end = dfs_run(g, more, next);
            assert forall|i: int| 0 <= i < seen.len() implies end.contains(#[trigger] seen[i]) by {
                assert(next[i] == seen[i]);
                assert(end.contains(next[i]));
            }
            assert forall|i: int| 0 <= i < stack.len() implies end.contains(#[trigger] stack[i]) by {
                if i < rest.len() {
                    assert(more[i] == stack[i]);
                    assert(end.contains(more[i]));
                } else {
                    assert(next[seen.len() as int] == u);
                    assert(end.contains(next[seen.len() as int]));
                }
            }
        }
    }
}

/// A depth-first search visits exactly the nodes that can be reached, none
/// of them twice.
pub proof fn lemma_dfs_meets_reachable(g: Seq<Seq<usize>>, start: usize, x: usize)
    requires
        well_formed(g),
        start < g.len(),
    ensures
        dfs_order(g, start).contains(x) <==> reachable(g, start, x),
        dfs_order(g, start).no_duplicates(),
{
    let stack = seq![start];
    let seen = Seq::<usize>::empty();
    assert(joins(g, seq![start], start, start));
    lemma_dfs_run(g, start, stack, seen);
    let end = dfs_order(g, start);
    assert(end.contains(stack[0]));
    if end.contains(x) {
        let i = choose|i: int| 0 <= i < end.len() && end[i] == x;
        assert(reachable(g, start, end[i]));
    }
    if reachable(g, start, x) {
        let w = choose|w: Seq<usize>| joins(g, w, start, x);
        lemma_closed_holds_walk(g, end, w, w.len() - 1);
    }
}

/// A sequence that holds the first node of a walk, and for each node it
/// holds the nodes that this node links to, holds every node of the walk.
proof fn lemma_closed_holds_walk(g: Seq<Seq<usize>>, end: Seq<usize>, w: Seq<usize>, k: int)
    requires
        is_walk(g, w),
        0 <= k < w.len(),
        end.contains(w[0]),
        links_kept(g, Seq::empty(), end),
    ensures
        end.contains(w[k]),
    decreases k,
{
    if k > 0 {
        lemma_closed_holds_walk(g, end, w, k - 1);
        let i = choose|i: int| 0 <= i < end.len() && end[i] == w[k - 1];
        assert(g[w[k - 1] as int].contains(w[k - 1 + 1]));
        let targets = g[w[k - 1] as int];
        let j = choose|j: int| 0 <= j < targets.len() && targets[j] == w[k];
        assert(end.contains(g[end[i] as int][j]) || Seq::<usize>::empty().contains(g[end[i] as int][j]));
    }
}

/// The depth-first search on a closed chain, step by step: when it has
/// visited the first `q` nodes and looks at the next, it ends with the
/// nodes of the chain, each once, in the order of the chain.
proof fn lemma_ring_dfs_steps(g: Seq<Seq<usize>>, ring: Seq<usize>, q: int)
    requires
        is_ring(g, ring),
        0 <= q < ring.len(),
    ensures
        dfs_run(g, seq![ring[q]], ring.take(q)) == ring,
    decreases ring.len() - q,
{
    let seen = ring.take(q);
    let stack = seq![ring[q]];
    assert(seen.no_duplicates()) by {
        assert forall|i: int, j: int| 0 <= i < seen.len() && 0 <= j < seen.len() && i != j implies seen[i]
            != seen[j] by {
            assert(ring[i] != ring[j]);
        }
    }
    assert(all_below(seen, g.len())) by {
        assert forall|i: int| 0 <= i < seen.len() implies (#[trigger] seen[i]) < g.len() by {
            assert(ring[i] < g.len());
        }
    }
    assert(stack.last() == ring[q]);
    assert(ring[q] < g.len());
    assert(!seen.contains(ring[q])) by {
        if seen.contains(ring[q]) {
            let j = choose|j: int| 0 <= j < seen.len() && seen[j] == ring[q];
            assert(ring[j] == ring[q]);
        }
    }
    assert(stack.drop_last() =~= Seq::<usize>::empty());
    assert(seen.push(ring[q]) =~= ring.take(q + 1));
    if q < ring.len() - 1 {
        assert(g[ring[q] as int] == seq![ring[q + 1]]);
        assert(stack.drop_last() + g[ring[q] as int] =~= seq![ring[q + 1]]);
        lemma_ring_dfs_steps(g, ring, q + 1);
    } else {
        assert(ring.take(q + 1) =~= ring);
        let back = seq![ring[0]];
        assert(stack.drop_last() + g[ring[q] as int] =~= back);
        assert(ring.no_duplicates() && all_below(ring, g.len()));
        assert(back.last() == ring[0]);
        assert(ring.contains(ring[0]));
        assert(back.drop_last() =~= Seq::<usize>::empty());
        assert(dfs_run(g, back.drop_last(), ring) == ring);
        assert(dfs_run(g, back, ring) == ring);
    }
}

/// On a closed chain the depth-first search from the first node visits the
/// nodes of the chain, each once, in the order of the chain, and nothing
/// else.
pub proof fn lemma_ring_dfs(g: Seq<Seq<usize>>, ring: Seq<usize>)
    requires
        is_ring(g, ring),
    ensures
        dfs_order(g, ring[0]) == ring,
{
    assert(ring.take(0) =~= Seq::<usize>::empty());
    lemma_ring_dfs_steps(g, ring, 0);
}

} // verus!
