//! Finding out whether a directed graph has a cycle, by a depth-first search
//! that marks each node as untouched, in progress or finished.

use crate::digraph::{lists, well_formed};
use crate::walks::is_walk;
use vstd::prelude::*;

verus! {

/// A cycle: a walk of one link or more that ends where it began. A node
/// that links to itself is a cycle.
pub open spec fn is_cycle(g: Seq<Seq<usize>>, w: Seq<usize>) -> bool {
    is_walk(g, w) && w.len() >= 2 && w[0] == w.last()
}

/// Whether the graph has a cycle.
pub open spec fn cyclic(g: Seq<Seq<usize>>) -> bool {
    exists|w: Seq<usize>| is_cycle(g, w)
}

/// Every link leads to a node of lower rank.
pub open spec fn ranked(g: Seq<Seq<usize>>, rank: Seq<int>) -> bool {
    &&& rank.len() == g.len()
    &&& forall|u: int, k: int|
        0 <= u < g.len() && 0 <= k < g[u].len() ==> (#[trigger] g[u][k]) < g.len() && rank[g[u][k] as int]
            < rank[u]
}

/// Along a walk in a ranked graph the rank falls with each link.
proof fn lemma_rank_falls(g: Seq<Seq<usize>>, rank: Seq<int>, w: Seq<usize>)
    requires
        ranked(g, rank),
        is_walk(g, w),
    ensures
        rank[w.last() as int] <= rank[w[0] as int] - (w.len() - 1),
    decreases w.len(),
{
    if w.len() > 1 {
        let v = w.drop_last();
        assert forall|i: int| 0 <= i < v.len() - 1 implies g[(#[trigger] v[i]) as int].contains(
            v[i + 1],
        ) by {
            assert(v[i] == w[i] && v[i + 1] == w[i + 1]);
        }
        assert forall|i: int| 0 <= i < v.len() implies (#[trigger] v[i]) < g.len() by {
            assert(v[i] == w[i]);
        }
        lemma_rank_falls(g, rank, v);
        let a = w[w.len() - 2];
        assert(g[a as int].contains(w[w.len() - 2 + 1]));
        let k = choose|k: int| 0 <= k < g[a as int].len() && g[a as int][k] == w.last();
        assert(rank[g[a as int][k] as int] < rank[a as int]);
    }
}

/// A graph whose links all lead to lower ranks has no cycle.
pub proof fn lemma_ranked_has_no_cycle(g: Seq<Seq<usize>>, rank: Seq<int>)
    requires
        ranked(g, rank),
    ensures
        !cyclic(g),
{
    if cyclic(g) {
        let w = choose|w: Seq<usize>| is_cycle(g, w);
        lemma_rank_falls(g, rank, w);
    }
}

/// The number of untouched nodes.
pub open spec fn untouched(state: Seq<u8>) -> nat
    decreases state.len(),
{
    if state.len() == 0 {
        0
    } else {
        untouched(state.drop_last()) + if state.last() == 0 {
            1nat
        } else {
            0nat
        }
    }
}

/// Touching a node changes the number of untouched nodes by one, and
/// finishing a touched node does not change it.
proof fn lemma_untouched_update(state: Seq<u8>, i: int, v: u8)
    requires
        0 <= i < state.len(),
        v != 0,
    ensures
        untouched(state.update(i, v)) == untouched(state) - if state[i] == 0 {
            1int
        } else {
            0int
        },
    decreases state.len(),
{
    let next = state.update(i, v);
    if i == state.len() - 1 {
        assert(next.drop_last() =~= state.drop_last());
    } else {
        assert(next.drop_last() =~= state.drop_last().update(i, v));
        lemma_untouched_update(state.drop_last(), i, v);
    }
}

/// The links that the search has still to follow from the nodes in
/// progress, and one for each of these nodes.
pub open spec fn pending(g: Seq<Seq<usize>>, stack: Seq<(usize, usize)>) -> int
    decreases stack.len(),
{
    if stack.len() == 0 {
        0
    } else {
        pending(g, stack.drop_last()) + (g[stack.last().0 as int].len() - stack.last().1) + 1
    }
}

/// There is never less than nothing pending.
proof fn lemma_pending(g: Seq<Seq<usize>>, stack: Seq<(usize, usize)>)
    requires
        forall|i: int|
            0 <= i < stack.len() ==> (#[trigger] stack[i]).0 < g.len() && stack[i].1 <= g[stack[i].0 as int].len(),
    ensures
        pending(g, stack) >= stack.len(),
    decreases stack.len(),
{
    if stack.len() > 0 {
        let rest = stack.drop_last();
        assert forall|i: int| 0 <= i < rest.len() implies (#[trigger] rest[i]).0 < g.len() && rest[i].1
            <= g[rest[i].0 as int].len() by {
            assert(rest[i] == stack[i]);
        }
        lemma_pending(g, rest);
        assert(stack[stack.len() - 1].1 <= g[stack[stack.len() - 1].0 as int].len());
    }
}

/// What holds of the nodes in progress: they are distinct nodes of the
/// graph, each was reached by the link that the search followed last from
/// the one before it, and they are the nodes marked as in progress.
#[verifier::opaque]
pub open spec fn on_path(g: Seq<Seq<usize>>, state: Seq<u8>, stack: Seq<(usize, usize)>) -> bool {
    &&& forall|i: int|
        0 <= i < stack.len() ==> (#[trigger] stack[i]).0 < g.len() && stack[i].1 <= g[stack[i].0 as int].len()
    &&& forall|i: int|
        0 <= i < stack.len() - 1 ==> (#[trigger] stack[i]).1 >= 1 && g[stack[i].0 as int][stack[i].1 - 1]
            == stack[i + 1].0
    &&& forall|i: int, j: int|
        0 <= i < j < stack.len() ==> (#[trigger] stack[i]).0 != (#[trigger] stack[j]).0
    &&& forall|i: int| 0 <= i < stack.len() ==> state[(#[trigger] stack[i]).0 as int] == 1
    &&& forall|x: int|
        0 <= x < state.len() && #[trigger] state[x] == 1 ==> exists|i: int|
            0 <= i < stack.len() && (#[trigger] stack[i]).0 == x
}

/// The links that the search has followed from a node in progress lead to
/// finished nodes, but for the last one, which leads to the next node in
/// progress.
#[verifier::opaque]
pub open spec fn followed(g: Seq<Seq<usize>>, state: Seq<u8>, stack: Seq<(usize, usize)>) -> bool {
    forall|i: int, k: int|
        0 <= i < stack.len() && 0 <= k < stack[i].1 ==> state[(#[trigger] g[stack[i].0 as int][k]) as int]
            == 2 || (i + 1 < stack.len() && k == stack[i].1 - 1)
}

/// The links of a finished node lead to finished nodes of lower rank.
#[verifier::opaque]
pub open spec fn settled(g: Seq<Seq<usize>>, state: Seq<u8>, rank: Seq<int>, clock: int) -> bool {
    &&& rank.len() == g.len()
    &&& forall|u: int| 0 <= u < g.len() && #[trigger] state[u] == 2 ==> rank[u] < clock
    &&& forall|u: int, k: int|
        0 <= u < g.len() && state[u] == 2 && 0 <= k < g[u].len() ==> state[(#[trigger] g[u][k]) as int]
            == 2 && rank[g[u][k] as int] < rank[u]
}

/// The walk along the nodes in progress from place `i` on, and back to the
/// node at `i`.
pub open spec fn closing_walk(stack: Seq<(usize, usize)>, i: int) -> Seq<usize> {
    Seq::new((stack.len() - i + 1) as nat, |j: int| if j < stack.len() - i {
        stack[i + j].0
    } else {
        stack[i].0
    })
}

/// A link from the last node in progress to an earlier one closes a cycle.
proof fn lemma_closing_walk(g: Seq<Seq<usize>>, state: Seq<u8>, stack: Seq<(usize, usize)>, i: int, k: int)
    requires
        well_formed(g),
        on_path(g, state, stack),
        0 <= i < stack.len(),
        0 <= k < g[stack.last().0 as int].len(),
        g[stack.last().0 as int][k] == stack[i].0,
    ensures
        is_cycle(g, closing_walk(stack, i)),
{
    reveal(on_path);
    let w = closing_walk(stack, i);
    let m = stack.len() - i;
    assert forall|j: int| 0 <= j < w.len() implies (#[trigger] w[j]) < g.len() by {
        if j < m {
            assert(stack[i + j].0 < g.len());
        }
    }
    assert forall|j: int| 0 <= j < w.len() - 1 implies g[(#[trigger] w[j]) as int].contains(w[j + 1]) by {
        if j < m - 1 {
            assert(stack[i + j].1 >= 1);
            assert(g[stack[i + j].0 as int][stack[i + j].1 - 1] == stack[i + j + 1].0);
        } else {
            assert(w[j] == stack.last().0);
            assert(g[stack.last().0 as int][k] == w[j + 1]);
        }
    }
}

/// What the search knows of the node it looks at: the last one in progress.
proof fn lemma_top(g: Seq<Seq<usize>>, state: Seq<u8>, stack: Seq<(usize, usize)>)
    requires
        on_path(g, state, stack),
        stack.len() > 0,
    ensures
        stack.last().0 < g.len(),
        stack.last().1 <= g[stack.last().0 as int].len(),
        state[stack.last().0 as int] == 1,
        pending(g, stack) == pending(g, stack.drop_last()) + (g[stack.last().0 as int].len()
            - stack.last().1) + 1,
        pending(g, stack.drop_last()) >= 0,
{
    reveal(on_path);
    let rest = stack.drop_last();
    assert(stack[stack.len() - 1].0 < g.len());
    assert forall|i: int| 0 <= i < rest.len() implies (#[trigger] rest[i]).0 < g.len() && rest[i].1
        <= g[rest[i].0 as int].len() by {
        assert(rest[i] == stack[i]);
    }
    lemma_pending(g, rest);
}

/// A link from the node that the search looks at to a node in progress
/// closes a cycle.
proof fn lemma_found(g: Seq<Seq<usize>>, state: Seq<u8>, stack: Seq<(usize, usize)>, k: int)
    requires
        well_formed(g),
        on_path(g, state, stack),
        stack.len() > 0,
        state.len() == g.len(),
        0 <= k < g[stack.last().0 as int].len(),
        g[stack.last().0 as int][k] < g.len(),
        state[g[stack.last().0 as int][k] as int] == 1,
    ensures
        cyclic(g),
{
    let v = g[stack.last().0 as int][k];
    assert(exists|i: int| 0 <= i < stack.len() && (#[trigger] stack[i]).0 == v) by {
        reveal(on_path);
    }
    let i = choose|i: int| 0 <= i < stack.len() && (#[trigger] stack[i]).0 == v;
    lemma_closing_walk(g, state, stack, i, k);
    assert(is_cycle(g, closing_walk(stack, i)));
}

/// The search starts at an untouched node.
proof fn lemma_start(g: Seq<Seq<usize>>, state: Seq<u8>, rank: Seq<int>, clock: int, root: usize)
    requires
        well_formed(g),
        state.len() == g.len(),
        root < g.len(),
        state[root as int] == 0,
        forall|x: int| 0 <= x < state.len() ==> #[trigger] state[x] == 0 || state[x] == 2,
        settled(g, state, rank, clock),
    ensures
        on_path(g, state.update(root as int, 1), seq![(root, 0usize)]),
        followed(g, state.update(root as int, 1), seq![(root, 0usize)]),
        settled(g, state.update(root as int, 1), rank, clock),
{
    reveal(on_path);
    reveal(followed);
    reveal(settled);
    let next = state.update(root as int, 1);
    let s = seq![(root, 0usize)];
    assert forall|x: int| 0 <= x < next.len() && #[trigger] next[x] == 1 implies exists|i: int|
        0 <= i < s.len() && (#[trigger] s[i]).0 == x by {
        assert(state[x] == 0 || state[x] == 2);
        assert(s[0].0 == x);
    }
    assert forall|u: int, k: int| 0 <= u < g.len() && next[u] == 2 && 0 <= k < g[u].len() implies next[(
    #[trigger] g[u][k]) as int] == 2 && rank[g[u][k] as int] < rank[u] by {
        assert(state[u] == 2);
        assert(g[u][k] < g.len());
        assert(state[g[u][k] as int] == 2);
    }
}

/// The search follows a link to a finished node.
proof fn lemma_pass(g: Seq<Seq<usize>>, state: Seq<u8>, stack: Seq<(usize, usize)>, e1: usize)
    requires
        e1 == stack.last().1 + 1,
        well_formed(g),
        state.len() == g.len(),
        on_path(g, state, stack),
        followed(g, state, stack),
        stack.len() > 0,
        stack.last().1 < g[stack.last().0 as int].len(),
        state[g[stack.last().0 as int][stack.last().1 as int] as int] == 2,
    ensures
        on_path(g, state, stack.update(stack.len() - 1, (stack.last().0, e1))),
        followed(g, state, stack.update(stack.len() - 1, (stack.last().0, e1))),
        pending(g, stack.update(stack.len() - 1, (stack.last().0, e1))) == pending(g, stack) - 1,
        pending(g, stack) >= 1,
{
    reveal(on_path);
    reveal(followed);
    lemma_top(g, state, stack);
    let top = stack.len() - 1;
    let u = stack.last().0;
    let e = stack.last().1;
    let s = stack.update(top, (u, e1));
    assert(s.drop_last() =~= stack.drop_last());
    assert(s.last() == (u, e1));
    assert forall|i: int| 0 <= i < s.len() implies (#[trigger] s[i]).0 == stack[i].0 by {}
    assert forall|i: int| 0 <= i < s.len() - 1 implies (#[trigger] s[i]).1 >= 1 && g[s[i].0 as int][s[i].1
        - 1] == s[i + 1].0 by {
        assert(s[i] == stack[i]);
        assert(s[i + 1].0 == stack[i + 1].0);
    }
    assert forall|i: int, j: int| 0 <= i < j < s.len() implies (#[trigger] s[i]).0 != (#[trigger] s[j]).0 by {
        assert(s[i].0 == stack[i].0 && s[j].0 == stack[j].0);
    }
    assert forall|i: int| 0 <= i < s.len() implies state[(#[trigger] s[i]).0 as int] == 1 by {
        assert(s[i].0 == stack[i].0);
    }
    assert forall|x: int| 0 <= x < state.len() && #[trigger] state[x] == 1 implies exists|i: int|
        0 <= i < s.len() && (#[trigger] s[i]).0 == x by {
        let i = choose|i: int| 0 <= i < stack.len() && (#[trigger] stack[i]).0 == x;
        assert(s[i].0 == x);
    }
    assert forall|i: int, k: int| 0 <= i < s.len() && 0 <= k < s[i].1 implies state[(
    #[trigger] g[s[i].0 as int][k]) as int] == 2 || (i + 1 < s.len() && k == s[i].1 - 1) by {
        if i < top {
            assert(s[i] == stack[i]);
            assert(state[g[stack[i].0 as int][k] as int] == 2 || (i + 1 < stack.len() && k == stack[i].1
                - 1));
        } else if k < e {
            assert(state[g[stack[i].0 as int][k] as int] == 2 || (i + 1 < stack.len() && k == stack[i].1
                - 1));
        }
    }
}

/// The search follows a link to an untouched node, which is then in
/// progress.
proof fn lemma_enter(
    g: Seq<Seq<usize>>,
    state: Seq<u8>,
    rank: Seq<int>,
    clock: int,
    stack: Seq<(usize, usize)>,
    e1: usize,
)
    requires
        e1 == stack.last().1 + 1,
        well_formed(g),
        state.len() == g.len(),
        on_path(g, state, stack),
        followed(g, state, stack),
        settled(g, state, rank, clock),
        stack.len() > 0,
        stack.last().1 < g[stack.last().0 as int].len(),
        state[g[stack.last().0 as int][stack.last().1 as int] as int] == 0,
    ensures
        ({
            let v = g[stack.last().0 as int][stack.last().1 as int];
            let s = stack.update(stack.len() - 1, (stack.last().0, e1)).push((v, 0usize));
            let next = state.update(v as int, 1);
            &&& on_path(g, next, s)
            &&& followed(g, next, s)
            &&& settled(g, next, rank, clock)
            &&& untouched(next) == untouched(state) - 1
            &&& untouched(state) >= 1
        }),
{
    reveal(on_path);
    reveal(followed);
    reveal(settled);
    lemma_top(g, state, stack);
    let top = stack.len() - 1;
    let u = stack.last().0;
    let e = stack.last().1;
    let v = g[u as int][e as int];
    assert(v < g.len());
    let s = stack.update(top, (u, e1)).push((v, 0usize));
    assert(s[top] == (u, e1));
    assert(s[top + 1] == (v, 0usize));
    let next = state.update(v as int, 1);
    lemma_untouched_update(state, v as int, 1);
    assert forall|i: int| 0 <= i < s.len() implies (#[trigger] s[i]).0 < g.len() && s[i].1 <= g[s[i].0 as int].len() by {
        if i < top {
            assert(s[i] == stack[i]);
        }
    }
    assert forall|i: int| 0 <= i < s.len() - 1 implies (#[trigger] s[i]).1 >= 1 && g[s[i].0 as int][s[i].1
        - 1] == s[i + 1].0 by {
        if i < top {
            assert(s[i] == stack[i]);
            assert(s[i + 1].0 == stack[i + 1].0);
        }
    }
    assert forall|i: int, j: int| 0 <= i < j < s.len() implies (#[trigger] s[i]).0 != (#[trigger] s[j]).0 by {
        assert(s[i].0 == stack[i].0);
        if j < s.len() - 1 {
            assert(s[j].0 == stack[j].0);
        } else {
            assert(state[stack[i].0 as int] == 1);
        }
    }
    assert forall|i: int| 0 <= i < s.len() implies next[(#[trigger] s[i]).0 as int] == 1 by {
        if i < s.len() - 1 {
            assert(s[i].0 == stack[i].0);
            assert(state[stack[i].0 as int] == 1);
        }
    }
    assert forall|x: int| 0 <= x < next.len() && #[trigger] next[x] == 1 implies exists|i: int|
        0 <= i < s.len() && (#[trigger] s[i]).0 == x by {
        if x == v {
            assert(s[s.len() - 1].0 == x);
        } else {
            assert(state[x] == 1);
            let i = choose|i: int| 0 <= i < stack.len() && (#[trigger] stack[i]).0 == x;
            assert(s[i].0 == x);
        }
    }
    assert forall|i: int, k: int| 0 <= i < s.len() && 0 <= k < s[i].1 implies next[(
    #[trigger] g[s[i].0 as int][k]) as int] == 2 || (i + 1 < s.len() && k == s[i].1 - 1) by {
        if i < top {
            assert(s[i] == stack[i]);
            assert(state[g[stack[i].0 as int][k] as int] == 2 || (i + 1 < stack.len() && k == stack[i].1
                - 1));
        } else if i == top {
            if k < e {
                assert(state[g[stack[i].0 as int][k] as int] == 2 || (i + 1 < stack.len() && k
                    == stack[i].1 - 1));
            }
        }
    }
    assert forall|a: int| 0 <= a < g.len() && #[trigger] next[a] == 2 implies rank[a] < clock by {
        assert(state[a] == 2);
    }
    assert forall|a: int, k: int| 0 <= a < g.len() && next[a] == 2 && 0 <= k < g[a].len() implies next[(
    #[trigger] g[a][k]) as int] == 2 && rank[g[a][k] as int] < rank[a] by {
        assert(state[a] == 2);
        assert(state[g[a][k] as int] == 2);
    }
}

/// The search has followed every link of the node it looks at, which is
/// then finished and gets the next rank.
proof fn lemma_leave(g: Seq<Seq<usize>>, state: Seq<u8>, rank: Seq<int>, clock: int, stack: Seq<(usize, usize)>)
    requires
        well_formed(g),
        state.len() == g.len(),
        on_path(g, state, stack),
        followed(g, state, stack),
        settled(g, state, rank, clock),
        stack.len() > 0,
        stack.last().1 >= g[stack.last().0 as int].len(),
    ensures
        ({
            let u = stack.last().0;
            let s = stack.drop_last();
            let next = state.update(u as int, 2);
            &&& on_path(g, next, s)
            &&& followed(g, next, s)
            &&& settled(g, next, rank.update(u as int, clock), clock + 1)
            &&& untouched(next) == untouched(state)
            &&& 0 <= pending(g, s) < pending(g, stack)
        }),
{
    reveal(on_path);
    reveal(followed);
    reveal(settled);
    lemma_top(g, state, stack);
    let top = stack.len() - 1;
    let u = stack.last().0;
    let s = stack.drop_last();
    let next = state.update(u as int, 2);
    let ranks = rank.update(u as int, clock);
    lemma_untouched_update(state, u as int, 2);
    assert forall|i: int| 0 <= i < s.len() implies (#[trigger] s[i]).0 != u by {
        assert(s[i] == stack[i]);
        assert(stack[i].0 != stack[top].0);
    }
    assert forall|i: int| 0 <= i < s.len() implies (#[trigger] s[i]).0 < g.len() && s[i].1 <= g[s[i].0 as int].len() by {
        assert(s[i] == stack[i]);
    }
    assert forall|i: int| 0 <= i < s.len() - 1 implies (#[trigger] s[i]).1 >= 1 && g[s[i].0 as int][s[i].1
        - 1] == s[i + 1].0 by {
        assert(s[i] == stack[i]);
        assert(s[i + 1] == stack[i + 1]);
    }
    assert forall|i: int, j: int| 0 <= i < j < s.len() implies (#[trigger] s[i]).0 != (#[trigger] s[j]).0 by {
        assert(s[i] == stack[i] && s[j] == stack[j]);
    }
    assert forall|i: int| 0 <= i < s.len() implies next[(#[trigger] s[i]).0 as int] == 1 by {
        assert(s[i] == stack[i]);
        assert(state[stack[i].0 as int] == 1);
    }
    assert forall|x: int| 0 <= x < next.len() && #[trigger] next[x] == 1 implies exists|i: int|
        0 <= i < s.len() && (#[trigger] s[i]).0 == x by {
        assert(state[x] == 1);
        let i = choose|i: int| 0 <= i < stack.len() && (#[trigger] stack[i]).0 == x;
        assert(i < top);
        assert(s[i].0 == x);
    }
    assert forall|i: int, k: int| 0 <= i < s.len() && 0 <= k < s[i].1 implies next[(
    #[trigger] g[s[i].0 as int][k]) as int] == 2 || (i + 1 < s.len() && k == s[i].1 - 1) by {
        assert(s[i] == stack[i]);
        assert(state[g[stack[i].0 as int][k] as int] == 2 || (i + 1 < stack.len() && k == stack[i].1 - 1));
        if i + 1 == stack.len() - 1 && k == stack[i].1 - 1 {
            assert(g[stack[i].0 as int][stack[i].1 - 1] == stack[i + 1].0);
        }
    }
    assert forall|a: int| 0 <= a < g.len() && #[trigger] next[a] == 2 implies ranks[a] < clock + 1 by {
        if a != u {
            assert(state[a] == 2);
        }
    }
    assert forall|a: int, k: int| 0 <= a < g.len() && next[a] == 2 && 0 <= k < g[a].len() implies next[(
    #[trigger] g[a][k]) as int] == 2 && ranks[g[a][k] as int] < ranks[a] by {
        if a == u {
            assert(state[g[stack[top].0 as int][k] as int] == 2 || (top + 1 < stack.len() && k
                == stack[top].1 - 1));
            assert(g[a][k] != u);
            assert(rank[g[a][k] as int] < clock);
        } else {
            assert(state[a] == 2);
            assert(state[g[a][k] as int] == 2);
            assert(g[a][k] != u);
        }
    }
}

/// When every node is finished, every link leads to a lower rank.
proof fn lemma_all_settled(g: Seq<Seq<usize>>, state: Seq<u8>, rank: Seq<int>, clock: int)
    requires
        well_formed(g),
        state.len() == g.len(),
        settled(g, state, rank, clock),
        forall|x: int| 0 <= x < state.len() ==> #[trigger] state[x] == 2,
    ensures
        ranked(g, rank),
{
    reveal(settled);
    assert forall|u: int, k: int| 0 <= u < g.len() && 0 <= k < g[u].len() implies (#[trigger] g[u][k])
        < g.len() && rank[g[u][k] as int] < rank[u] by {
        assert(state[u] == 2);
    }
}

/// Whether the graph has a cycle.
pub fn has_cycle(adj: &Vec<Vec<usize>>) -> (r: bool)
    requires
        well_formed(lists(adj@)),
    ensures
        r == cyclic(lists(adj@)),
{
    let ghost g = lists(adj@);
    let n: usize = adj.len();
    let mut state: Vec<u8> = Vec::new();
    while state.len() < n
        invariant
            state.len() <= n,
            forall|i: int| 0 <= i < state.len() ==> state[i] == 0,
        decreases n - state.len(),
    {
        state.push(0);
    }
    let mut stack: Vec<(usize, usize)> = Vec::new();
    let ghost mut rank: Seq<int> = Seq::new(n as nat, |i: int| 0int);
    let ghost mut clock: int = 0;
    let mut root: usize = 0;
    proof {
        reveal(settled);
    }
    while root < n
        invariant
            g == lists(adj@),
            well_formed(g),
            n == adj.len() == state.len(),
            root <= n,
            stack.len() == 0,
            forall|x: int| 0 <= x < n ==> #[trigger] state[x] == 0 || state[x] == 2,
            forall|x: int| 0 <= x < root ==> #[trigger] state[x] == 2,
            settled(g, state@, rank, clock),
        decreases n - root,
    {
        if state[root] == 0 {
            proof {
                lemma_start(g, state@, rank, clock, root);
            }
            state.set(root, 1);
            stack.push((root, 0));
            proof {
                assert(stack@ =~= seq![(root, 0usize)]);
            }
            while stack.len() > 0
                invariant
                    g == lists(adj@),
                    well_formed(g),
                    n == adj.len() == state.len(),
                    root < n,
                    forall|x: int| 0 <= x < n ==> #[trigger] state[x] <= 2,
                    forall|x: int| 0 <= x < root ==> #[trigger] state[x] == 2,
                    state[root as int] != 0,
                    on_path(g, state@, stack@),
                    followed(g, state@, stack@),
                    settled(g, state@, rank, clock),
                decreases untouched(state@), pending(g, stack@),
            {
                let top: usize = stack.len() - 1;
                let u: usize = stack[top].0;
                let e: usize = stack[top].1;
                proof {
                    lemma_top(g, state@, stack@);
                    assert(g[u as int] == adj@[u as int]@);
                }
                if e < adj[u].len() {
                    let v: usize = adj[u][e];
                    proof {
                        assert(g[u as int][e as int] < g.len());
                    }
                    if state[v] == 1 {
                        proof {
                            lemma_found(g, state@, stack@, e as int);
                        }
                        return true;
                    }
                    if state[v] == 0 {
                        proof {
                            lemma_enter(g, state@, rank, clock, stack@, (e + 1) as usize);
                        }
                        stack.set(top, (u, e + 1));
                        state.set(v, 1);
                        stack.push((v, 0));
                    } else {
                        proof {
                            lemma_pass(g, state@, stack@, (e + 1) as usize);
                        }
                        stack.set(top, (u, e + 1));
                    }
                } else {
                    proof {
                        lemma_leave(g, state@, rank, clock, stack@);
                        rank = rank.update(u as int, clock);
                        clock = clock + 1;
                    }
                    state.set(u, 2);
                    stack.pop();
                }
            }
            proof {
                assert(state[root as int] == 2) by {
                    reveal(on_path);
                }
                assert forall|x: int| 0 <= x < n implies #[trigger] state[x] == 0 || state[x] == 2 by {
                    reveal(on_path);
                }
            }
        }
        root += 1;
    }
    proof {
        lemma_all_settled(g, state@, rank, clock);
        lemma_ranked_has_no_cycle(g, rank);
    }
    false
}

} // verus!
