//! Directed graphs over numbered nodes, given by the targets of each node,
//! and the order in which a breadth-first search visits them.

use vstd::prelude::*;

verus! {

/// The target lists of a graph held in vectors.
pub open spec fn lists(adj: Seq<Vec<usize>>) -> Seq<Seq<usize>> {
    Seq::new(adj.len(), |i: int| adj[i]@)
}

/// Every target of every node is a node of the graph.
pub open spec fn well_formed(g: Seq<Seq<usize>>) -> bool {
    forall|i: int, j: int|
        0 <= i < g.len() && 0 <= j < g[i].len() ==> (#[trigger] g[i][j]) < g.len()
}

/// Every item of `s` is below `n`.
pub open spec fn all_below(s: Seq<usize>, n: nat) -> bool {
    forall|i: int| 0 <= i < s.len() ==> (#[trigger] s[i]) < n
}

/// `seen`, and behind it the nodes of `targets` that it does not hold yet,
/// each once, in the order of `targets`.
pub open spec fn with_new(seen: Seq<usize>, targets: Seq<usize>) -> Seq<usize>
    decreases targets.len(),
{
    if targets.len() == 0 {
        seen
    } else {
        let sofar = with_new(seen, targets.drop_last());
        if sofar.contains(targets.last()) {
            sofar
        } else {
            sofar.push(targets.last())
        }
    }
}

/// The nodes that a breadth-first search from `start` has met once it has
/// followed the links of the first `steps` nodes it met, in the order in
/// which it met them.
pub open spec fn explored(g: Seq<Seq<usize>>, start: usize, steps: nat) -> Seq<usize>
    decreases steps,
{
    if steps == 0 {
        seq![start]
    } else {
        let sofar = explored(g, start, (steps - 1) as nat);
        if steps - 1 < sofar.len() && sofar[steps - 1] < g.len() {
            with_new(sofar, g[sofar[steps - 1] as int])
        } else {
            sofar
        }
    }
}

/// The nodes that can be reached from `start`, in the order in which a
/// breadth-first search meets them.
pub open spec fn bfs_order(g: Seq<Seq<usize>>, start: usize) -> Seq<usize> {
    explored(g, start, g.len())
}

/// How many nodes a breadth-first search from `start` has met when it has
/// followed the links of every node that lies fewer than `depth` links away.
pub open spec fn frontier_end(g: Seq<Seq<usize>>, start: usize, depth: nat) -> nat
    decreases depth,
{
    if depth == 0 {
        0
    } else {
        explored(g, start, frontier_end(g, start, (depth - 1) as nat)).len()
    }
}

/// The nodes that lie at most `depth` links away from `start`, in the order
/// in which a breadth-first search meets them.
pub open spec fn within(g: Seq<Seq<usize>>, start: usize, depth: nat) -> Seq<usize> {
    explored(g, start, frontier_end(g, start, depth))
}

/// What `with_new` keeps: the nodes seen before stay in front, nothing
/// occurs twice, every target is held, and every node is one seen before
/// or a target.
pub proof fn lemma_with_new(seen: Seq<usize>, targets: Seq<usize>)
    ensures
        with_new(seen, targets).len() >= seen.len(),
        with_new(seen, targets).take(seen.len() as int) == seen,
        seen.no_duplicates() ==> with_new(seen, targets).no_duplicates(),
        forall|j: int| 0 <= j < targets.len() ==> with_new(seen, targets).contains(#[trigger] targets[j]),
        forall|i: int|
            seen.len() <= i < with_new(seen, targets).len() ==> targets.contains(
                #[trigger] with_new(seen, targets)[i],
            ),
    decreases targets.len(),
{
    let r = with_new(seen, targets);
    if targets.len() == 0 {
        assert(r.take(seen.len() as int) =~= seen);
    } else {
        let init = targets.drop_last();
        let sofar = with_new(seen, init);
        lemma_with_new(seen, init);
        assert(r.take(seen.len() as int) =~= sofar.take(seen.len() as int));
        assert forall|j: int| 0 <= j < targets.len() implies r.contains(#[trigger] targets[j]) by {
            if j < init.len() {
                assert(init[j] == targets[j]);
                let k = choose|k: int| 0 <= k < sofar.len() && sofar[k] == targets[j];
                assert(r[k] == targets[j]);
            } else {
                if sofar.contains(targets.last()) {
                } else {
                    assert(r[sofar.len() as int] == targets.last());
                }
            }
        }
        assert forall|i: int| seen.len() <= i < r.len() implies targets.contains(#[trigger] r[i]) by {
            if i < sofar.len() {
                assert(r[i] == sofar[i]);
                assert(init.contains(sofar[i]));
                let k = choose|k: int| 0 <= k < init.len() && init[k] == sofar[i];
                assert(targets[k] == r[i]);
            } else {
                assert(targets[targets.len() - 1] == r[i]);
            }
        }
        if seen.no_duplicates() {
            assert(sofar.no_duplicates());
        }
    }
}

/// The search keeps what it has met in front of what it meets later.
pub proof fn lemma_explored_grows(g: Seq<Seq<usize>>, start: usize, a: nat, b: nat)
    requires
        a <= b,
    ensures
        explored(g, start, a).len() <= explored(g, start, b).len(),
        explored(g, start, b).take(explored(g, start, a).len() as int) == explored(g, start, a),
        explored(g, start, a).len() >= 1,
        explored(g, start, a)[0] == start,
    decreases b,
{
    let ea = explored(g, start, a);
    if a == b {
        if a > 0 {
            lemma_explored_grows(g, start, (a - 1) as nat, (a - 1) as nat);
            let prev = explored(g, start, (a - 1) as nat);
            if a - 1 < prev.len() && prev[a - 1] < g.len() {
                lemma_with_new(prev, g[prev[a - 1] as int]);
                assert(ea[0] == ea.take(prev.len() as int)[0]);
            }
        }
        assert(ea.take(ea.len() as int) =~= ea);
    } else {
        let prev = explored(g, start, (b - 1) as nat);
        let eb = explored(g, start, b);
        lemma_explored_grows(g, start, a, (b - 1) as nat);
        if b - 1 < prev.len() && prev[b - 1] < g.len() {
            lemma_with_new(prev, g[prev[b - 1] as int]);
            assert(eb.take(ea.len() as int) =~= eb.take(prev.len() as int).take(ea.len() as int));
        }
    }
}

/// The search meets no node twice, and only nodes of the graph.
pub proof fn lemma_explored_distinct(g: Seq<Seq<usize>>, start: usize, steps: nat)
    requires
        well_formed(g),
        start < g.len(),
    ensures
        explored(g, start, steps).no_duplicates(),
        all_below(explored(g, start, steps), g.len()),
    decreases steps,
{
    if steps > 0 {
        let prev = explored(g, start, (steps - 1) as nat);
        lemma_explored_distinct(g, start, (steps - 1) as nat);
        if steps - 1 < prev.len() && prev[steps - 1] < g.len() {
            let targets = g[prev[steps - 1] as int];
            lemma_with_new(prev, targets);
            let r = with_new(prev, targets);
            assert forall|i: int| 0 <= i < r.len() implies (#[trigger] r[i]) < g.len() by {
                if i < prev.len() {
                    assert(r[i] == r.take(prev.len() as int)[i]);
                } else {
                    let k = choose|k: int| 0 <= k < targets.len() && targets[k] == r[i];
                    assert(g[prev[steps - 1] as int][k] < g.len());
                }
            }
        }
    }
}

/// A sequence of distinct numbers below `n` has at most `n` items.
pub proof fn lemma_distinct_below(s: Seq<usize>, n: nat)
    requires
        s.no_duplicates(),
        all_below(s, n),
    ensures
        s.len() <= n,
    decreases n,
{
    if n == 0 {
        if s.len() > 0 {
            assert(s[0] < n);
        }
    } else if exists|i: int| 0 <= i < s.len() && s[i] == n - 1 {
        let i = choose|i: int| 0 <= i < s.len() && s[i] == n - 1;
        let t = s.remove(i);
        assert forall|a: int, b: int| 0 <= a < t.len() && 0 <= b < t.len() && a != b implies t[a]
            != t[b] by {
            let a2 = if a < i {
                a
            } else {
                a + 1
            };
            let b2 = if b < i {
                b
            } else {
                b + 1
            };
            assert(t[a] == s[a2] && t[b] == s[b2]);
        }
        assert forall|a: int| 0 <= a < t.len() implies (#[trigger] t[a]) < n - 1 by {
            let a2 = if a < i {
                a
            } else {
                a + 1
            };
            assert(t[a] == s[a2]);
            assert(s[a2] < n);
            assert(s[a2] != s[i]);
        }
        lemma_distinct_below(t, (n - 1) as nat);
    } else {
        assert forall|a: int| 0 <= a < s.len() implies (#[trigger] s[a]) < n - 1 by {
            assert(s[a] < n);
        }
        lemma_distinct_below(s, (n - 1) as nat);
    }
}

/// Once the search has followed the links of every node it met, it meets no
/// more.
pub proof fn lemma_explored_settles(g: Seq<Seq<usize>>, start: usize, a: nat, b: nat)
    requires
        explored(g, start, a).len() <= a <= b,
    ensures
        explored(g, start, b) == explored(g, start, a),
    decreases b,
{
    if a < b {
        lemma_explored_settles(g, start, a, (b - 1) as nat);
    }
}

/// A vector of `n` marks, none set.
fn no_marks(n: usize) -> (marks: Vec<bool>)
    ensures
        marks.len() == n,
        forall|i: int| 0 <= i < n ==> !marks[i],
{
    let mut marks: Vec<bool> = Vec::new();
    while marks.len() < n
        invariant
            marks.len() <= n,
            forall|i: int| 0 <= i < marks.len() ==> !marks[i],
        decreases n - marks.len(),
    {
        marks.push(false);
    }
    marks
}

/// `marks` tells of each node whether `seen` holds it.
pub open spec fn marks_match(marks: Seq<bool>, seen: Seq<usize>) -> bool {
    forall|x: int| 0 <= x < marks.len() ==> (#[trigger] marks[x] <==> seen.contains(x as usize))
}

/// Follows the links of one node: adds its targets that are not marked to
/// `order`, and marks them.
fn visit_targets(targets: &Vec<usize>, marks: &mut Vec<bool>, order: &mut Vec<usize>)
    requires
        marks_match(old(marks)@, old(order)@),
        all_below(targets@, old(marks).len() as nat),
    ensures
        final(marks).len() == old(marks).len(),
        marks_match(final(marks)@, final(order)@),
        final(order)@ == with_new(old(order)@, targets@),
{
    let ghost before = order@;
    let mut e: usize = 0;
    proof {
        assert(targets@.take(0) =~= Seq::<usize>::empty());
    }
    while e < targets.len()
        invariant
            e <= targets.len(),
            marks.len() == old(marks).len(),
            all_below(targets@, marks.len() as nat),
            marks_match(marks@, order@),
            order@ == with_new(before, targets@.take(e as int)),
        decreases targets.len() - e,
    {
        let v = targets[e];
        proof {
            assert(targets@.take(e + 1).drop_last() =~= targets@.take(e as int));
            assert(targets@.take(e + 1).last() == v);
        }
        if !marks[v] {
            let ghost old_order = order@;
            let ghost old_marks = marks@;
            marks.set(v, true);
            order.push(v);
            proof {
                assert forall|x: int| 0 <= x < marks.len() implies (#[trigger] marks@[x]
                    <==> order@.contains(x as usize)) by {
                    if x == v {
                        assert(order@[old_order.len() as int] == v);
                    } else {
                        assert(old_marks[x] <==> old_order.contains(x as usize));
                        if old_order.contains(x as usize) {
                            let k = choose|k: int| 0 <= k < old_order.len() && old_order[k] == x as usize;
                            assert(order@[k] == x as usize);
                        }
                        if order@.contains(x as usize) {
                            let k = choose|k: int| 0 <= k < order@.len() && order@[k] == x as usize;
                            assert(k < old_order.len());
                            assert(old_order[k] == x as usize);
                        }
                    }
                }
            }
        }
        e += 1;
    }
    proof {
        assert(targets@.take(targets.len() as int) =~= targets@);
    }
}

/// The nodes that lie at most `max_depth` links away from `start`, in the
/// order in which a breadth-first search meets them.
pub fn traverse(adj: &Vec<Vec<usize>>, start: usize, max_depth: usize) -> (order: Vec<usize>)
    requires
        well_formed(lists(adj@)),
        start < adj.len(),
    ensures
        order@ == within(lists(adj@), start, max_depth as nat),
{
    let ghost g = lists(adj@);
    let n: usize = adj.len();
    let mut marks = no_marks(n);
    let mut order: Vec<usize> = Vec::new();
    marks.set(start, true);
    order.push(start);
    proof {
        assert(order@ =~= seq![start]);
        assert forall|x: int| 0 <= x < marks.len() implies (#[trigger] marks@[x] <==> order@.contains(
            x as usize,
        )) by {
            if x == start {
                assert(order@[0] == start);
            }
        }
    }
    let mut done: usize = 0;
    let mut depth: usize = 0;
    while depth < max_depth && done < order.len()
        invariant
            g == lists(adj@),
            well_formed(g),
            start < n == adj.len() == marks.len(),
            depth <= max_depth,
            done == frontier_end(g, start, depth as nat),
            order@ == explored(g, start, done as nat),
            marks_match(marks@, order@),
        decreases max_depth - depth,
    {
        let end: usize = order.len();
        let mut q: usize = done;
        while q < end
            invariant
                g == lists(adj@),
                well_formed(g),
                start < n == adj.len() == marks.len(),
                done <= q <= end <= order.len(),
                order@ == explored(g, start, q as nat),
                marks_match(marks@, order@),
            decreases end - q,
        {
            let u = order[q];
            proof {
                lemma_explored_distinct(g, start, q as nat);
                assert(u < n);
                assert(g[u as int] == adj@[u as int]@);
                assert forall|j: int| 0 <= j < adj@[u as int]@.len() implies (
                #[trigger] adj@[u as int]@[j]) < n by {
                    assert(g[u as int][j] < g.len());
                }
                lemma_with_new(order@, g[u as int]);
            }
            visit_targets(&adj[u], &mut marks, &mut order);
            q += 1;
        }
        done = end;
        depth += 1;
    }
    proof {
        if depth < max_depth {
            lemma_frontier_settles(g, start, depth as nat, max_depth as nat);
        }
    }
    order
}

/// Once a breadth-first search has followed the links of all it met, a
/// larger depth bound changes nothing.
pub proof fn lemma_frontier_settles(g: Seq<Seq<usize>>, start: usize, a: nat, b: nat)
    requires
        a <= b,
        explored(g, start, frontier_end(g, start, a)).len() <= frontier_end(g, start, a),
    ensures
        within(g, start, b) == within(g, start, a),
    decreases b,
{
    if a < b {
        lemma_frontier_settles(g, start, a, (b - 1) as nat);
        lemma_explored_reaches(g, start, frontier_end(g, start, b), frontier_end(g, start, a));
    }
}

/// Following fewer links than nodes were met, but as many as were met in the
/// end, gives what was met in the end.
proof fn lemma_explored_reaches(g: Seq<Seq<usize>>, start: usize, a: nat, b: nat)
    requires
        a <= b,
        explored(g, start, b).len() == a,
    ensures
        explored(g, start, a) == explored(g, start, b),
    decreases b - a,
{
    if a < b {
        lemma_explored_grows(g, start, a, b);
        lemma_explored_grows(g, start, a, a);
        let ea = explored(g, start, a);
        assert(ea.len() <= a);
        lemma_explored_settles(g, start, a, b);
    }
}

/// The nodes that can be reached from `start`, in the order in which a
/// breadth-first search meets them.
pub fn breadth_first(adj: &Vec<Vec<usize>>, start: usize) -> (order: Vec<usize>)
    requires
        well_formed(lists(adj@)),
        start < adj.len(),
    ensures
        order@ == bfs_order(lists(adj@), start),
{
    let ghost g = lists(adj@);
    let n: usize = adj.len();
    let mut marks = no_marks(n);
    let mut order: Vec<usize> = Vec::new();
    marks.set(start, true);
    order.push(start);
    proof {
        assert(order@ =~= seq![start]);
        assert forall|x: int| 0 <= x < marks.len() implies (#[trigger] marks@[x] <==> order@.contains(
            x as usize,
        )) by {
            if x == start {
                assert(order@[0] == start);
            }
        }
    }
    let mut q: usize = 0;
    while q < order.len() && q < n
        invariant
            g == lists(adj@),
            well_formed(g),
            start < n == adj.len() == marks.len(),
            q <= n,
            order@ == explored(g, start, q as nat),
            marks_match(marks@, order@),
        decreases n - q,
    {
        let u = order[q];
        proof {
            lemma_explored_distinct(g, start, q as nat);
            assert(u < n);
            assert(g[u as int] == adj@[u as int]@);
            assert forall|j: int| 0 <= j < adj@[u as int]@.len() implies (
            #[trigger] adj@[u as int]@[j]) < n by {
                assert(g[u as int][j] < g.len());
            }
        }
        visit_targets(&adj[u], &mut marks, &mut order);
        q += 1;
    }
    proof {
        if q < n {
            lemma_explored_settles(g, start, q as nat, n as nat);
        }
    }
    order
}

/// The step of the search at which it met the node that stands at `place`
/// in its order: the first step, from `step` on, after which it had met more
/// than `place` nodes.
pub open spec fn finder(g: Seq<Seq<usize>>, start: usize, place: nat, step: nat) -> nat
    decreases g.len() - step,
{
    if step >= g.len() || place < explored(g, start, step + 1).len() {
        step
    } else {
        finder(g, start, place, step + 1)
    }
}

/// The way on which the search came to the node at `place` of its order:
/// the way to the node whose links led there, and then that node.
pub open spec fn route(g: Seq<Seq<usize>>, start: usize, place: nat) -> Seq<usize>
    decreases place,
{
    if place == 0 {
        seq![start]
    } else {
        let from = finder(g, start, place, 0);
        if from < place && place < bfs_order(g, start).len() {
            route(g, start, from).push(bfs_order(g, start)[place as int])
        } else {
            Seq::empty()
        }
    }
}

/// Where `x` stands in `s`.
pub open spec fn place_of(s: Seq<usize>, x: usize) -> int {
    choose|i: int| 0 <= i < s.len() && s[i] == x
}

/// The way from `from` to `to` on which a breadth-first search comes to
/// `to`; none where `to` cannot be reached.
pub open spec fn shortest_path(g: Seq<Seq<usize>>, from: usize, to: usize) -> Option<Seq<usize>> {
    let order = bfs_order(g, from);
    if order.contains(to) {
        Some(route(g, from, place_of(order, to) as nat))
    } else {
        None
    }
}

/// The node at `place` was met at `step` when the search had met no more
/// than `place` nodes before that step and more after it.
pub proof fn lemma_finder_is(g: Seq<Seq<usize>>, start: usize, place: nat, step: nat, at: nat)
    requires
        at <= step < g.len(),
        explored(g, start, step).len() <= place < explored(g, start, step + 1).len(),
    ensures
        finder(g, start, place, at) == step,
    decreases step - at,
{
    if at < step {
        lemma_explored_grows(g, start, at + 1, step);
        lemma_finder_is(g, start, place, step, at + 1);
    }
}

/// The way from `from` to `to` on which a breadth-first search comes to
/// `to`; none where `to` cannot be reached.
pub fn find_path(adj: &Vec<Vec<usize>>, from: usize, to: usize) -> (path: Option<Vec<usize>>)
    requires
        well_formed(lists(adj@)),
        from < adj.len(),
        to < adj.len(),
    ensures
        match path {
            Some(p) => shortest_path(lists(adj@), from, to) == Some(p@),
            None => shortest_path(lists(adj@), from, to) is None,
        },
{
    let ghost g = lists(adj@);
    let n: usize = adj.len();
    let mut marks = no_marks(n);
    let mut order: Vec<usize> = Vec::new();
    let mut steps: Vec<usize> = Vec::new();
    marks.set(from, true);
    order.push(from);
    steps.push(0);
    proof {
        assert(order@ =~= seq![from]);
        assert forall|x: int| 0 <= x < marks.len() implies (#[trigger] marks@[x] <==> order@.contains(
            x as usize,
        )) by {
            if x == from {
                assert(order@[0] == from);
            }
        }
    }
    let mut q: usize = 0;
    while q < order.len() && q < n
        invariant
            g == lists(adj@),
            well_formed(g),
            from < n == adj.len() == marks.len(),
            q <= n,
            order@ == explored(g, from, q as nat),
            marks_match(marks@, order@),
            steps.len() == order.len(),
            forall|j: int|
                1 <= j < steps.len() ==> (#[trigger] steps[j]) == finder(g, from, j as nat, 0)
                    && steps[j] < j,
        decreases n - q,
    {
        let u = order[q];
        proof {
            lemma_explored_distinct(g, from, q as nat);
            assert(u < n);
            assert(g[u as int] == adj@[u as int]@);
            assert forall|j: int| 0 <= j < adj@[u as int]@.len() implies (
            #[trigger] adj@[u as int]@[j]) < n by {
                assert(g[u as int][j] < g.len());
            }
        }
        proof {
            lemma_with_new(order@, g[u as int]);
        }
        visit_targets(&adj[u], &mut marks, &mut order);
        while steps.len() < order.len()
            invariant
                q < n == g.len(),
                q < explored(g, from, q as nat).len() <= steps.len() <= order.len(),
                order@ == explored(g, from, (q + 1) as nat),
                forall|j: int|
                    1 <= j < steps.len() ==> (#[trigger] steps[j]) == finder(g, from, j as nat, 0)
                        && steps[j] < j,
            decreases order.len() - steps.len(),
        {
            proof {
                lemma_finder_is(g, from, steps.len() as nat, q as nat, 0);
            }
            steps.push(q);
        }
        q += 1;
    }
    proof {
        if q < n {
            lemma_explored_settles(g, from, q as nat, n as nat);
        }
        lemma_explored_distinct(g, from, n as nat);
    }
    if !marks[to] {
        return None;
    }
    let mut place: usize = 0;
    while order[place] != to
        invariant
            place < order.len(),
            order@.contains(to),
            forall|j: int| 0 <= j < place ==> order@[j] != to,
        decreases order.len() - place,
    {
        proof {
            let k = choose|k: int| 0 <= k < order@.len() && order@[k] == to;
            assert(k > place);
        }
        place += 1;
    }
    proof {
        let k = place_of(order@, to);
        assert(order@[k] == to);
        assert(k == place);
    }
    let ghost goal = place as nat;
    let mut path: Vec<usize> = Vec::new();
    let mut j: usize = place;
    while j > 0
        invariant
            j < order.len() == steps.len(),
            order@ == bfs_order(g, from),
            forall|i: int|
                1 <= i < steps.len() ==> (#[trigger] steps[i]) == finder(g, from, i as nat, 0)
                    && steps[i] < i,
            route(g, from, goal) == route(g, from, j as nat) + path@,
        decreases j,
    {
        proof {
            let back = steps[j as int];
            assert(route(g, from, j as nat) == route(g, from, back as nat).push(order@[j as int]));
            assert(route(g, from, back as nat).push(order@[j as int]) + path@ =~= route(
                g,
                from,
                back as nat,
            ) + path@.insert(0, order@[j as int]));
        }
        path.insert(0, order[j]);
        j = steps[j];
    }
    proof {
        assert(seq![from] + path@ =~= path@.insert(0, from));
    }
    path.insert(0, from);
    Some(path)
}

} // verus!
