//! Queries over the page graph: which pages a page leads to, in which order
//! a search meets them, and the shortest way from one page to another.

use crate::cycles::{cyclic, has_cycle};
use crate::dfs::{depth_first, dfs_order};
use crate::digraph::{
    all_below, bfs_order, breadth_first, find_path, frontier_end, lemma_explored_distinct, lists,
    shortest_path, traverse, well_formed, within,
};
use crate::graph::{distinct_paths, has_page, page_views, position_of, sources_of, Graph};
use crate::parser::PageView;
use crate::pattern::holds;
use crate::text::{strs, to_chars};
use vstd::prelude::*;

verus! {

/// The pages that `links` lead to, by their places among `pages`, in the
/// order of the links; a link to no page leads nowhere.
pub open spec fn resolved(pages: Seq<PageView>, links: Seq<Seq<char>>) -> Seq<usize>
    decreases links.len(),
{
    if links.len() == 0 {
        Seq::empty()
    } else if has_page(pages, links.last()) {
        resolved(pages, links.drop_last()).push(position_of(pages, links.last()) as usize)
    } else {
        resolved(pages, links.drop_last())
    }
}

/// The graph of the pages: for each page, by its place, the places of the
/// pages that it links to.
pub open spec fn adjacency(pages: Seq<PageView>) -> Seq<Seq<usize>> {
    Seq::new(pages.len(), |i: int| resolved(pages, pages[i].links))
}

/// The paths of the pages at the places `nodes`.
pub open spec fn paths_at(pages: Seq<PageView>, nodes: Seq<usize>) -> Seq<Seq<char>> {
    Seq::new(nodes.len(), |i: int| pages[nodes[i] as int].path)
}

/// The pages that lie at most `depth` links away from the page at `start`,
/// by their paths, in the order in which a breadth-first search meets them;
/// nothing where there is no page at `start`.
pub open spec fn traversal(pages: Seq<PageView>, start: Seq<char>, depth: nat) -> Seq<Seq<char>> {
    if has_page(pages, start) {
        paths_at(pages, within(adjacency(pages), position_of(pages, start) as usize, depth))
    } else {
        Seq::empty()
    }
}

/// The pages that can be reached from the page at `start`, by their paths,
/// in the order in which a breadth-first search meets them; nothing where
/// there is no page at `start`.
pub open spec fn breadth_first_paths(pages: Seq<PageView>, start: Seq<char>) -> Seq<Seq<char>> {
    if has_page(pages, start) {
        paths_at(pages, bfs_order(adjacency(pages), position_of(pages, start) as usize))
    } else {
        Seq::empty()
    }
}

/// The shortest way from the page at `from` to the page at `to`, by the
/// paths of the pages on it; none where one of the pages is missing or no
/// way leads from the one to the other.
pub open spec fn path_between(pages: Seq<PageView>, from: Seq<char>, to: Seq<char>) -> Option<
    Seq<Seq<char>>,
> {
    if has_page(pages, from) && has_page(pages, to) {
        match shortest_path(
            adjacency(pages),
            position_of(pages, from) as usize,
            position_of(pages, to) as usize,
        ) {
            Some(p) => Some(paths_at(pages, p)),
            None => None,
        }
    } else {
        None
    }
}

/// The pages that can be reached from the page at `start`, by their paths,
/// in the order in which a depth-first search visits them; nothing where
/// there is no page at `start`.
pub open spec fn depth_first_paths(pages: Seq<PageView>, start: Seq<char>) -> Seq<Seq<char>> {
    if has_page(pages, start) {
        paths_at(pages, dfs_order(adjacency(pages), position_of(pages, start) as usize))
    } else {
        Seq::empty()
    }
}

/// The paths of the pages that meet `keep`, in the order of the pages.
pub open spec fn selected(pages: Seq<PageView>, keep: spec_fn(PageView) -> bool) -> Seq<Seq<char>>
    decreases pages.len(),
{
    if pages.len() == 0 {
        Seq::empty()
    } else if keep(pages.last()) {
        selected(pages.drop_last(), keep).push(pages.last().path)
    } else {
        selected(pages.drop_last(), keep)
    }
}

/// `s` with each run of three underscores, the mark of a namespace in a file
/// name, turned into a slash.
pub open spec fn slashed(s: Seq<char>) -> Seq<char>
    decreases s.len(),
{
    if s.len() == 0 {
        Seq::empty()
    } else if s.len() >= 3 && s[0] == '_' && s[1] == '_' && s[2] == '_' {
        seq!['/'] + slashed(s.skip(3))
    } else {
        seq![s[0]] + slashed(s.skip(1))
    }
}

/// Whether `path` lies under the namespace `namespace`: written with
/// slashes, it begins with the namespace and a slash.
pub open spec fn in_namespace(path: Seq<char>, namespace: Seq<char>) -> bool {
    let full = slashed(path);
    let prefix = slashed(namespace);
    full.len() > prefix.len() && full.take(prefix.len() as int) == prefix && full[prefix.len() as int]
        == '/'
}

/// Whether a page is public: its property `public` is `true`.
pub open spec fn is_public(page: PageView) -> bool {
    page.properties.contains_key("public"@) && page.properties["public"@] == "true"@
}

/// Whether the page at `from` has a link to `to`.
pub open spec fn linked(pages: Seq<PageView>, from: Seq<char>, to: Seq<char>) -> bool {
    has_page(pages, from) && pages[position_of(pages, from)].links.contains(to)
}

/// `s` with each run of three underscores turned into a slash.
pub fn with_slashes(s: &Vec<char>) -> (r: Vec<char>)
    ensures
        r@ == slashed(s@),
{
    let n: usize = s.len();
    let mut r: Vec<char> = Vec::new();
    let mut i: usize = 0;
    proof {
        assert(s@.skip(0) =~= s@);
        assert(r@ + slashed(s@) =~= slashed(s@));
    }
    while i < n
        invariant
            i <= n == s.len(),
            slashed(s@) == r@ + slashed(s@.skip(i as int)),
        decreases n - i,
    {
        let ghost rest = s@.skip(i as int);
        let ghost before = r@;
        proof {
            assert(rest[0] == s@[i as int]);
        }
        if n - i >= 3 && s[i] == '_' && s[i + 1] == '_' && s[i + 2] == '_' {
            proof {
                assert(rest[1] == s@[i + 1] && rest[2] == s@[i + 2]);
                assert(rest.skip(3) =~= s@.skip(i + 3));
                assert(before + (seq!['/'] + slashed(rest.skip(3))) =~= before.push('/') + slashed(
                    rest.skip(3),
                ));
            }
            r.push('/');
            i += 3;
        } else {
            proof {
                if rest.len() >= 3 {
                    assert(rest[1] == s@[i + 1] && rest[2] == s@[i + 2]);
                }
                assert(rest.skip(1) =~= s@.skip(i + 1));
                assert(before + (seq![rest[0]] + slashed(rest.skip(1))) =~= before.push(rest[0])
                    + slashed(rest.skip(1)));
            }
            r.push(s[i]);
            i += 1;
        }
    }
    proof {
        assert(s@.skip(n as int) =~= Seq::<char>::empty());
        assert(r@ + Seq::<char>::empty() =~= r@);
    }
    r
}

/// Whether `path` lies under the namespace `namespace`.
pub fn is_in_namespace(path: &str, namespace: &str) -> (r: bool)
    ensures
        r == in_namespace(path@, namespace@),
{
    let full = with_slashes(&to_chars(path));
    let prefix = with_slashes(&to_chars(namespace));
    let m: usize = prefix.len();
    if full.len() <= m {
        return false;
    }
    let mut j: usize = 0;
    while j < m
        invariant
            j <= m == prefix.len() < full.len(),
            full@ == slashed(path@),
            prefix@ == slashed(namespace@),
            forall|t: int| 0 <= t < j ==> full@[t] == prefix@[t],
        decreases m - j,
    {
        if full[j] != prefix[j] {
            proof {
                assert(full@.take(m as int)[j as int] == full@[j as int]);
                assert(full@.take(m as int) != prefix@);
            }
            return false;
        }
        j += 1;
    }
    proof {
        assert(full@.take(m as int) =~= prefix@);
    }
    full[m] == '/'
}

/// The links of a page lead only to places of pages.
pub proof fn lemma_resolved_below(pages: Seq<PageView>, links: Seq<Seq<char>>)
    ensures
        all_below(resolved(pages, links), pages.len()),
    decreases links.len(),
{
    if links.len() > 0 {
        lemma_resolved_below(pages, links.drop_last());
    }
}

/// The graph of the pages is well formed.
pub proof fn lemma_adjacency_well_formed(pages: Seq<PageView>)
    ensures
        well_formed(adjacency(pages)),
        adjacency(pages).len() == pages.len(),
{
    let g = adjacency(pages);
    assert forall|i: int, j: int| 0 <= i < g.len() && 0 <= j < g[i].len() implies (#[trigger] g[i][j])
        < g.len() by {
        lemma_resolved_below(pages, pages[i].links);
    }
}

/// A page leads to another in the graph of the pages exactly when one of
/// its links is the path of the other.
pub proof fn lemma_edge_is_link(pages: Seq<PageView>, links: Seq<Seq<char>>, j: int)
    requires
        distinct_paths(pages),
        0 <= j < pages.len() <= usize::MAX,
    ensures
        resolved(pages, links).contains(j as usize) <==> links.contains(pages[j].path),
    decreases links.len(),
{
    if links.len() > 0 {
        let init = links.drop_last();
        lemma_edge_is_link(pages, init, j);
        let r = resolved(pages, links);
        let ri = resolved(pages, init);
        if links.contains(pages[j].path) {
            let k = choose|k: int| 0 <= k < links.len() && links[k] == pages[j].path;
            if k < init.len() {
                assert(init[k] == pages[j].path);
                let m = choose|m: int| 0 <= m < ri.len() && ri[m] == j as usize;
                assert(r[m] == j as usize);
            } else {
                assert(has_page(pages, links.last()));
                assert(position_of(pages, links.last()) == j);
                assert(r[r.len() - 1] == j as usize);
            }
        }
        if r.contains(j as usize) {
            let m = choose|m: int| 0 <= m < r.len() && r[m] == j as usize;
            if m < ri.len() {
                assert(ri[m] == j as usize);
                let k = choose|k: int| 0 <= k < init.len() && init[k] == pages[j].path;
                assert(links[k] == pages[j].path);
            } else {
                assert(has_page(pages, links.last()));
                let q = position_of(pages, links.last());
                assert(q == j);
                assert(links[links.len() - 1] == pages[j].path);
            }
        }
    }
}

/// The pages at distinct places have distinct paths.
proof fn lemma_paths_distinct(pages: Seq<PageView>, nodes: Seq<usize>)
    requires
        distinct_paths(pages),
        nodes.no_duplicates(),
        all_below(nodes, pages.len()),
    ensures
        paths_at(pages, nodes).no_duplicates(),
{
    let paths = paths_at(pages, nodes);
    assert forall|i: int, j: int| 0 <= i < paths.len() && 0 <= j < paths.len() && i != j implies paths[i]
        != paths[j] by {
        assert(nodes[i] != nodes[j]);
        assert(nodes[i] < pages.len() && nodes[j] < pages.len());
        if nodes[i] < nodes[j] {
            assert(pages[nodes[i] as int].path != pages[nodes[j] as int].path);
        } else {
            assert(pages[nodes[j] as int].path != pages[nodes[i] as int].path);
        }
    }
}

/// A traversal with depth bound nought meets the start alone, if there is a
/// page there. With a larger bound it meets what it met with a smaller one,
/// in the same order, and then the pages further away: never fewer pages,
/// never more than can be reached at all, and no page twice.
pub proof fn lemma_traversal_grows(pages: Seq<PageView>, start: Seq<char>, a: nat, b: nat)
    requires
        distinct_paths(pages),
        pages.len() <= usize::MAX,
        a <= b,
    ensures
        traversal(pages, start, 0) == if has_page(pages, start) {
            seq![start]
        } else {
            Seq::<Seq<char>>::empty()
        },
        traversal(pages, start, a).len() <= traversal(pages, start, b).len(),
        traversal(pages, start, b).take(traversal(pages, start, a).len() as int) == traversal(
            pages,
            start,
            a,
        ),
        traversal(pages, start, b).len() <= breadth_first_paths(pages, start).len() <= pages.len(),
        traversal(pages, start, b).no_duplicates(),
        breadth_first_paths(pages, start).no_duplicates(),
{
    if has_page(pages, start) {
        let g = adjacency(pages);
        let s = position_of(pages, start) as usize;
        lemma_adjacency_well_formed(pages);
        crate::walks::lemma_within_grows(g, s, a, b);
        crate::walks::lemma_order_settled(g, s);
        lemma_explored_distinct(g, s, frontier_end(g, s, b));
        lemma_paths_distinct(pages, within(g, s, b));
        lemma_paths_distinct(pages, bfs_order(g, s));
        assert(traversal(pages, start, 0) =~= seq![start]);
        assert(traversal(pages, start, b).take(traversal(pages, start, a).len() as int) =~= traversal(
            pages,
            start,
            a,
        )) by {
            let wa = within(g, s, a);
            let wb = within(g, s, b);
            assert forall|i: int| 0 <= i < wa.len() implies wb[i] == wa[i] by {
                assert(wb.take(wa.len() as int)[i] == wb[i]);
            }
        }
    } else {
        assert(traversal(pages, start, b).take(0) =~= traversal(pages, start, a));
    }
}

/// The shortest way between two pages begins at the one and ends at the
/// other, each page on it has a link to the next, and it has as few links
/// as any walk between the two in the graph of the pages. There is none
/// exactly where no walk leads from the one page to the other.
pub proof fn lemma_path_between(pages: Seq<PageView>, from: Seq<char>, to: Seq<char>)
    requires
        distinct_paths(pages),
        pages.len() <= usize::MAX,
        has_page(pages, from),
        has_page(pages, to),
    ensures
        ({
            let g = adjacency(pages);
            let a = position_of(pages, from) as usize;
            let b = position_of(pages, to) as usize;
            &&& path_between(pages, from, to) is Some <==> crate::walks::reachable(g, a, b)
            &&& path_between(pages, from, to) matches Some(p) ==> {
                &&& p.len() >= 1
                &&& p[0] == from
                &&& p.last() == to
                &&& forall|i: int| 0 <= i < p.len() - 1 ==> linked(pages, #[trigger] p[i], p[i + 1])
                &&& forall|w: Seq<usize>| crate::walks::joins(g, w, a, b) ==> p.len() <= w.len()
            }
        }),
{
    let g = adjacency(pages);
    let a = position_of(pages, from) as usize;
    let b = position_of(pages, to) as usize;
    lemma_adjacency_well_formed(pages);
    crate::walks::lemma_shortest_path(g, a, b);
    if shortest_path(g, a, b) is Some {
        let r = shortest_path(g, a, b)->0;
        let p = paths_at(pages, r);
        assert(path_between(pages, from, to) == Some(p));
        assert(crate::walks::joins(g, r, a, b));
        assert forall|i: int| 0 <= i < p.len() - 1 implies linked(pages, #[trigger] p[i], p[i + 1]) by {
            assert(r[i] < pages.len() && r[i + 1] < pages.len());
            assert(g[r[i] as int].contains(r[i + 1]));
            lemma_edge_is_link(pages, pages[r[i] as int].links, r[i + 1] as int);
            assert(pages[r[i] as int].path == p[i]);
            assert(has_page(pages, p[i]));
            assert(position_of(pages, p[i]) == r[i]);
        }
    }
}

/// Whether the pages at the paths `ring` form a closed chain: each has one
/// link, to the next, and the last to the first.
pub open spec fn is_page_ring(pages: Seq<PageView>, ring: Seq<Seq<char>>) -> bool {
    &&& ring.len() >= 1
    &&& ring.no_duplicates()
    &&& forall|i: int| 0 <= i < ring.len() ==> has_page(pages, #[trigger] ring[i])
    &&& forall|i: int|
        0 <= i < ring.len() - 1 ==> pages[position_of(pages, #[trigger] ring[i])].links == seq![
            ring[i + 1],
        ]
    &&& pages[position_of(pages, ring.last())].links == seq![ring[0]]
}

/// The places of the pages at the paths `ring`.
pub open spec fn places_of(pages: Seq<PageView>, ring: Seq<Seq<char>>) -> Seq<usize> {
    Seq::new(ring.len(), |i: int| position_of(pages, ring[i]) as usize)
}

/// The one link of a page, where it leads to a page, is one link in the
/// graph of the pages.
proof fn lemma_resolved_one(pages: Seq<PageView>, target: Seq<char>)
    requires
        has_page(pages, target),
    ensures
        resolved(pages, seq![target]) == seq![position_of(pages, target) as usize],
{
    let links = seq![target];
    assert(links.drop_last() =~= Seq::<Seq<char>>::empty());
    assert(links.last() == target);
    assert(resolved(pages, Seq::<Seq<char>>::empty()) =~= Seq::<usize>::empty());
    assert(resolved(pages, links) =~= seq![position_of(pages, target) as usize]);
}

/// Where the pages form a closed chain, a search without a depth bound from
/// any page of the chain, breadth first or depth first, meets the pages of
/// the chain, each once, in the order of the chain, and no other page.
pub proof fn lemma_ring_traversal(pages: Seq<PageView>, ring: Seq<Seq<char>>, i: int)
    requires
        distinct_paths(pages),
        pages.len() <= usize::MAX,
        is_page_ring(pages, ring),
        0 <= i < ring.len(),
    ensures
        breadth_first_paths(pages, ring[i]) == ring.skip(i) + ring.take(i),
        depth_first_paths(pages, ring[i]) == ring.skip(i) + ring.take(i),
        breadth_first_paths(pages, ring[i]).len() == ring.len(),
        breadth_first_paths(pages, ring[i]).no_duplicates(),
{
    let g = adjacency(pages);
    let c = places_of(pages, ring);
    lemma_adjacency_well_formed(pages);
    assert forall|a: int| 0 <= a < c.len() implies (#[trigger] c[a]) < g.len() && pages[c[a] as int].path
        == ring[a] by {
        assert(has_page(pages, ring[a]));
    }
    assert forall|a: int, b: int| 0 <= a < c.len() && 0 <= b < c.len() && a != b implies c[a] != c[b] by {
        assert(pages[c[a] as int].path == ring[a]);
        assert(pages[c[b] as int].path == ring[b]);
    }
    assert forall|a: int| 0 <= a < c.len() - 1 implies g[(#[trigger] c[a]) as int] == seq![c[a + 1]] by {
        assert(pages[c[a] as int].path == ring[a]);
        assert(has_page(pages, ring[a + 1]));
        lemma_resolved_one(pages, ring[a + 1]);
        assert(pages[position_of(pages, ring[a])].links == seq![ring[a + 1]]);
    }
    assert(g[c.last() as int] == seq![c[0]]) by {
        assert(has_page(pages, ring[0]));
        lemma_resolved_one(pages, ring[0]);
        assert(c[c.len() - 1] == position_of(pages, ring.last()) as usize);
    }
    crate::walks::lemma_ring_search_from(g, c, i);
    let turned = c.skip(i) + c.take(i);
    crate::walks::lemma_ring_turned(g, c, i);
    crate::dfs::lemma_ring_dfs(g, turned);
    assert(c[i] == position_of(pages, ring[i]) as usize);
    assert(has_page(pages, ring[i]));
    assert(paths_at(pages, turned) =~= ring.skip(i) + ring.take(i)) by {
        assert forall|a: int| 0 <= a < turned.len() implies pages[turned[a] as int].path == (ring.skip(i)
            + ring.take(i))[a] by {
            if a < c.len() - i {
                assert(turned[a] == c[a + i]);
                assert(pages[c[a + i] as int].path == ring[a + i]);
            } else {
                assert(turned[a] == c[a - (c.len() - i)]);
                assert(pages[c[a - (c.len() - i)] as int].path == ring[a - (c.len() - i)]);
            }
        }
    }
    lemma_traversal_grows(pages, ring[i], 0, 0);
}

impl Graph {
    /// The places of the pages that `links` lead to.
    fn resolve(&self, links: &Vec<String>) -> (r: Vec<usize>)
        ensures
            r@ == resolved(self@, strs(links@)),
    {
        let ghost all = strs(links@);
        let mut r: Vec<usize> = Vec::new();
        let mut k: usize = 0;
        proof {
            assert(all.take(0) =~= Seq::<Seq<char>>::empty());
        }
        while k < links.len()
            invariant
                k <= links.len(),
                all == strs(links@),
                r@ == resolved(self@, all.take(k as int)),
            decreases links.len() - k,
        {
            proof {
                assert(all.take(k + 1).drop_last() =~= all.take(k as int));
                assert(all.take(k + 1).last() == links[k as int]@);
            }
            match self.position(links[k].as_str()) {
                Some(i) => {
                    r.push(i);
                },
                None => {},
            }
            k += 1;
        }
        proof {
            assert(all.take(links.len() as int) =~= all);
        }
        r
    }

    /// The graph of the pages: for each page, by its place, the places of
    /// the pages that it links to.
    pub fn adjacency_lists(&self) -> (adj: Vec<Vec<usize>>)
        ensures
            lists(adj@) == adjacency(self@),
            well_formed(lists(adj@)),
            adj.len() == self@.len(),
    {
        let pages = self.pages();
        let mut adj: Vec<Vec<usize>> = Vec::new();
        let mut i: usize = 0;
        while i < pages.len()
            invariant
                i <= pages.len(),
                page_views(pages@) == self@,
                adj.len() == i,
                forall|j: int| 0 <= j < i ==> (#[trigger] adj[j])@ == resolved(self@, self@[j].links),
            decreases pages.len() - i,
        {
            proof {
                assert(self@[i as int] == pages@[i as int]@);
            }
            let targets = self.resolve(&pages[i].links);
            adj.push(targets);
            i += 1;
        }
        proof {
            assert(lists(adj@) =~= adjacency(self@));
            lemma_adjacency_well_formed(self@);
        }
        adj
    }

    /// The paths of the pages at the places `nodes`.
    fn paths_of(&self, nodes: &Vec<usize>) -> (r: Vec<String>)
        requires
            all_below(nodes@, self@.len()),
        ensures
            strs(r@) == paths_at(self@, nodes@),
    {
        let pages = self.pages();
        let mut r: Vec<String> = Vec::new();
        let mut k: usize = 0;
        while k < nodes.len()
            invariant
                k <= nodes.len(),
                page_views(pages@) == self@,
                all_below(nodes@, self@.len()),
                r.len() == k,
                forall|j: int| 0 <= j < k ==> (#[trigger] r[j])@ == self@[nodes[j] as int].path,
            decreases nodes.len() - k,
        {
            let i = nodes[k];
            proof {
                assert(nodes@[k as int] < self@.len());
                assert(self@[i as int] == pages@[i as int]@);
            }
            r.push(pages[i].path.clone());
            k += 1;
        }
        proof {
            assert(strs(r@) =~= paths_at(self@, nodes@));
        }
        r
    }

    /// The pages that lie at most `max_depth` links away from the page at
    /// `start`, by their paths, in the order in which a breadth-first
    /// search meets them. Nothing where there is no page at `start`.
    pub fn traverse_from(&self, start: &str, max_depth: usize) -> (r: Vec<String>)
        ensures
            strs(r@) == traversal(self@, start@, max_depth as nat),
    {
        match self.position(start) {
            Some(s) => {
                let adj = self.adjacency_lists();
                let order = traverse(&adj, s, max_depth);
                proof {
                    lemma_explored_distinct(
                        adjacency(self@),
                        s,
                        frontier_end(adjacency(self@), s, max_depth as nat),
                    );
                }
                self.paths_of(&order)
            },
            None => {
                let r: Vec<String> = Vec::new();
                proof {
                    assert(strs(r@) =~= Seq::<Seq<char>>::empty());
                }
                r
            },
        }
    }

    /// The pages that can be reached from the page at `start`, by their
    /// paths, in the order in which a breadth-first search meets them.
    /// Nothing where there is no page at `start`.
    pub fn breadth_first_search(&self, start: &str) -> (r: Vec<String>)
        ensures
            strs(r@) == breadth_first_paths(self@, start@),
    {
        match self.position(start) {
            Some(s) => {
                let adj = self.adjacency_lists();
                let order = breadth_first(&adj, s);
                proof {
                    lemma_explored_distinct(adjacency(self@), s, self@.len());
                }
                self.paths_of(&order)
            },
            None => {
                let r: Vec<String> = Vec::new();
                proof {
                    assert(strs(r@) =~= Seq::<Seq<char>>::empty());
                }
                r
            },
        }
    }

    /// The pages that can be reached from the page at `start`, by their
    /// paths, in the order in which a depth-first search visits them.
    /// Nothing where there is no page at `start`.
    pub fn depth_first_search(&self, start: &str) -> (r: Vec<String>)
        ensures
            strs(r@) == depth_first_paths(self@, start@),
            strs(r@).no_duplicates(),
    {
        match self.position(start) {
            Some(s) => {
                let adj = self.adjacency_lists();
                let order = depth_first(&adj, s);
                proof {
                    lemma_paths_distinct(self@, order@);
                }
                self.paths_of(&order)
            },
            None => {
                let r: Vec<String> = Vec::new();
                proof {
                    assert(strs(r@) =~= Seq::<Seq<char>>::empty());
                }
                r
            },
        }
    }

    /// Whether the links between the pages form a cycle. A page that links
    /// to itself is a cycle; a link to no page is part of none.
    pub fn has_cycle(&self) -> (r: bool)
        ensures
            r == cyclic(adjacency(self@)),
    {
        let adj = self.adjacency_lists();
        has_cycle(&adj)
    }

    /// Whether the page at `from` has a link to `to`.
    pub fn has_edge(&self, from: &str, to: &str) -> (r: bool)
        ensures
            r == linked(self@, from@, to@),
    {
        match self.position(from) {
            Some(i) => {
                let pages = self.pages();
                proof {
                    assert(self@[i as int] == pages@[i as int]@);
                }
                let target = to.to_owned();
                holds(&pages[i].links, &target)
            },
            None => false,
        }
    }

    /// The orphans: the pages that link to nothing and that nothing links
    /// to, by their paths.
    pub fn find_orphan_pages(&self) -> (r: Vec<String>)
        ensures
            strs(r@) == selected(
                self@,
                |p: PageView| p.links.len() == 0 && sources_of(self@, p.path).len() == 0,
            ),
    {
        let ghost keep = |p: PageView| p.links.len() == 0 && sources_of(self@, p.path).len() == 0;
        let pages = self.pages();
        let ghost all = self@;
        let mut r: Vec<String> = Vec::new();
        let mut i: usize = 0;
        proof {
            assert(all.take(0) =~= Seq::<PageView>::empty());
            assert(strs(r@) =~= Seq::<Seq<char>>::empty());
        }
        while i < pages.len()
            invariant
                i <= pages.len(),
                all == self@,
                page_views(pages@) == all,
                keep == |p: PageView| p.links.len() == 0 && sources_of(self@, p.path).len() == 0,
                strs(r@) == selected(all.take(i as int), keep),
            decreases pages.len() - i,
        {
            let page = &pages[i];
            proof {
                assert(all.take(i + 1).drop_last() =~= all.take(i as int));
                assert(all.take(i + 1).last() == page@);
                assert(all[i as int] == page@);
            }
            let lonely = page.links.len() == 0 && self.backlink_count(page.path.as_str()) == 0;
            proof {
                assert(lonely == keep(page@));
            }
            if lonely {
                proof {
                    assert(strs(r@.push(page.path)) =~= strs(r@).push(page@.path));
                }
                r.push(page.path.clone());
            }
            i += 1;
        }
        proof {
            assert(all.take(pages.len() as int) =~= all);
        }
        r
    }

    /// The pages that lie under `namespace`, by their paths.
    pub fn get_namespace_pages(&self, namespace: &str) -> (r: Vec<String>)
        ensures
            strs(r@) == selected(self@, |p: PageView| in_namespace(p.path, namespace@)),
    {
        let ghost keep = |p: PageView| in_namespace(p.path, namespace@);
        let pages = self.pages();
        let ghost all = self@;
        let mut r: Vec<String> = Vec::new();
        let mut i: usize = 0;
        proof {
            assert(all.take(0) =~= Seq::<PageView>::empty());
            assert(strs(r@) =~= Seq::<Seq<char>>::empty());
        }
        while i < pages.len()
            invariant
                i <= pages.len(),
                all == self@,
                page_views(pages@) == all,
                keep == |p: PageView| in_namespace(p.path, namespace@),
                strs(r@) == selected(all.take(i as int), keep),
            decreases pages.len() - i,
        {
            let page = &pages[i];
            proof {
                assert(all.take(i + 1).drop_last() =~= all.take(i as int));
                assert(all.take(i + 1).last() == page@);
            }
            if is_in_namespace(page.path.as_str(), namespace) {
                proof {
                    assert(strs(r@.push(page.path)) =~= strs(r@).push(page@.path));
                }
                r.push(page.path.clone());
            }
            i += 1;
        }
        proof {
            assert(all.take(pages.len() as int) =~= all);
        }
        r
    }

    /// The pages that carry `tag`, by their paths.
    pub fn filter_by_tag(&self, tag: &str) -> (r: Vec<String>)
        ensures
            strs(r@) == selected(self@, |p: PageView| p.tags.contains(tag@)),
    {
        let ghost keep = |p: PageView| p.tags.contains(tag@);
        let pages = self.pages();
        let ghost all = self@;
        let wanted = tag.to_owned();
        let mut r: Vec<String> = Vec::new();
        let mut i: usize = 0;
        proof {
            assert(all.take(0) =~= Seq::<PageView>::empty());
            assert(strs(r@) =~= Seq::<Seq<char>>::empty());
        }
        while i < pages.len()
            invariant
                i <= pages.len(),
                all == self@,
                page_views(pages@) == all,
                wanted@ == tag@,
                keep == |p: PageView| p.tags.contains(tag@),
                strs(r@) == selected(all.take(i as int), keep),
            decreases pages.len() - i,
        {
            let page = &pages[i];
            proof {
                assert(all.take(i + 1).drop_last() =~= all.take(i as int));
                assert(all.take(i + 1).last() == page@);
            }
            if holds(&page.tags, &wanted) {
                proof {
                    assert(strs(r@.push(page.path)) =~= strs(r@).push(page@.path));
                }
                r.push(page.path.clone());
            }
            i += 1;
        }
        proof {
            assert(all.take(pages.len() as int) =~= all);
        }
        r
    }

    /// The public pages, by their paths.
    pub fn filter_public_only(&self) -> (r: Vec<String>)
        ensures
            strs(r@) == selected(self@, |p: PageView| is_public(p)),
    {
        let ghost keep = |p: PageView| is_public(p);
        let pages = self.pages();
        let ghost all = self@;
        let yes = String::from_str("true");
        let mut r: Vec<String> = Vec::new();
        let mut i: usize = 0;
        proof {
            assert(all.take(0) =~= Seq::<PageView>::empty());
            assert(strs(r@) =~= Seq::<Seq<char>>::empty());
        }
        while i < pages.len()
            invariant
                i <= pages.len(),
                all == self@,
                page_views(pages@) == all,
                yes@ == "true"@,
                keep == |p: PageView| is_public(p),
                strs(r@) == selected(all.take(i as int), keep),
            decreases pages.len() - i,
        {
            let page = &pages[i];
            proof {
                assert(all.take(i + 1).drop_last() =~= all.take(i as int));
                assert(all.take(i + 1).last() == page@);
            }
            let public = match page.properties.get("public") {
                Some(v) => *v == yes,
                None => false,
            };
            if public {
                proof {
                    assert(strs(r@.push(page.path)) =~= strs(r@).push(page@.path));
                }
                r.push(page.path.clone());
            }
            i += 1;
        }
        proof {
            assert(all.take(pages.len() as int) =~= all);
        }
        r
    }

    /// The shortest way from the page at `from` to the page at `to`, by the
    /// paths of the pages on it. None where one of the pages is missing or
    /// no way leads from the one to the other.
    pub fn find_shortest_path(&self, from: &str, to: &str) -> (r: Option<Vec<String>>)
        ensures
            match r {
                Some(p) => path_between(self@, from@, to@) == Some(strs(p@)),
                None => path_between(self@, from@, to@) is None,
            },
    {
        let a = match self.position(from) {
            Some(a) => a,
            None => {
                return None;
            },
        };
        let b = match self.position(to) {
            Some(b) => b,
            None => {
                return None;
            },
        };
        let adj = self.adjacency_lists();
        match find_path(&adj, a, b) {
            Some(p) => {
                proof {
                    crate::walks::lemma_shortest_path(adjacency(self@), a, b);
                }
                Some(self.paths_of(&p))
            },
            None => None,
        }
    }
}

} // verus!
