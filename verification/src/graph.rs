//! The page graph: the pages of a collection of notes, each under its path,
//! and for each link target the pages that link to it.

use crate::parser::{block_views, clone_strings, forest_size, lemma_block_view_children, Block, BlockView, Page, PageView};
use crate::text::strs;
use vstd::hash_map::StringHashMap;
use vstd::prelude::*;

verus! {

/// The views of a sequence of pages.
pub open spec fn page_views(s: Seq<Page>) -> Seq<PageView> {
    Seq::new(s.len(), |i: int| s[i]@)
}

/// No two pages share a path.
pub open spec fn distinct_paths(pages: Seq<PageView>) -> bool {
    forall|i: int, j: int|
        0 <= i < j < pages.len() ==> (#[trigger] pages[i]).path != (#[trigger] pages[j]).path
}

/// Whether there is a page at `path`.
pub open spec fn has_page(pages: Seq<PageView>, path: Seq<char>) -> bool {
    exists|i: int| 0 <= i < pages.len() && (#[trigger] pages[i]).path == path
}

/// Where the page at `path` stands.
pub open spec fn position_of(pages: Seq<PageView>, path: Seq<char>) -> int {
    choose|i: int| 0 <= i < pages.len() && (#[trigger] pages[i]).path == path
}

/// The pages after `page` was added: it stands in place of the page that had
/// its path, or at the end where no page had it.
pub open spec fn with_page(pages: Seq<PageView>, page: PageView) -> Seq<PageView> {
    if has_page(pages, page.path) {
        pages.update(position_of(pages, page.path), page)
    } else {
        pages.push(page)
    }
}

/// `source`, once for each occurrence of `target` among `links`.
pub open spec fn mentions(links: Seq<Seq<char>>, target: Seq<char>, source: Seq<char>) -> Seq<
    Seq<char>,
>
    decreases links.len(),
{
    if links.len() == 0 {
        Seq::empty()
    } else if links.last() == target {
        mentions(links.drop_last(), target, source).push(source)
    } else {
        mentions(links.drop_last(), target, source)
    }
}

/// The backlinks of `target`: the paths of the pages that link to it, in the
/// order of the pages, each once for each of its links to `target`.
pub open spec fn sources_of(pages: Seq<PageView>, target: Seq<char>) -> Seq<Seq<char>>
    decreases pages.len(),
{
    if pages.len() == 0 {
        Seq::empty()
    } else {
        sources_of(pages.drop_last(), target) + mentions(
            pages.last().links,
            target,
            pages.last().path,
        )
    }
}

/// How often `x` occurs in `s`.
pub open spec fn count_of(s: Seq<Seq<char>>, x: Seq<char>) -> nat
    decreases s.len(),
{
    if s.len() == 0 {
        0
    } else {
        count_of(s.drop_last(), x) + if s.last() == x {
            1nat
        } else {
            0nat
        }
    }
}

/// Counting in two sequences, one behind the other.
pub proof fn lemma_count_append(a: Seq<Seq<char>>, b: Seq<Seq<char>>, x: Seq<char>)
    ensures
        count_of(a + b, x) == count_of(a, x) + count_of(b, x),
    decreases b.len(),
{
    if b.len() == 0 {
        assert(a + b =~= a);
    } else {
        assert((a + b).drop_last() =~= a + b.drop_last());
        lemma_count_append(a, b.drop_last(), x);
    }
}

/// The mentions of a page hold its path as often as its links hold the
/// target, and no other path.
pub proof fn lemma_count_mentions(links: Seq<Seq<char>>, target: Seq<char>, source: Seq<char>, x: Seq<char>)
    ensures
        count_of(mentions(links, target, source), x) == if x == source {
            count_of(links, target)
        } else {
            0
        },
    decreases links.len(),
{
    if links.len() > 0 {
        lemma_count_mentions(links.drop_last(), target, source, x);
        if links.last() == target {
            assert(mentions(links, target, source).drop_last() =~= mentions(
                links.drop_last(),
                target,
                source,
            ));
        }
    }
}

/// The backlinks of a target hold no path that no page has.
pub proof fn lemma_count_absent(pages: Seq<PageView>, target: Seq<char>, x: Seq<char>)
    requires
        !has_page(pages, x),
    ensures
        count_of(sources_of(pages, target), x) == 0,
    decreases pages.len(),
{
    if pages.len() > 0 {
        let init = pages.drop_last();
        assert(!has_page(init, x)) by {
            if has_page(init, x) {
                let i = choose|i: int| 0 <= i < init.len() && (#[trigger] init[i]).path == x;
                assert(pages[i].path == x);
            }
        }
        lemma_count_absent(init, target, x);
        assert(pages[pages.len() - 1].path != x);
        lemma_count_mentions(pages.last().links, target, pages.last().path, x);
        lemma_count_append(
            sources_of(init, target),
            mentions(pages.last().links, target, pages.last().path),
            x,
        );
    }
}

/// The backlinks of a target hold the path of each page once for each link
/// of that page to the target.
pub proof fn lemma_backlinks_once_per_link(pages: Seq<PageView>, i: int, target: Seq<char>)
    requires
        distinct_paths(pages),
        0 <= i < pages.len(),
    ensures
        count_of(sources_of(pages, target), pages[i].path) == count_of(pages[i].links, target),
    decreases pages.len(),
{
    let init = pages.drop_last();
    let last = pages.last();
    let x = pages[i].path;
    lemma_count_append(sources_of(init, target), mentions(last.links, target, last.path), x);
    lemma_count_mentions(last.links, target, last.path, x);
    if i == pages.len() - 1 {
        assert(!has_page(init, x)) by {
            if has_page(init, x) {
                let j = choose|j: int| 0 <= j < init.len() && (#[trigger] init[j]).path == x;
                assert(pages[j].path == pages[i].path);
            }
        }
        lemma_count_absent(init, target, x);
    } else {
        assert(init[i] == pages[i]);
        assert(distinct_paths(init)) by {
            assert forall|a: int, b: int| 0 <= a < b < init.len() implies (#[trigger] init[a]).path != (
            #[trigger] init[b]).path by {
                assert(pages[a].path != pages[b].path);
            }
        }
        lemma_backlinks_once_per_link(init, i, target);
        assert(pages[i].path != pages[pages.len() - 1].path);
    }
}

/// The pages after each of `added` was added in its order.
pub open spec fn with_pages(pages: Seq<PageView>, added: Seq<PageView>) -> Seq<PageView>
    decreases added.len(),
{
    if added.len() == 0 {
        pages
    } else {
        with_page(with_pages(pages, added.drop_last()), added.last())
    }
}

/// Adding pages with distinct paths to no pages gives these pages, in their
/// order: a graph that is built anew from its pages is the same graph.
pub proof fn lemma_with_pages_distinct(added: Seq<PageView>)
    requires
        distinct_paths(added),
    ensures
        with_pages(Seq::empty(), added) == added,
    decreases added.len(),
{
    if added.len() > 0 {
        let init = added.drop_last();
        assert(distinct_paths(init)) by {
            assert forall|a: int, b: int| 0 <= a < b < init.len() implies (#[trigger] init[a]).path != (
            #[trigger] init[b]).path by {
                assert(added[a].path != added[b].path);
            }
        }
        lemma_with_pages_distinct(init);
        assert(!has_page(init, added.last().path)) by {
            if has_page(init, added.last().path) {
                let i = choose|i: int| 0 <= i < init.len() && (#[trigger] init[i]).path == added.last().path;
                assert(added[i].path == added[added.len() - 1].path);
            }
        }
        assert(init.push(added.last()) =~= added);
    }
}

/// The number of links of all pages together.
pub open spec fn total_links(pages: Seq<PageView>) -> nat
    decreases pages.len(),
{
    if pages.len() == 0 {
        0
    } else {
        total_links(pages.drop_last()) + pages.last().links.len()
    }
}

/// The number of blocks of all pages together, nested blocks included.
pub open spec fn total_blocks(pages: Seq<PageView>) -> nat
    decreases pages.len(),
{
    if pages.len() == 0 {
        0
    } else {
        total_blocks(pages.drop_last()) + forest_size(pages.last().blocks)
    }
}

/// A page is an orphan when it links to nothing and nothing links to it.
pub open spec fn is_orphan(pages: Seq<PageView>, i: int) -> bool {
    pages[i].links.len() == 0 && sources_of(pages, pages[i].path).len() == 0
}

/// The number of orphans among the first `n` pages.
pub open spec fn orphans_among(pages: Seq<PageView>, n: nat) -> nat
    decreases n,
{
    if n == 0 {
        0
    } else {
        orphans_among(pages, (n - 1) as nat) + if is_orphan(pages, n - 1) {
            1nat
        } else {
            0nat
        }
    }
}

/// A count as a machine number: itself where it fits, the largest machine
/// number where it does not.
pub open spec fn clamped(n: nat) -> usize {
    if n > usize::MAX {
        usize::MAX
    } else {
        n as usize
    }
}

/// The sum of two machine numbers, or the largest machine number where the
/// sum does not fit.
pub fn add_clamped(a: usize, b: usize) -> (r: usize)
    ensures
        r == clamped((a + b) as nat),
        forall|x: nat, y: nat|
            a == #[trigger] clamped(x) && b == #[trigger] clamped(y) ==> r == clamped(x + y),
{
    if a > usize::MAX - b {
        usize::MAX
    } else {
        a + b
    }
}

/// The number of blocks in `blocks`, nested blocks included; the largest
/// machine number where the count does not fit.
pub fn count_blocks(blocks: &Vec<Block>) -> (r: usize)
    ensures
        r == clamped(forest_size(block_views(blocks@))),
    decreases blocks,
{
    let ghost all = block_views(blocks@);
    let mut total: usize = 0;
    let mut i: usize = 0;
    proof {
        assert(all.take(0) =~= Seq::<BlockView>::empty());
    }
    while i < blocks.len()
        invariant
            i <= blocks.len(),
            all == block_views(blocks@),
            total == clamped(forest_size(all.take(i as int))),
        decreases blocks.len() - i,
    {
        let below = count_blocks(&blocks[i].children);
        proof {
            lemma_block_view_children(blocks@[i as int]);
            assert(all.take(i + 1).drop_last() =~= all.take(i as int));
            assert(all.take(i + 1).last() == blocks@[i as int]@);
        }
        let here = add_clamped(1, below);
        total = add_clamped(total, here);
        i += 1;
    }
    proof {
        assert(all.take(blocks.len() as int) =~= all);
    }
    total
}

/// What a backlink index holds for `target`.
pub open spec fn index_lookup(index: Map<Seq<char>, Vec<String>>, target: Seq<char>) -> Seq<
    Seq<char>,
> {
    if index.contains_key(target) {
        strs(index[target]@)
    } else {
        Seq::empty()
    }
}

/// Adds the links of one page to a backlink index.
fn index_links(index: &mut StringHashMap<Vec<String>>, page: &Page)
    ensures
        forall|t: Seq<char>| #[trigger]
            index_lookup(final(index)@, t) == index_lookup(old(index)@, t) + mentions(
                page@.links,
                t,
                page@.path,
            ),
{
    let ghost start = index@;
    let ghost links = page@.links;
    let ghost path = page@.path;
    let mut k: usize = 0;
    proof {
        assert forall|t: Seq<char>| #[trigger]
            index_lookup(index@, t) == index_lookup(start, t) + mentions(links.take(0), t, path) by {
            assert(links.take(0) =~= Seq::<Seq<char>>::empty());
            assert(index_lookup(start, t) + Seq::<Seq<char>>::empty() =~= index_lookup(start, t));
        }
    }
    while k < page.links.len()
        invariant
            k <= page.links.len(),
            links == page@.links,
            path == page@.path,
            forall|t: Seq<char>| #[trigger]
                index_lookup(index@, t) == index_lookup(start, t) + mentions(
                    links.take(k as int),
                    t,
                    path,
                ),
        decreases page.links.len() - k,
    {
        let ghost before = index@;
        let link = &page.links[k];
        let mut list: Vec<String> = match index.get(link.as_str()) {
            Some(l) => clone_strings(l),
            None => Vec::new(),
        };
        proof {
            assert(strs(list@) =~= index_lookup(before, link@));
            assert(strs(list@.push(page.path)) =~= strs(list@).push(path));
        }
        list.push(page.path.clone());
        index.insert(link.clone(), list);
        proof {
            assert(links.take(k + 1).drop_last() =~= links.take(k as int));
            assert(links.take(k + 1).last() == link@);
            assert forall|t: Seq<char>| #[trigger]
                index_lookup(index@, t) == index_lookup(start, t) + mentions(
                    links.take(k + 1),
                    t,
                    path,
                ) by {
                let sofar = mentions(links.take(k as int), t, path);
                assert(index_lookup(before, t) == index_lookup(start, t) + sofar);
                if t == link@ {
                    assert(index_lookup(index@, t) =~= index_lookup(before, t).push(path));
                    assert((index_lookup(start, t) + sofar).push(path) =~= index_lookup(start, t)
                        + sofar.push(path));
                } else {
                    assert(index_lookup(index@, t) == index_lookup(before, t));
                }
            }
        }
        k += 1;
    }
    proof {
        assert(links.take(page.links.len() as int) =~= links);
    }
}

/// The backlink index of `pages`.
fn build_index(pages: &Vec<Page>) -> (index: StringHashMap<Vec<String>>)
    ensures
        forall|t: Seq<char>| #[trigger]
            index_lookup(index@, t) == sources_of(page_views(pages@), t),
{
    let ghost all = page_views(pages@);
    let mut index: StringHashMap<Vec<String>> = StringHashMap::new();
    let mut i: usize = 0;
    proof {
        assert(all.take(0) =~= Seq::<PageView>::empty());
    }
    while i < pages.len()
        invariant
            i <= pages.len(),
            all == page_views(pages@),
            forall|t: Seq<char>| #[trigger]
                index_lookup(index@, t) == sources_of(all.take(i as int), t),
        decreases pages.len() - i,
    {
        let ghost before = index@;
        index_links(&mut index, &pages[i]);
        proof {
            assert(all.take(i + 1).drop_last() =~= all.take(i as int));
            assert(all.take(i + 1).last() == pages@[i as int]@);
            assert forall|t: Seq<char>| #[trigger]
                index_lookup(index@, t) == sources_of(all.take(i + 1), t) by {
                assert(index_lookup(before, t) == sources_of(all.take(i as int), t));
            }
        }
        i += 1;
    }
    proof {
        assert(all.take(pages.len() as int) =~= all);
    }
    index
}

/// Counts of what a graph holds.
#[derive(Debug)]
pub struct GraphStats {
    pub page_count: usize,
    pub total_blocks: usize,
    pub total_links: usize,
    pub orphan_pages: usize,
}

/// The pages of a collection of notes, each under its path, with an index of
/// the pages that link to each target. No two pages have the same path, and
/// the index always holds the backlinks of the pages that the graph holds.
pub struct Graph {
    pages: Vec<Page>,
    by_path: StringHashMap<usize>,
    backlinks: StringHashMap<Vec<String>>,
}

impl View for Graph {
    type V = Seq<PageView>;

    closed spec fn view(&self) -> Seq<PageView> {
        page_views(self.pages@)
    }
}

/// Whether `by_path` leads from each path to the page that has it.
pub open spec fn finds_pages(by_path: Map<Seq<char>, usize>, pages: Seq<PageView>) -> bool {
    &&& forall|p: Seq<char>| #[trigger]
        by_path.contains_key(p) ==> by_path[p] < pages.len() && pages[by_path[p] as int].path == p
    &&& forall|i: int| 0 <= i < pages.len() ==> by_path.contains_key((#[trigger] pages[i]).path)
}

/// Whether `index` holds for each target its backlinks among `pages`.
pub open spec fn holds_backlinks(index: Map<Seq<char>, Vec<String>>, pages: Seq<PageView>) -> bool {
    forall|t: Seq<char>| #[trigger] index_lookup(index, t) == sources_of(pages, t)
}

impl Default for Graph {
    /// The graph without pages.
    fn default() -> (g: Graph)
        ensures
            g@ == Seq::<PageView>::empty(),
    {
        Graph::new()
    }
}

impl Graph {
    #[verifier::type_invariant]
    spec fn well_formed(&self) -> bool {
        &&& distinct_paths(self@)
        &&& finds_pages(self.by_path@, self@)
        &&& holds_backlinks(self.backlinks@, self@)
    }

    /// The graph without pages.
    pub fn new() -> (g: Graph)
        ensures
            g@ == Seq::<PageView>::empty(),
    {
        let g = Graph { pages: Vec::new(), by_path: StringHashMap::new(), backlinks: StringHashMap::new() };
        proof {
            assert(g@ =~= Seq::<PageView>::empty());
        }
        g
    }

    /// The graph that holds `pages`, added in their order. Built from the
    /// pages of a graph, it is that graph again.
    pub fn from_pages(pages: Vec<Page>) -> (g: Graph)
        ensures
            g@ == with_pages(Seq::empty(), page_views(pages@)),
            distinct_paths(page_views(pages@)) ==> g@ == page_views(pages@),
    {
        let ghost all = page_views(pages@);
        let mut rest = pages;
        let mut turned: Vec<Page> = Vec::new();
        while rest.len() > 0
            invariant
                rest.len() + turned.len() == all.len(),
                forall|j: int| 0 <= j < rest.len() ==> (#[trigger] rest[j])@ == all[j],
                forall|j: int| 0 <= j < turned.len() ==> (#[trigger] turned[j])@ == all[all.len() - 1 - j],
            decreases rest.len(),
        {
            let page = rest.pop().unwrap();
            turned.push(page);
        }
        let mut g = Graph::new();
        proof {
            assert(all.take(0) =~= Seq::<PageView>::empty());
        }
        while turned.len() > 0
            invariant
                turned.len() <= all.len(),
                forall|j: int| 0 <= j < turned.len() ==> (#[trigger] turned[j])@ == all[all.len() - 1 - j],
                g@ == with_pages(Seq::empty(), all.take(all.len() - turned.len())),
            decreases turned.len(),
        {
            let ghost k = all.len() - turned.len();
            let page = turned.pop().unwrap();
            proof {
                assert(all.take(k + 1).drop_last() =~= all.take(k));
                assert(all.take(k + 1).last() == page@);
            }
            g.add_page(page);
        }
        proof {
            assert(all.take(all.len() as int) =~= all);
            if distinct_paths(all) {
                lemma_with_pages_distinct(all);
            }
        }
        g
    }

    /// Adds `page`, in place of the page that had its path if there was one.
    /// The backlinks follow: they are those of the pages that the graph
    /// holds afterwards.
    pub fn add_page(&mut self, page: Page)
        ensures
            final(self)@ == with_page(old(self)@, page@),
            distinct_paths(final(self)@),
    {
        proof {
            use_type_invariant(&*self);
        }
        let ghost before = self@;
        let mut taken = Graph::new();
        std::mem::swap(self, &mut taken);
        let mut pages = taken.pages;
        let mut by_path = taken.by_path;
        let mut backlinks = taken.backlinks;
        let found: Option<usize> = match by_path.get(page.path.as_str()) {
            Some(i) => Some(*i),
            None => None,
        };
        match found {
            Some(i) => {
                proof {
                    assert(before[i as int].path == page@.path);
                    assert(has_page(before, page@.path));
                    assert(position_of(before, page@.path) == i);
                    assert(page_views(pages@.update(i as int, page)) =~= before.update(i as int, page@));
                }
                pages.set(i, page);
                backlinks = build_index(&pages);
            },
            None => {
                proof {
                    assert(!has_page(before, page@.path));
                    assert(page_views(pages@.push(page)) =~= before.push(page@));
                    assert(before.push(page@).drop_last() =~= before);
                }
                by_path.insert(page.path.clone(), pages.len());
                index_links(&mut backlinks, &page);
                pages.push(page);
            },
        }
        *self = Graph { pages, by_path, backlinks };
    }

    /// The page at `path`.
    pub fn get_page(&self, path: &str) -> (r: Option<&Page>)
        ensures
            match r {
                Some(page) => has_page(self@, path@) && page@ == self@[position_of(self@, path@)],
                None => !has_page(self@, path@),
            },
    {
        proof {
            use_type_invariant(self);
        }
        match self.by_path.get(path) {
            Some(i) => {
                proof {
                    assert(self@[*i as int].path == path@);
                    assert(position_of(self@, path@) == *i);
                }
                Some(&self.pages[*i])
            },
            None => None,
        }
    }

    /// Where the page at `path` stands among the pages.
    pub fn position(&self, path: &str) -> (r: Option<usize>)
        ensures
            match r {
                Some(i) => has_page(self@, path@) && i == position_of(self@, path@) && i < self@.len(),
                None => !has_page(self@, path@),
            },
            distinct_paths(self@),
    {
        proof {
            use_type_invariant(self);
        }
        match self.by_path.get(path) {
            Some(i) => {
                proof {
                    assert(self@[*i as int].path == path@);
                    assert(position_of(self@, path@) == *i);
                }
                Some(*i)
            },
            None => None,
        }
    }

    /// The backlinks of `path`: the paths of the pages that link to it.
    pub fn get_backlinks(&self, path: &str) -> (r: Vec<String>)
        ensures
            strs(r@) == sources_of(self@, path@),
    {
        proof {
            use_type_invariant(self);
            assert(index_lookup(self.backlinks@, path@) == sources_of(self@, path@));
        }
        match self.backlinks.get(path) {
            Some(list) => clone_strings(list),
            None => {
                let r: Vec<String> = Vec::new();
                proof {
                    assert(strs(r@) =~= Seq::<Seq<char>>::empty());
                }
                r
            },
        }
    }

    /// The number of backlinks of `path`.
    pub fn backlink_count(&self, path: &str) -> (r: usize)
        ensures
            r == sources_of(self@, path@).len(),
    {
        proof {
            use_type_invariant(self);
            assert(index_lookup(self.backlinks@, path@) == sources_of(self@, path@));
        }
        match self.backlinks.get(path) {
            Some(list) => list.len(),
            None => 0,
        }
    }

    /// The number of pages.
    pub fn page_count(&self) -> (r: usize)
        ensures
            r == self@.len(),
    {
        self.pages.len()
    }

    /// The pages, in the order in which their paths were first added.
    pub fn pages(&self) -> (r: &Vec<Page>)
        ensures
            page_views(r@) == self@,
            distinct_paths(self@),
    {
        proof {
            use_type_invariant(self);
        }
        &self.pages
    }

    /// Whether the page at place `i` is an orphan.
    fn is_orphan_at(&self, i: usize) -> (r: bool)
        requires
            i < self@.len(),
        ensures
            r == is_orphan(self@, i as int),
    {
        proof {
            use_type_invariant(self);
        }
        let page = &self.pages[i];
        proof {
            assert(self@[i as int] == page@);
            assert(index_lookup(self.backlinks@, page.path@) == sources_of(self@, page.path@));
        }
        if page.links.len() > 0 {
            return false;
        }
        match self.backlinks.get(page.path.as_str()) {
            Some(list) => list.len() == 0,
            None => true,
        }
    }

    /// The counts of pages, blocks, links and orphans. A count that does not
    /// fit a machine number is given as the largest machine number.
    pub fn stats(&self) -> (r: GraphStats)
        ensures
            r.page_count == self@.len(),
            r.total_blocks == clamped(total_blocks(self@)),
            r.total_links == clamped(total_links(self@)),
            r.orphan_pages == orphans_among(self@, self@.len()),
    {
        let ghost all = self@;
        let mut blocks: usize = 0;
        let mut links: usize = 0;
        let mut orphans: usize = 0;
        let mut i: usize = 0;
        proof {
            assert(all.take(0) =~= Seq::<PageView>::empty());
        }
        while i < self.pages.len()
            invariant
                i <= self.pages.len(),
                all == self@,
                blocks == clamped(total_blocks(all.take(i as int))),
                links == clamped(total_links(all.take(i as int))),
                orphans == orphans_among(all, i as nat),
                orphans <= i,
            decreases self.pages.len() - i,
        {
            let page = &self.pages[i];
            proof {
                assert(all.take(i + 1).drop_last() =~= all.take(i as int));
                assert(all.take(i + 1).last() == page@);
                assert(all[i as int] == page@);
            }
            blocks = add_clamped(blocks, count_blocks(&page.blocks));
            links = add_clamped(links, page.links.len());
            if self.is_orphan_at(i) {
                orphans += 1;
            }
            i += 1;
        }
        proof {
            assert(all.take(self.pages.len() as int) =~= all);
        }
        GraphStats { page_count: self.pages.len(), total_blocks: blocks, total_links: links, orphan_pages: orphans }
    }
}

} // verus!
