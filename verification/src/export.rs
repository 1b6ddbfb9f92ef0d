//! What a page graph hands to whoever draws or stores it: its nodes and its
//! links, as plain lists.

use crate::graph::{page_views, Graph};
use crate::parser::{clone_strings, PageView};
use crate::text::strs;
use vstd::prelude::*;

verus! {

/// One page as a node of the graph: its path, its title and its tags.
#[derive(Debug)]
pub struct GraphNode {
    pub path: String,
    pub title: String,
    pub tags: Vec<String>,
}

/// What a node holds, as mathematical values.
pub struct GraphNodeView {
    pub path: Seq<char>,
    pub title: Seq<char>,
    pub tags: Seq<Seq<char>>,
}

impl View for GraphNode {
    type V = GraphNodeView;

    open spec fn view(&self) -> GraphNodeView {
        GraphNodeView { path: self.path@, title: self.title@, tags: strs(self.tags@) }
    }
}

/// The views of a sequence of nodes.
pub open spec fn node_views(s: Seq<GraphNode>) -> Seq<GraphNodeView> {
    Seq::new(s.len(), |i: int| s[i]@)
}

/// The views of a sequence of links, each from a path to a target.
pub open spec fn edge_views(s: Seq<(String, String)>) -> Seq<(Seq<char>, Seq<char>)> {
    Seq::new(s.len(), |i: int| (s[i].0@, s[i].1@))
}

/// The nodes of the pages: one for each page, in the order of the pages.
pub open spec fn nodes_of(pages: Seq<PageView>) -> Seq<GraphNodeView> {
    Seq::new(
        pages.len(),
        |i: int| GraphNodeView { path: pages[i].path, title: pages[i].title, tags: pages[i].tags },
    )
}

/// The links of one page, each from the path of the page to a target.
pub open spec fn edges_from(path: Seq<char>, links: Seq<Seq<char>>) -> Seq<(Seq<char>, Seq<char>)> {
    Seq::new(links.len(), |k: int| (path, links[k]))
}

/// The links of the pages: those of each page in their order, in the order
/// of the pages. A link whose target is no page is a link as well.
pub open spec fn edges_of(pages: Seq<PageView>) -> Seq<(Seq<char>, Seq<char>)>
    decreases pages.len(),
{
    if pages.len() == 0 {
        Seq::empty()
    } else {
        edges_of(pages.drop_last()) + edges_from(pages.last().path, pages.last().links)
    }
}

impl Graph {
    /// The nodes of the graph.
    pub fn nodes(&self) -> (r: Vec<GraphNode>)
        ensures
            node_views(r@) == nodes_of(self@),
    {
        let pages = self.pages();
        let mut r: Vec<GraphNode> = Vec::new();
        let mut i: usize = 0;
        while i < pages.len()
            invariant
                i <= pages.len(),
                page_views(pages@) == self@,
                r.len() == i,
                forall|j: int| 0 <= j < i ==> (#[trigger] r[j])@ == nodes_of(self@)[j],
            decreases pages.len() - i,
        {
            let page = &pages[i];
            proof {
                assert(self@[i as int] == page@);
            }
            r.push(
                GraphNode {
                    path: page.path.clone(),
                    title: page.title.clone(),
                    tags: clone_strings(&page.tags),
                },
            );
            i += 1;
        }
        proof {
            assert(node_views(r@) =~= nodes_of(self@));
        }
        r
    }

    /// The links of the graph.
    pub fn edges(&self) -> (r: Vec<(String, String)>)
        ensures
            edge_views(r@) == edges_of(self@),
    {
        let pages = self.pages();
        let ghost all = self@;
        let mut r: Vec<(String, String)> = Vec::new();
        let mut i: usize = 0;
        proof {
            assert(all.take(0) =~= Seq::<PageView>::empty());
            assert(edge_views(r@) =~= edges_of(all.take(0)));
        }
        while i < pages.len()
            invariant
                i <= pages.len(),
                all == self@,
                page_views(pages@) == all,
                edge_views(r@) == edges_of(all.take(i as int)),
            decreases pages.len() - i,
        {
            let page = &pages[i];
            let ghost before = edge_views(r@);
            let ghost here = edges_from(page@.path, page@.links);
            proof {
                assert(all.take(i + 1).drop_last() =~= all.take(i as int));
                assert(all.take(i + 1).last() == page@);
                assert(before + here.take(0) =~= before);
            }
            let mut k: usize = 0;
            while k < page.links.len()
                invariant
                    k <= page.links.len(),
                    here == edges_from(page@.path, page@.links),
                    edge_views(r@) == before + here.take(k as int),
                decreases page.links.len() - k,
            {
                proof {
                    assert(edge_views(r@.push((page.path, page.links[k as int]))) =~= edge_views(r@).push(
                        (page@.path, page@.links[k as int]),
                    ));
                    assert((before + here.take(k as int)).push(here[k as int]) =~= before + here.take(
                        k + 1,
                    ));
                }
                r.push((page.path.clone(), page.links[k].clone()));
                k += 1;
            }
            proof {
                assert(here.take(page.links.len() as int) =~= here);
            }
            i += 1;
        }
        proof {
            assert(all.take(pages.len() as int) =~= all);
        }
        r
    }
}

} // verus!
