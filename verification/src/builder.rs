//! Building a page graph from the texts of note files, and bringing it up to
//! date when some of them have changed.

use crate::errors::{PublishError, PublishErrorView};
use crate::graph::{with_page, Graph};
use crate::parser::{frontmatter_closed, page_of, parse_logseq_page, PageView};
use crate::text::lines_of;
use vstd::prelude::*;

verus! {

/// The views of files, each a path and a text.
pub open spec fn file_views(files: Seq<(String, String)>) -> Seq<(Seq<char>, Seq<char>)> {
    Seq::new(files.len(), |i: int| (files[i].0@, files[i].1@))
}

/// The views of errors.
pub open spec fn error_views(errors: Seq<PublishError>) -> Seq<PublishErrorView> {
    Seq::new(errors.len(), |i: int| errors[i]@)
}

/// Whether the text of a file can be parsed.
pub open spec fn parses(file: (Seq<char>, Seq<char>)) -> bool {
    frontmatter_closed(lines_of(file.1))
}

/// The pages after the files were read in their order: the page of each
/// file that can be parsed is added, in place of the page that had its path;
/// a file that cannot be parsed changes nothing.
pub open spec fn folded(pages: Seq<PageView>, files: Seq<(Seq<char>, Seq<char>)>) -> Seq<PageView>
    decreases files.len(),
{
    if files.len() == 0 {
        pages
    } else if parses(files.last()) {
        with_page(folded(pages, files.drop_last()), page_of(files.last().1, files.last().0))
    } else {
        folded(pages, files.drop_last())
    }
}

/// The errors of the files that cannot be parsed, in the order of the files.
pub open spec fn failures(files: Seq<(Seq<char>, Seq<char>)>) -> Seq<PublishErrorView>
    decreases files.len(),
{
    if files.len() == 0 {
        Seq::empty()
    } else if parses(files.last()) {
        failures(files.drop_last())
    } else {
        failures(files.drop_last()).push(
            PublishErrorView::Parse { file: files.last().0, message: "Unclosed frontmatter"@ },
        )
    }
}

impl Graph {
    /// Reads the files, each a path and a text, into the graph. The page of
    /// a file takes the place of the page that had its path; the other pages
    /// stay. A file that cannot be parsed is left out, and its error is
    /// returned.
    pub fn incremental_update(&mut self, files: &Vec<(String, String)>) -> (errors: Vec<PublishError>)
        ensures
            final(self)@ == folded(old(self)@, file_views(files@)),
            error_views(errors@) == failures(file_views(files@)),
    {
        let ghost all = file_views(files@);
        let ghost start = self@;
        let mut errors: Vec<PublishError> = Vec::new();
        let mut i: usize = 0;
        proof {
            assert(all.take(0) =~= Seq::<(Seq<char>, Seq<char>)>::empty());
            assert(error_views(errors@) =~= Seq::<PublishErrorView>::empty());
        }
        while i < files.len()
            invariant
                i <= files.len(),
                all == file_views(files@),
                self@ == folded(start, all.take(i as int)),
                error_views(errors@) == failures(all.take(i as int)),
            decreases files.len() - i,
        {
            proof {
                assert(all.take(i + 1).drop_last() =~= all.take(i as int));
                assert(all.take(i + 1).last() == (files[i as int].0@, files[i as int].1@));
            }
            match parse_logseq_page(files[i].1.as_str(), files[i].0.as_str()) {
                Ok(page) => {
                    self.add_page(page);
                },
                Err(e) => {
                    proof {
                        assert(error_views(errors@.push(e)) =~= error_views(errors@).push(e@));
                    }
                    errors.push(e);
                },
            }
            i += 1;
        }
        proof {
            assert(all.take(files.len() as int) =~= all);
        }
        errors
    }
}

/// The graph of the files, each a path and a text, and the errors of the
/// files that cannot be parsed and are left out.
pub fn build_graph(files: &Vec<(String, String)>) -> (r: (Graph, Vec<PublishError>))
    ensures
        r.0@ == folded(Seq::empty(), file_views(files@)),
        error_views(r.1@) == failures(file_views(files@)),
{
    let mut graph = Graph::new();
    let errors = graph.incremental_update(files);
    (graph, errors)
}

} // verus!
