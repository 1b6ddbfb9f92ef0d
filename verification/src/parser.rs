//! The outline parser: from the text of one note file to a page.

use crate::errors::{PublishError, PublishErrorView};
use crate::outline::{extract_title, title_of};
use crate::pattern::{captured_onto, find_captured, lemma_captured_distinct};
use crate::properties::Properties;
use crate::text::{
    lemma_prefix_len_is, lines_of, prefix_len, rows, slice_of, split_lines, string_of, strs, to_chars,
    trim, trimmed,
};
use crate::tree::{
    build_forest, collect_outline, contents_in_order, forest, ids_in_order, item_views,
    lemma_forest_ids_distinct, lemma_forest_keeps_lines, lemma_forest_nested_deeper, line_contents,
    nested_deeper, outline_of,
};
use vstd::prelude::*;

verus! {

/// One outline node of a page, with the nodes nested under it.
#[derive(Debug)]
pub struct Block {
    pub id: String,
    pub content: String,
    pub children: Vec<Block>,
    pub properties: Properties,
    pub level: usize,
}

/// One parsed note file.
#[derive(Debug)]
pub struct Page {
    pub path: String,
    pub title: String,
    pub properties: Properties,
    pub blocks: Vec<Block>,
    pub tags: Vec<String>,
    pub links: Vec<String>,
}

/// What a block holds, as mathematical values.
pub struct BlockView {
    pub id: Seq<char>,
    pub content: Seq<char>,
    pub children: Seq<BlockView>,
    pub properties: Map<Seq<char>, Seq<char>>,
    pub level: nat,
}

/// What a page holds, as mathematical values.
pub struct PageView {
    pub path: Seq<char>,
    pub title: Seq<char>,
    pub properties: Map<Seq<char>, Seq<char>>,
    pub blocks: Seq<BlockView>,
    pub tags: Seq<Seq<char>>,
    pub links: Seq<Seq<char>>,
}

/// The view of a block: its own values and the views of its children.
pub open spec fn block_view(b: Block) -> BlockView
    decreases b,
{
    BlockView {
        id: b.id@,
        content: b.content@,
        children: Seq::new(
            b.children@.len(),
            |i: int|
                if 0 <= i < b.children@.len() {
                    block_view(b.children@[i])
                } else {
                    arbitrary()
                },
        ),
        properties: b.properties@,
        level: b.level as nat,
    }
}

impl View for Block {
    type V = BlockView;

    open spec fn view(&self) -> BlockView {
        block_view(*self)
    }
}

/// The views of a sequence of blocks.
pub open spec fn block_views(s: Seq<Block>) -> Seq<BlockView> {
    Seq::new(s.len(), |i: int| s[i]@)
}

impl View for Page {
    type V = PageView;

    open spec fn view(&self) -> PageView {
        PageView {
            path: self.path@,
            title: self.title@,
            properties: self.properties@,
            blocks: block_views(self.blocks@),
            tags: strs(self.tags@),
            links: strs(self.links@),
        }
    }
}

/// The children of a block's view are the views of its children.
pub proof fn lemma_block_view_children(b: Block)
    ensures
        b@.children == block_views(b.children@),
{
    assert(b@.children.len() == b.children@.len());
    assert forall|i: int| 0 <= i < b.children@.len() implies b@.children[i] == b.children@[i]@ by {
        assert(b@.children[i] == block_view(b.children@[i]));
    }
    assert(b@.children =~= block_views(b.children@));
}

impl Clone for Block {
    /// A copy that holds the same values, nested blocks included.
    fn clone(&self) -> (r: Block)
        ensures
            r@ == self@,
        decreases self,
    {
        let mut children: Vec<Block> = Vec::new();
        let mut i: usize = 0;
        while i < self.children.len()
            invariant
                i <= self.children.len(),
                children.len() == i,
                forall|j: int| 0 <= j < i ==> (#[trigger] children[j])@ == self.children[j]@,
            decreases self.children.len() - i,
        {
            let child = self.children[i].clone();
            children.push(child);
            i += 1;
        }
        let r = Block {
            id: self.id.clone(),
            content: self.content.clone(),
            children,
            properties: self.properties.clone(),
            level: self.level,
        };
        proof {
            assert(r@.children =~= self@.children);
        }
        r
    }
}

/// A copy of a list of strings.
pub fn clone_strings(v: &Vec<String>) -> (r: Vec<String>)
    ensures
        strs(r@) == strs(v@),
{
    let mut r: Vec<String> = Vec::new();
    let mut i: usize = 0;
    while i < v.len()
        invariant
            i <= v.len(),
            r.len() == i,
            forall|j: int| 0 <= j < i ==> (#[trigger] r[j])@ == v[j]@,
        decreases v.len() - i,
    {
        r.push(v[i].clone());
        i += 1;
    }
    proof {
        assert(strs(r@) =~= strs(v@));
    }
    r
}

/// A copy of a list of blocks.
pub fn clone_blocks(v: &Vec<Block>) -> (r: Vec<Block>)
    ensures
        block_views(r@) == block_views(v@),
{
    let mut r: Vec<Block> = Vec::new();
    let mut i: usize = 0;
    while i < v.len()
        invariant
            i <= v.len(),
            r.len() == i,
            forall|j: int| 0 <= j < i ==> (#[trigger] r[j])@ == v[j]@,
        decreases v.len() - i,
    {
        r.push(v[i].clone());
        i += 1;
    }
    proof {
        assert(block_views(r@) =~= block_views(v@));
    }
    r
}

impl Clone for Page {
    /// A copy that holds the same values.
    fn clone(&self) -> (r: Page)
        ensures
            r@ == self@,
    {
        Page {
            path: self.path.clone(),
            title: self.title.clone(),
            properties: self.properties.clone(),
            blocks: clone_blocks(&self.blocks),
            tags: clone_strings(&self.tags),
            links: clone_strings(&self.links),
        }
    }
}

/// The number of blocks in a forest, nested ones included.
pub open spec fn forest_size(s: Seq<BlockView>) -> nat
    decreases s,
{
    if s.len() == 0 {
        0
    } else {
        forest_size(s.drop_last()) + 1 + forest_size(s.last().children)
    }
}

/// The line that opens and closes the frontmatter of a page.
pub open spec fn delimiter() -> Seq<char> {
    seq!['-', '-', '-']
}

/// Whether a page begins with frontmatter: its first line is the delimiter.
pub open spec fn has_frontmatter(lines: Seq<Seq<char>>) -> bool {
    lines.len() > 0 && lines[0] == delimiter()
}

/// How many lines stand before the first delimiter line of `lines`.
pub open spec fn lines_to_delimiter(lines: Seq<Seq<char>>) -> nat {
    prefix_len(lines, |l: Seq<char>| l != delimiter())
}

/// How many characters stand before the first colon of `line`.
pub open spec fn chars_to_colon(line: Seq<char>) -> nat {
    prefix_len(line, |c: char| c != ':')
}

/// The key and the value of a frontmatter line: what stands before its first
/// colon and what stands behind it, each without the white space around it.
/// A line without a colon holds neither.
pub open spec fn key_value(line: Seq<char>) -> Option<(Seq<char>, Seq<char>)> {
    let k = chars_to_colon(line);
    if k < line.len() {
        Some((trimmed(line.take(k as int)), trimmed(line.skip(k as int + 1))))
    } else {
        None
    }
}

/// `base` with the keys of `lines` mapped to their values; where two lines
/// give the same key, the later one holds.
pub open spec fn with_properties(base: Map<Seq<char>, Seq<char>>, lines: Seq<Seq<char>>) -> Map<
    Seq<char>,
    Seq<char>,
>
    decreases lines.len(),
{
    if lines.len() == 0 {
        base
    } else {
        let sofar = with_properties(base, lines.drop_last());
        match key_value(lines.last()) {
            Some((k, v)) => sofar.insert(k, v),
            None => sofar,
        }
    }
}

/// Whether the frontmatter of a page, if it has any, is closed by a second
/// delimiter line.
pub open spec fn frontmatter_closed(lines: Seq<Seq<char>>) -> bool {
    has_frontmatter(lines) ==> lines_to_delimiter(lines.drop_first()) < lines.len() - 1
}

/// The properties that the frontmatter of a page gives it.
pub open spec fn frontmatter_of(lines: Seq<Seq<char>>) -> Map<Seq<char>, Seq<char>> {
    if has_frontmatter(lines) {
        with_properties(
            Map::empty(),
            lines.drop_first().take(lines_to_delimiter(lines.drop_first()) as int),
        )
    } else {
        Map::empty()
    }
}

/// The lines of a page behind its frontmatter.
pub open spec fn body_of(lines: Seq<Seq<char>>) -> Seq<Seq<char>> {
    if has_frontmatter(lines) {
        lines.skip(lines_to_delimiter(lines.drop_first()) as int + 2)
    } else {
        lines
    }
}

/// The pattern of a tag: a hash sign and the word characters behind it,
/// which are captured.
pub open spec fn tag_pattern() -> Seq<char> {
    "#(\\w+)"@
}

/// The pattern of a link: two opening brackets, the characters up to the
/// next closing bracket, which are captured, and two closing brackets.
pub open spec fn link_pattern() -> Seq<char> {
    "\\[\\[([^\\]]+)\\]\\]"@
}

/// The page that a text at a path stands for.
pub open spec fn page_of(content: Seq<char>, path: Seq<char>) -> PageView {
    let lines = lines_of(content);
    let blocks = forest(outline_of(body_of(lines)), 0);
    PageView {
        path,
        title: title_of(path),
        properties: frontmatter_of(lines),
        blocks,
        tags: captured_onto(Seq::empty(), contents_in_order(blocks), tag_pattern(), "#"@),
        links: captured_onto(Seq::empty(), contents_in_order(blocks), link_pattern(), "[["@),
    }
}

/// What holds of every page that comes from a text: a nested block lies
/// deeper than the block it is nested under, no two blocks have the same
/// identifier, the blocks hold the contents of the lines that are not blank
/// in the order of these lines, and no tag and no link is listed twice.
pub proof fn lemma_page_well_formed(content: Seq<char>, path: Seq<char>)
    ensures
        nested_deeper(page_of(content, path).blocks),
        ids_in_order(page_of(content, path).blocks).no_duplicates(),
        contents_in_order(page_of(content, path).blocks) == line_contents(
            outline_of(body_of(lines_of(content))),
        ),
        page_of(content, path).tags.no_duplicates(),
        page_of(content, path).links.no_duplicates(),
{
    let items = outline_of(body_of(lines_of(content)));
    let blocks = forest(items, 0);
    lemma_forest_nested_deeper(items, 0);
    lemma_forest_ids_distinct(items, 0);
    lemma_forest_keeps_lines(items, 0);
    lemma_captured_distinct(Seq::empty(), contents_in_order(blocks), tag_pattern(), "#"@);
    lemma_captured_distinct(Seq::empty(), contents_in_order(blocks), link_pattern(), "[["@);
}

/// Whether `line` is the delimiter.
fn is_delimiter(line: &Vec<char>) -> (r: bool)
    ensures
        r == (line@ == delimiter()),
{
    let r = line.len() == 3 && line[0] == '-' && line[1] == '-' && line[2] == '-';
    proof {
        if r {
            assert(line@ =~= delimiter());
        }
    }
    r
}

/// The key and the value of a frontmatter line.
fn split_key_value(line: &Vec<char>) -> (r: Option<(String, String)>)
    ensures
        match r {
            Some((k, v)) => key_value(line@) == Some((k@, v@)),
            None => key_value(line@) is None,
        },
{
    let n: usize = line.len();
    let mut k: usize = 0;
    while k < n && line[k] != ':'
        invariant
            k <= n == line.len(),
            forall|j: int| 0 <= j < k ==> line@[j] != ':',
        decreases n - k,
    {
        k += 1;
    }
    proof {
        lemma_prefix_len_is(line@, |c: char| c != ':', k as int);
    }
    if k < n {
        let before = slice_of(line, 0, k);
        let after = slice_of(line, k + 1, n);
        let key = trim(&before);
        let value = trim(&after);
        proof {
            assert(line@.subrange(0, k as int) =~= line@.take(k as int));
            assert(line@.subrange(k + 1, n as int) =~= line@.skip(k + 1));
            assert(key@.subrange(0, key.len() as int) =~= key@);
            assert(value@.subrange(0, value.len() as int) =~= value@);
        }
        Some((string_of(&key, 0, key.len()), string_of(&value, 0, value.len())))
    } else {
        None
    }
}

/// Reads the frontmatter lines from `from` on into `properties`, up to the
/// delimiter line that closes them, and returns where that line stands.
/// Fails where no such line follows.
pub fn parse_properties(lines: &Vec<Vec<char>>, from: usize, properties: &mut Properties) -> (r:
    Result<usize, String>)
    requires
        from <= lines.len(),
    ensures
        ({
            let rest = rows(lines@).skip(from as int);
            let n = lines_to_delimiter(rest);
            match r {
                Ok(i) => n < rest.len() && i == from + n && final(properties)@ == with_properties(
                    old(properties)@,
                    rest.take(n as int),
                ),
                Err(m) => n == rest.len() && m@ == "Unclosed frontmatter"@ && final(properties)@
                    == with_properties(old(properties)@, rest),
            }
        }),
{
    let ghost rest = rows(lines@).skip(from as int);
    let ghost base = properties@;
    let mut i: usize = from;
    proof {
        assert(rest.take(0) =~= Seq::<Seq<char>>::empty());
    }
    while i < lines.len()
        invariant
            from <= i <= lines.len(),
            rest == rows(lines@).skip(from as int),
            base == old(properties)@,
            forall|j: int| 0 <= j < i - from ==> (#[trigger] rest[j]) != delimiter(),
            properties@ == with_properties(base, rest.take(i - from)),
        decreases lines.len() - i,
    {
        assert(rest[i - from] == lines@[i as int]@);
        if is_delimiter(&lines[i]) {
            proof {
                lemma_prefix_len_is(rest, |l: Seq<char>| l != delimiter(), i - from);
            }
            return Ok(i);
        }
        proof {
            assert(rest.take(i + 1 - from).drop_last() =~= rest.take(i - from));
            assert(rest.take(i + 1 - from).last() == lines@[i as int]@);
        }
        match split_key_value(&lines[i]) {
            Some((key, value)) => {
                properties.insert(key, value);
            },
            None => {},
        }
        i += 1;
    }
    proof {
        lemma_prefix_len_is(rest, |l: Seq<char>| l != delimiter(), rest.len() as int);
        assert(rest.take(rest.len() as int) =~= rest);
    }
    Err(String::from_str("Unclosed frontmatter"))
}

/// The block tree of the lines from `from` on.
pub fn parse_blocks(lines: &Vec<Vec<char>>, from: usize) -> (blocks: Vec<Block>)
    requires
        from <= lines.len(),
    ensures
        block_views(blocks@) == forest(outline_of(rows(lines@).skip(from as int)), 0),
{
    build_forest(collect_outline(lines, from))
}

/// The contents of outline items, in order.
fn contents_of(items: &Vec<(usize, String)>) -> (contents: Vec<String>)
    ensures
        strs(contents@) == line_contents(item_views(items@)),
{
    let mut contents: Vec<String> = Vec::new();
    let mut i: usize = 0;
    while i < items.len()
        invariant
            i <= items.len(),
            contents.len() == i,
            forall|j: int| 0 <= j < i ==> (#[trigger] contents[j])@ == items[j].1@,
        decreases items.len() - i,
    {
        contents.push(items[i].1.clone());
        i += 1;
    }
    proof {
        assert(strs(contents@) =~= line_contents(item_views(items@)));
    }
    contents
}

/// Adds to `tags` the tags and to `links` the link targets that stand in
/// `contents`, each once, in the order in which it first occurs. A tag
/// begins with a hash sign and a link with two opening brackets: contents
/// without them are not searched.
pub fn extract_tags_and_links(contents: &Vec<String>, tags: &mut Vec<String>, links: &mut Vec<String>)
    ensures
        strs(final(tags)@) == captured_onto(strs(old(tags)@), strs(contents@), tag_pattern(), "#"@),
        strs(final(links)@) == captured_onto(
            strs(old(links)@),
            strs(contents@),
            link_pattern(),
            "[["@,
        ),
{
    find_captured(tags, contents, "#(\\w+)", "#");
    find_captured(links, contents, "\\[\\[([^\\]]+)\\]\\]", "[[");
}

/// Parses the text of one note file into the page at `path`. Fails only
/// where the text opens frontmatter and never closes it; the error names the
/// path.
pub fn parse_logseq_page(content: &str, path: &str) -> (r: Result<Page, PublishError>)
    ensures
        match r {
            Ok(page) => frontmatter_closed(lines_of(content@)) && page@ == page_of(content@, path@),
            Err(e) => !frontmatter_closed(lines_of(content@)) && e@ == (PublishErrorView::Parse {
                file: path@,
                message: "Unclosed frontmatter"@,
            }),
        },
{
    let chars = to_chars(content);
    let lines = split_lines(&chars);
    let ghost all = rows(lines@);
    let mut properties = Properties::new();
    let mut start: usize = 0;
    if lines.len() > 0 && is_delimiter(&lines[0]) {
        proof {
            assert(all[0] == lines@[0]@);
            assert(all.skip(1) =~= all.drop_first());
        }
        match parse_properties(&lines, 1, &mut properties) {
            Ok(i) => {
                start = i + 1;
            },
            Err(m) => {
                return Err(PublishError::parse(path, m.as_str()));
            },
        }
    } else {
        proof {
            if lines.len() > 0 {
                assert(all[0] == lines@[0]@);
            }
            assert(all.skip(0) =~= all);
        }
    }
    let items = collect_outline(&lines, start);
    let contents = contents_of(&items);
    let mut tags: Vec<String> = Vec::new();
    let mut links: Vec<String> = Vec::new();
    proof {
        assert(strs(tags@) =~= Seq::<Seq<char>>::empty());
        assert(strs(links@) =~= Seq::<Seq<char>>::empty());
        lemma_forest_keeps_lines(item_views(items@), 0);
    }
    extract_tags_and_links(&contents, &mut tags, &mut links);
    let blocks = build_forest(items);
    let page = Page {
        path: String::from_str(path),
        title: extract_title(path),
        properties,
        blocks,
        tags,
        links,
    };
    proof {
        assert(page@.properties =~= page_of(content@, path@).properties);
    }
    Ok(page)
}

} // verus!
