//! The block tree of an outline: which line is nested under which.

use crate::outline::{content_of, content_of_line, indent_of, indent_of_chars};
use crate::parser::{block_views, lemma_block_view_children, Block, BlockView};
use crate::properties::Properties;
use crate::text::{is_blank, lemma_prefix_len, lemma_prefix_len_is, prefix_len, rows};
use vstd::prelude::*;

verus! {

/// One line of an outline that is not blank.
pub struct OutlineLine {
    pub indent: nat,
    pub content: Seq<char>,
}

/// The outline that a sequence of lines holds: its lines that are not blank,
/// in order, each with its indentation and its content.
pub open spec fn outline_of(lines: Seq<Seq<char>>) -> Seq<OutlineLine>
    decreases lines.len(),
{
    if lines.len() == 0 {
        Seq::empty()
    } else if is_blank(lines.last()) {
        outline_of(lines.drop_last())
    } else {
        outline_of(lines.drop_last()).push(
            OutlineLine { indent: indent_of(lines.last()), content: content_of(lines.last()) },
        )
    }
}

/// How many lines at the start of `items` are indented deeper than `level`.
pub open spec fn run_len(items: Seq<OutlineLine>, level: nat) -> nat {
    prefix_len(items, |line: OutlineLine| line.indent > level)
}

/// The character of one decimal digit.
pub open spec fn digit_char(d: nat) -> char {
    if d == 0 {
        '0'
    } else if d == 1 {
        '1'
    } else if d == 2 {
        '2'
    } else if d == 3 {
        '3'
    } else if d == 4 {
        '4'
    } else if d == 5 {
        '5'
    } else if d == 6 {
        '6'
    } else if d == 7 {
        '7'
    } else if d == 8 {
        '8'
    } else {
        '9'
    }
}

/// The decimal digits of `n`, without leading zeros.
pub open spec fn digits(n: nat) -> Seq<char>
    decreases n,
{
    if n < 10 {
        seq![digit_char(n)]
    } else {
        digits(n / 10).push(digit_char(n % 10))
    }
}

/// The identifier of the block that stands at position `n` among the blocks
/// of its page, counted in the order of their lines: `block-` and the number.
pub open spec fn block_id(n: nat) -> Seq<char> {
    seq!['b', 'l', 'o', 'c', 'k', '-'] + digits(n)
}

/// The block tree of an outline. The first line is a block; its children are
/// built from the longest run of following lines that are indented deeper
/// than it, by the same rule; the lines after that run are its siblings.
/// `first` is the position of the first line among the lines of the page.
pub open spec fn forest(items: Seq<OutlineLine>, first: nat) -> Seq<BlockView>
    decreases items.len(),
{
    if items.len() == 0 {
        Seq::empty()
    } else {
        let rest = items.drop_first();
        let n = run_len(rest, items[0].indent);
        proof {
            lemma_run_len(rest, items[0].indent);
        }
        seq![
            BlockView {
                id: block_id(first),
                content: items[0].content,
                children: forest(rest.take(n as int), first + 1),
                properties: Map::empty(),
                level: items[0].indent,
            },
        ] + forest(rest.skip(n as int), first + 1 + n)
    }
}

/// The run stays inside the lines, holds only deeper lines, and ends before
/// a line that is not deeper.
pub proof fn lemma_run_len(items: Seq<OutlineLine>, level: nat)
    ensures
        run_len(items, level) <= items.len(),
        forall|j: int| 0 <= j < run_len(items, level) ==> (#[trigger] items[j]).indent > level,
        run_len(items, level) < items.len() ==> items[run_len(items, level) as int].indent <= level,
{
    lemma_prefix_len(items, |line: OutlineLine| line.indent > level);
}

/// How many blocks at the start of `blocks` lie deeper than `level`.
pub open spec fn lead_len(blocks: Seq<BlockView>, level: nat) -> nat {
    prefix_len(blocks, |block: BlockView| block.level > level)
}

/// The roots of a forest lie where some of its lines are indented; so all of
/// them lie deeper than `level` when all the lines do. A forest of lines has
/// a root for its first line.
proof fn lemma_forest_roots(items: Seq<OutlineLine>, first: nat, level: nat)
    requires
        forall|j: int| 0 <= j < items.len() ==> (#[trigger] items[j]).indent > level,
    ensures
        forall|j: int|
            0 <= j < forest(items, first).len() ==> (#[trigger] forest(items, first)[j]).level > level,
    decreases items.len(),
{
    if items.len() > 0 {
        let rest = items.drop_first();
        let n = run_len(rest, items[0].indent);
        lemma_run_len(rest, items[0].indent);
        let tail = rest.skip(n as int);
        assert forall|j: int| 0 <= j < tail.len() implies (#[trigger] tail[j]).indent > level by {
            assert(tail[j] == items[j + n + 1]);
        }
        lemma_forest_roots(tail, first + 1 + n, level);
        let whole = forest(items, first);
        let after = forest(tail, first + 1 + n);
        assert forall|j: int| 0 <= j < whole.len() implies (#[trigger] whole[j]).level > level by {
            if j == 0 {
                assert(whole[0].level == items[0].indent);
            } else {
                assert(whole[j] == after[j - 1]);
            }
        }
    }
}

/// A forest of at least one line begins with the block of its first line.
proof fn lemma_forest_head(items: Seq<OutlineLine>, first: nat)
    requires
        items.len() > 0,
    ensures
        forest(items, first).len() > 0,
        forest(items, first)[0].level == items[0].indent,
{
}

/// A run is not longer for the lines that follow it, when the first of them
/// is not deeper than `level`.
proof fn lemma_run_len_append(a: Seq<OutlineLine>, b: Seq<OutlineLine>, level: nat)
    requires
        b.len() == 0 || b[0].indent <= level,
    ensures
        run_len(a + b, level) == run_len(a, level),
    decreases a.len(),
{
    if a.len() == 0 {
        assert(a + b =~= b);
    } else if a[0].indent <= level {
        assert((a + b)[0] == a[0]);
    } else {
        assert((a + b)[0] == a[0]);
        assert((a + b).drop_first() =~= a.drop_first() + b);
        lemma_run_len_append(a.drop_first(), b, level);
    }
}

/// The forest of lines that all lie deeper than `level`, followed by lines
/// of which the first does not, is the forest of the former followed by the
/// forest of the latter.
proof fn lemma_forest_split(a: Seq<OutlineLine>, b: Seq<OutlineLine>, first: nat, level: nat)
    requires
        forall|j: int| 0 <= j < a.len() ==> (#[trigger] a[j]).indent > level,
        b.len() == 0 || b[0].indent <= level,
    ensures
        forest(a + b, first) == forest(a, first) + forest(b, first + a.len()),
    decreases a.len(),
{
    if a.len() == 0 {
        assert(a + b =~= b);
        assert(forest(a, first) + forest(b, first + a.len()) =~= forest(b, first));
    } else {
        let head = a[0];
        let rest = a.drop_first();
        let whole = (a + b).drop_first();
        assert(whole =~= rest + b);
        assert((a + b)[0] == head);
        let r = run_len(rest, head.indent);
        lemma_run_len(rest, head.indent);
        assert(b.len() == 0 || b[0].indent <= head.indent);
        lemma_run_len_append(rest, b, head.indent);
        assert(run_len(whole, head.indent) == r);
        assert(whole.take(r as int) =~= rest.take(r as int));
        assert(whole.skip(r as int) =~= rest.skip(r as int) + b);
        let tail = rest.skip(r as int);
        assert forall|j: int| 0 <= j < tail.len() implies (#[trigger] tail[j]).indent > level by {
            assert(tail[j] == a[j + r + 1]);
        }
        lemma_forest_split(tail, b, first + 1 + r, level);
        let block = BlockView {
            id: block_id(first),
            content: head.content,
            children: forest(rest.take(r as int), first + 1),
            properties: Map::empty(),
            level: head.indent,
        };
        assert(forest(a + b, first) == seq![block] + forest(tail + b, first + 1 + r));
        assert(forest(a, first) == seq![block] + forest(tail, first + 1 + r));
        assert(first + 1 + r + tail.len() == first + a.len());
        assert(seq![block] + (forest(tail, first + 1 + r) + forest(b, first + a.len())) =~= (seq![
            block,
        ] + forest(tail, first + 1 + r)) + forest(b, first + a.len()));
    }
}

/// The forest of an outline, from the forest of the lines after the first:
/// the leading blocks of that forest which lie deeper than the first line
/// become its children, the others stay its siblings.
pub proof fn lemma_forest_step(items: Seq<OutlineLine>, first: nat)
    requires
        items.len() > 0,
    ensures
        ({
            let below = forest(items.drop_first(), first + 1);
            let m = lead_len(below, items[0].indent);
            m <= below.len() && forest(items, first) == seq![
                BlockView {
                    id: block_id(first),
                    content: items[0].content,
                    children: below.take(m as int),
                    properties: Map::empty(),
                    level: items[0].indent,
                },
            ] + below.skip(m as int)
        }),
{
    let rest = items.drop_first();
    let level = items[0].indent;
    let n = run_len(rest, level);
    lemma_run_len(rest, level);
    let a = rest.take(n as int);
    let b = rest.skip(n as int);
    assert(a + b =~= rest);
    assert forall|j: int| 0 <= j < a.len() implies (#[trigger] a[j]).indent > level by {
        assert(a[j] == rest[j]);
    }
    assert(b.len() == 0 || b[0].indent <= level) by {
        if b.len() > 0 {
            assert(b[0] == rest[n as int]);
        }
    }
    lemma_forest_split(a, b, first + 1, level);
    lemma_forest_roots(a, first + 1, level);
    let fa = forest(a, first + 1);
    let fb = forest(b, first + 1 + n);
    let below = forest(rest, first + 1);
    assert(below == fa + fb);
    if b.len() > 0 {
        lemma_forest_head(b, first + 1 + n);
    }
    assert forall|j: int| 0 <= j < fa.len() implies (#[trigger] below[j]).level > level by {
        assert(below[j] == fa[j]);
    }
    assert(fa.len() < below.len() ==> below[fa.len() as int].level <= level) by {
        if fa.len() < below.len() {
            assert(below[fa.len() as int] == fb[0]);
        }
    }
    lemma_prefix_len_is(below, |block: BlockView| block.level > level, fa.len() as int);
    assert(below.take(fa.len() as int) =~= fa);
    assert(below.skip(fa.len() as int) =~= fb);
}

/// The contents of the blocks of a forest, each block before the blocks
/// nested under it and before the blocks that follow it.
pub open spec fn contents_in_order(blocks: Seq<BlockView>) -> Seq<Seq<char>>
    decreases blocks,
{
    if blocks.len() == 0 {
        Seq::empty()
    } else {
        seq![blocks[0].content] + contents_in_order(blocks[0].children) + contents_in_order(
            blocks.drop_first(),
        )
    }
}

/// The contents of the lines of an outline.
pub open spec fn line_contents(items: Seq<OutlineLine>) -> Seq<Seq<char>> {
    Seq::new(items.len(), |i: int| items[i].content)
}

/// The contents of two forests, one behind the other.
pub proof fn lemma_contents_append(a: Seq<BlockView>, b: Seq<BlockView>)
    ensures
        contents_in_order(a + b) == contents_in_order(a) + contents_in_order(b),
    decreases a.len(),
{
    if a.len() == 0 {
        assert(a + b =~= b);
        assert(contents_in_order(a) + contents_in_order(b) =~= contents_in_order(b));
    } else {
        assert((a + b)[0] == a[0]);
        assert((a + b).drop_first() =~= a.drop_first() + b);
        lemma_contents_append(a.drop_first(), b);
        let head = seq![a[0].content] + contents_in_order(a[0].children);
        assert(head + (contents_in_order(a.drop_first()) + contents_in_order(b)) =~= (head
            + contents_in_order(a.drop_first())) + contents_in_order(b));
    }
}

/// The block tree of an outline holds the contents of its lines, each once,
/// and walking the tree meets them in the order of the lines.
pub proof fn lemma_forest_keeps_lines(items: Seq<OutlineLine>, first: nat)
    ensures
        contents_in_order(forest(items, first)) == line_contents(items),
    decreases items.len(),
{
    if items.len() == 0 {
        assert(line_contents(items) =~= Seq::<Seq<char>>::empty());
    } else {
        let rest = items.drop_first();
        let n = run_len(rest, items[0].indent);
        lemma_run_len(rest, items[0].indent);
        let a = rest.take(n as int);
        let b = rest.skip(n as int);
        lemma_forest_keeps_lines(a, first + 1);
        lemma_forest_keeps_lines(b, first + 1 + n);
        let block = BlockView {
            id: block_id(first),
            content: items[0].content,
            children: forest(a, first + 1),
            properties: Map::empty(),
            level: items[0].indent,
        };
        let tail = forest(b, first + 1 + n);
        assert(forest(items, first) == seq![block] + tail);
        lemma_contents_append(seq![block], tail);
        assert(seq![block].drop_first() =~= Seq::<BlockView>::empty());
        assert(seq![block][0] == block);
        assert(contents_in_order(Seq::<BlockView>::empty()) =~= Seq::<Seq<char>>::empty());
        assert(contents_in_order(seq![block]) =~= seq![block.content] + contents_in_order(
            block.children,
        ));
        assert(seq![items[0].content] + line_contents(a) + line_contents(b) =~= line_contents(items));
    }
}

/// The identifiers of the blocks of a forest, each block before the blocks
/// nested under it and before the blocks that follow it.
pub open spec fn ids_in_order(blocks: Seq<BlockView>) -> Seq<Seq<char>>
    decreases blocks,
{
    if blocks.len() == 0 {
        Seq::empty()
    } else {
        seq![blocks[0].id] + ids_in_order(blocks[0].children) + ids_in_order(blocks.drop_first())
    }
}

/// The identifiers of two forests, one behind the other.
pub proof fn lemma_ids_append(a: Seq<BlockView>, b: Seq<BlockView>)
    ensures
        ids_in_order(a + b) == ids_in_order(a) + ids_in_order(b),
    decreases a.len(),
{
    if a.len() == 0 {
        assert(a + b =~= b);
        assert(ids_in_order(a) + ids_in_order(b) =~= ids_in_order(b));
    } else {
        assert((a + b)[0] == a[0]);
        assert((a + b).drop_first() =~= a.drop_first() + b);
        lemma_ids_append(a.drop_first(), b);
        let head = seq![a[0].id] + ids_in_order(a[0].children);
        assert(head + (ids_in_order(a.drop_first()) + ids_in_order(b)) =~= (head + ids_in_order(
            a.drop_first(),
        )) + ids_in_order(b));
    }
}

/// The blocks of a block tree are numbered in the order of their lines.
pub proof fn lemma_forest_ids(items: Seq<OutlineLine>, first: nat)
    ensures
        ids_in_order(forest(items, first)) == Seq::new(items.len(), |i: int| block_id((first + i) as nat)),
    decreases items.len(),
{
    let numbered = Seq::new(items.len(), |i: int| block_id((first + i) as nat));
    if items.len() == 0 {
        assert(numbered =~= Seq::<Seq<char>>::empty());
    } else {
        let rest = items.drop_first();
        let n = run_len(rest, items[0].indent);
        lemma_run_len(rest, items[0].indent);
        let a = rest.take(n as int);
        let b = rest.skip(n as int);
        lemma_forest_ids(a, first + 1);
        lemma_forest_ids(b, first + 1 + n);
        let block = BlockView {
            id: block_id(first),
            content: items[0].content,
            children: forest(a, first + 1),
            properties: Map::empty(),
            level: items[0].indent,
        };
        let tail = forest(b, first + 1 + n);
        assert(forest(items, first) == seq![block] + tail);
        lemma_ids_append(seq![block], tail);
        assert(seq![block].drop_first() =~= Seq::<BlockView>::empty());
        assert(seq![block][0] == block);
        assert(ids_in_order(Seq::<BlockView>::empty()) =~= Seq::<Seq<char>>::empty());
        assert(ids_in_order(seq![block]) =~= seq![block.id] + ids_in_order(block.children));
        assert(seq![block_id(first)] + ids_in_order(forest(a, first + 1)) + ids_in_order(tail)
            =~= numbered);
    }
}

/// A number has at least one digit, and more where it is ten or more.
proof fn lemma_digits_len(n: nat)
    ensures
        digits(n).len() >= 1,
        n >= 10 ==> digits(n).len() >= 2,
    decreases n,
{
    if n >= 10 {
        lemma_digits_len(n / 10);
    }
}

/// Different numbers have different digits.
pub proof fn lemma_digits_differ(a: nat, b: nat)
    requires
        digits(a) == digits(b),
    ensures
        a == b,
    decreases a,
{
    lemma_digits_len(a);
    lemma_digits_len(b);
    if a < 10 && b < 10 {
        assert(digits(a)[0] == digit_char(a));
        assert(digits(b)[0] == digit_char(b));
    } else if a >= 10 && b >= 10 {
        let da = digits(a / 10);
        let db = digits(b / 10);
        assert(digits(a) == da.push(digit_char(a % 10)));
        assert(digits(b) == db.push(digit_char(b % 10)));
        assert(da.push(digit_char(a % 10)).last() == digit_char(a % 10));
        assert(db.push(digit_char(b % 10)).last() == digit_char(b % 10));
        assert(da.push(digit_char(a % 10)).drop_last() =~= da);
        assert(db.push(digit_char(b % 10)).drop_last() =~= db);
        lemma_digits_differ(a / 10, b / 10);
        assert(a % 10 == b % 10);
    } else if a < 10 {
        assert(digits(a).len() == 1);
    } else {
        assert(digits(b).len() == 1);
    }
}

/// No two blocks of a block tree have the same identifier.
pub proof fn lemma_forest_ids_distinct(items: Seq<OutlineLine>, first: nat)
    ensures
        ids_in_order(forest(items, first)).no_duplicates(),
        ids_in_order(forest(items, first)).len() == items.len(),
{
    lemma_forest_ids(items, first);
    let ids = ids_in_order(forest(items, first));
    assert forall|i: int, j: int| 0 <= i < ids.len() && 0 <= j < ids.len() && i != j implies ids[i]
        != ids[j] by {
        if ids[i] == ids[j] {
            let a = (first + i) as nat;
            let b = (first + j) as nat;
            assert(block_id(a).skip(6) =~= digits(a));
            assert(block_id(b).skip(6) =~= digits(b));
            lemma_digits_differ(a, b);
        }
    }
}

/// Whether each block of a forest lies less deep than the blocks nested
/// directly under it, at every depth of nesting.
pub open spec fn nested_deeper(blocks: Seq<BlockView>) -> bool
    decreases blocks,
{
    if blocks.len() == 0 {
        true
    } else {
        &&& forall|j: int|
            0 <= j < blocks[0].children.len() ==> (#[trigger] blocks[0].children[j]).level
                > blocks[0].level
        &&& nested_deeper(blocks[0].children)
        &&& nested_deeper(blocks.drop_first())
    }
}

/// In a block tree a nested block always lies deeper than the block it is
/// nested under.
pub proof fn lemma_forest_nested_deeper(items: Seq<OutlineLine>, first: nat)
    ensures
        nested_deeper(forest(items, first)),
    decreases items.len(),
{
    if items.len() > 0 {
        let rest = items.drop_first();
        let level = items[0].indent;
        let n = run_len(rest, level);
        lemma_run_len(rest, level);
        let a = rest.take(n as int);
        let b = rest.skip(n as int);
        assert forall|j: int| 0 <= j < a.len() implies (#[trigger] a[j]).indent > level by {
            assert(a[j] == rest[j]);
        }
        lemma_forest_roots(a, first + 1, level);
        lemma_forest_nested_deeper(a, first + 1);
        lemma_forest_nested_deeper(b, first + 1 + n);
        let whole = forest(items, first);
        assert(whole[0].children == forest(a, first + 1));
        assert(whole.drop_first() =~= forest(b, first + 1 + n));
    }
}

/// The views of outline items held as pairs of indentation and content.
pub open spec fn item_views(items: Seq<(usize, String)>) -> Seq<OutlineLine> {
    Seq::new(items.len(), |i: int| OutlineLine { indent: items[i].0 as nat, content: items[i].1@ })
}

/// The outline of the lines from `from` on.
pub fn collect_outline(lines: &Vec<Vec<char>>, from: usize) -> (items: Vec<(usize, String)>)
    requires
        from <= lines.len(),
    ensures
        item_views(items@) == outline_of(rows(lines@).skip(from as int)),
{
    let ghost all = rows(lines@).skip(from as int);
    let mut items: Vec<(usize, String)> = Vec::new();
    let mut i: usize = from;
    proof {
        assert(all.take(0) =~= Seq::<Seq<char>>::empty());
        assert(item_views(items@) =~= outline_of(all.take(0)));
    }
    while i < lines.len()
        invariant
            from <= i <= lines.len(),
            all == rows(lines@).skip(from as int),
            item_views(items@) == outline_of(all.take(i - from)),
        decreases lines.len() - i,
    {
        let ghost sofar = all.take(i - from);
        let ghost next = all.take(i + 1 - from);
        proof {
            assert(next.drop_last() =~= sofar);
            assert(next.last() == lines@[i as int]@);
        }
        match content_of_line(&lines[i]) {
            Some(content) => {
                let indent = indent_of_chars(&lines[i]);
                proof {
                    assert(item_views(items@.push((indent, content))) =~= item_views(items@).push(
                        OutlineLine { indent: indent as nat, content: content@ },
                    ));
                }
                items.push((indent, content));
            },
            None => {},
        }
        i += 1;
    }
    proof {
        assert(all.take(lines.len() - from) =~= all);
    }
    items
}

/// The decimal digit `d` as a character.
fn digit_of(d: usize) -> (c: char)
    requires
        d < 10,
    ensures
        c == digit_char(d as nat),
{
    if d == 0 {
        '0'
    } else if d == 1 {
        '1'
    } else if d == 2 {
        '2'
    } else if d == 3 {
        '3'
    } else if d == 4 {
        '4'
    } else if d == 5 {
        '5'
    } else if d == 6 {
        '6'
    } else if d == 7 {
        '7'
    } else if d == 8 {
        '8'
    } else {
        '9'
    }
}

/// The identifier of the block at position `n`.
pub fn block_id_of(n: usize) -> (id: String)
    ensures
        id@ == block_id(n as nat),
{
    let mut tail: Vec<char> = Vec::new();
    tail.push(digit_of(n % 10));
    let mut m: usize = n / 10;
    while m > 0
        invariant
            m > 0 ==> digits(n as nat) == digits(m as nat) + tail@,
            m == 0 ==> digits(n as nat) == tail@,
        decreases m,
    {
        proof {
            if m >= 10 {
                assert(digits(m as nat) == digits((m / 10) as nat).push(digit_char((m % 10) as nat)));
                assert(digits((m / 10) as nat).push(digit_char((m % 10) as nat)) + tail@
                    =~= digits((m / 10) as nat) + tail@.insert(0, digit_char((m % 10) as nat)));
            } else {
                assert(seq![digit_char(m as nat)] + tail@ =~= tail@.insert(0, digit_char(m as nat)));
            }
        }
        tail.insert(0, digit_of(m % 10));
        m = m / 10;
    }
    let mut id = String::new();
    id.push('b');
    id.push('l');
    id.push('o');
    id.push('c');
    id.push('k');
    id.push('-');
    let mut i: usize = 0;
    while i < tail.len()
        invariant
            i <= tail.len(),
            id@ == seq!['b', 'l', 'o', 'c', 'k', '-'] + tail@.take(i as int),
        decreases tail.len() - i,
    {
        proof {
            assert(tail@.take(i + 1) =~= tail@.take(i as int).push(tail@[i as int]));
        }
        id.push(tail[i]);
        i += 1;
    }
    proof {
        assert(tail@.take(tail.len() as int) =~= tail@);
    }
    id
}

/// `stack` holds the blocks of `blocks`, the last one first.
pub open spec fn holds_reversed(stack: Seq<Block>, blocks: Seq<BlockView>) -> bool {
    &&& stack.len() == blocks.len()
    &&& forall|j: int| 0 <= j < blocks.len() ==> blocks[j] == (#[trigger] stack[stack.len() - 1 - j])@
}

/// The block tree of an outline, built without recursion: the lines are taken
/// from the last to the first, and a stack holds the trees of the lines
/// taken so far.
pub fn build_forest(items: Vec<(usize, String)>) -> (blocks: Vec<Block>)
    ensures
        block_views(blocks@) == forest(item_views(items@), 0),
{
    let ghost all = item_views(items@);
    let mut items = items;
    let mut stack: Vec<Block> = Vec::new();
    proof {
        assert(all.skip(all.len() as int) =~= Seq::<OutlineLine>::empty());
        assert(item_views(items@).take(items.len() as int) =~= all);
    }
    while items.len() > 0
        invariant
            items.len() <= all.len(),
            item_views(items@) == all.take(items.len() as int),
            holds_reversed(stack@, forest(all.skip(items.len() as int), items.len() as nat)),
        decreases items.len(),
    {
        let ghost before = item_views(items@);
        let item = items.pop().unwrap();
        let k: usize = items.len();
        let indent: usize = item.0;
        let content: String = item.1;
        let ghost suffix = all.skip(k as int);
        let ghost below = forest(all.skip(k + 1), (k + 1) as nat);
        proof {
            assert(before[k as int] == all[k as int]);
            assert(suffix[0] == all[k as int]);
            assert(suffix.drop_first() =~= all.skip(k + 1));
            assert(item_views(items@) =~= all.take(k as int));
            lemma_forest_step(suffix, k as nat);
        }
        let ghost start = stack@;
        let mut children: Vec<Block> = Vec::new();
        while stack.len() > 0 && stack[stack.len() - 1].level > indent
            invariant
                children.len() + stack.len() == below.len(),
                holds_reversed(start, below),
                stack@ =~= start.take(stack.len() as int),
                forall|j: int| 0 <= j < children.len() ==> (#[trigger] children[j])@ == below[j],
                forall|j: int| 0 <= j < children.len() ==> (#[trigger] below[j]).level > indent,
            decreases stack.len(),
        {
            let ghost top = stack.len() - 1;
            let b = stack.pop().unwrap();
            proof {
                assert(b == start[top]);
                assert(below[children.len() as int] == start[start.len() - 1 - children.len()]@);
            }
            children.push(b);
        }
        let ghost m = children.len();
        proof {
            if stack.len() > 0 {
                assert(stack@[stack.len() - 1] == start[stack.len() - 1]);
                assert(below[m as int] == start[start.len() - 1 - m]@);
            }
            lemma_prefix_len_is(below, |block: BlockView| block.level > indent as nat, m as int);
            assert(block_views(children@) =~= below.take(m as int));
        }
        let id = block_id_of(k);
        let block = Block { id, content, children, properties: Properties::new(), level: indent };
        proof {
            lemma_block_view_children(block);
            let grown = forest(suffix, k as nat);
            assert(grown == seq![block@] + below.skip(m as int));
            let pushed = stack@.push(block);
            assert forall|j: int| 0 <= j < grown.len() implies grown[j] == (#[trigger] pushed[pushed.len()
                - 1 - j])@ by {
                if j > 0 {
                    assert(grown[j] == below[m + j - 1]);
                    assert(pushed[pushed.len() - 1 - j] == start[start.len() - 1 - (m + j - 1)]);
                }
            }
        }
        stack.push(block);
    }
    let ghost whole = forest(all, 0);
    proof {
        assert(all.skip(0) =~= all);
    }
    let ghost start = stack@;
    let mut blocks: Vec<Block> = Vec::new();
    while stack.len() > 0
        invariant
            blocks.len() + stack.len() == whole.len(),
            holds_reversed(start, whole),
            stack@ =~= start.take(stack.len() as int),
            forall|j: int| 0 <= j < blocks.len() ==> (#[trigger] blocks[j])@ == whole[j],
        decreases stack.len(),
    {
        let ghost top = stack.len() - 1;
        let b = stack.pop().unwrap();
        proof {
            assert(b == start[top]);
            assert(whole[blocks.len() as int] == start[start.len() - 1 - blocks.len()]@);
        }
        blocks.push(b);
    }
    proof {
        assert(block_views(blocks@) =~= whole);
    }
    blocks
}

} // verus!
