//! Reading one outline line: its indentation, its content, and the title
//! that a path gives a page.

use crate::text::{is_blank, string_of, to_chars, trim_bounds, trimmed};
use vstd::prelude::*;

verus! {

/// The indentation level of a line: one for each leading tab and one for each
/// two leading spaces; a single space counts nothing.
pub open spec fn indent_of(line: Seq<char>) -> nat
    decreases line.len(),
{
    if line.len() == 0 {
        0
    } else if line[0] == '\t' {
        1 + indent_of(line.skip(1))
    } else if line[0] == ' ' {
        if line.len() >= 2 && line[1] == ' ' {
            1 + indent_of(line.skip(2))
        } else {
            indent_of(line.skip(1))
        }
    } else {
        0
    }
}

/// Whether `c` is one of the bullet markers.
pub open spec fn is_bullet(c: char) -> bool {
    c == '-' || c == '*' || c == '+'
}

/// `t` without a leading bullet marker and the space behind it.
pub open spec fn without_bullet(t: Seq<char>) -> Seq<char> {
    if t.len() >= 2 && is_bullet(t[0]) && t[1] == ' ' {
        t.skip(2)
    } else {
        t
    }
}

/// The content of the block that a line stands for: the line without the
/// white space around it and without its bullet marker.
pub open spec fn content_of(line: Seq<char>) -> Seq<char> {
    without_bullet(trimmed(line))
}

/// The part of `s` behind the last `mark` in it; all of `s` where it holds
/// none.
pub open spec fn after_last(s: Seq<char>, mark: char) -> Seq<char>
    decreases s.len(),
{
    if s.len() == 0 {
        s
    } else if s.last() == mark {
        Seq::empty()
    } else {
        after_last(s.drop_last(), mark).push(s.last())
    }
}

/// Whether `s` ends with `suffix`.
pub open spec fn ends_with(s: Seq<char>, suffix: Seq<char>) -> bool {
    s.len() >= suffix.len() && s.skip(s.len() - suffix.len()) == suffix
}

/// `s` without any repetitions of `suffix` at its end.
pub open spec fn without_suffix(s: Seq<char>, suffix: Seq<char>) -> Seq<char>
    decreases s.len(),
{
    if suffix.len() > 0 && ends_with(s, suffix) {
        without_suffix(s.take(s.len() - suffix.len()), suffix)
    } else {
        s
    }
}

/// The file name ending `.md`.
pub open spec fn md_suffix() -> Seq<char> {
    seq!['.', 'm', 'd']
}

/// The file name ending `.markdown`.
pub open spec fn markdown_suffix() -> Seq<char> {
    seq!['.', 'm', 'a', 'r', 'k', 'd', 'o', 'w', 'n']
}

/// The title of the page at `path`: the last segment of the path without its
/// markdown endings.
pub open spec fn title_of(path: Seq<char>) -> Seq<char> {
    without_suffix(without_suffix(after_last(path, '/'), md_suffix()), markdown_suffix())
}

/// The indentation level of `line`.
pub fn indent_of_chars(line: &Vec<char>) -> (indent: usize)
    ensures
        indent == indent_of(line@),
{
    let n: usize = line.len();
    let mut indent: usize = 0;
    let mut i: usize = 0;
    let mut going: bool = true;
    proof {
        assert(line@.skip(0) =~= line@);
    }
    while going && i < n
        invariant
            i <= n == line.len(),
            indent <= i,
            going ==> indent_of(line@) == indent + indent_of(line@.skip(i as int)),
            !going ==> indent_of(line@) == indent,
        decreases (n - i) + (if going { 1int } else { 0int }),
    {
        let ghost rest = line@.skip(i as int);
        let c = line[i];
        assert(rest[0] == c);
        if c == '\t' {
            proof {
                assert(rest.skip(1) =~= line@.skip(i + 1));
            }
            indent += 1;
            i += 1;
        } else if c == ' ' {
            if i + 1 < n && line[i + 1] == ' ' {
                proof {
                    assert(rest[1] == line@[i + 1]);
                    assert(rest.skip(2) =~= line@.skip(i + 2));
                }
                indent += 1;
                i += 2;
            } else {
                proof {
                    if i + 1 < n {
                        assert(rest[1] == line@[i + 1]);
                    }
                    assert(rest.skip(1) =~= line@.skip(i + 1));
                }
                i += 1;
            }
        } else {
            going = false;
        }
    }
    proof {
        if going {
            assert(line@.skip(i as int).len() == 0);
        }
    }
    indent
}

/// The indentation level of `line`.
pub fn count_indent(line: &str) -> (indent: usize)
    ensures
        indent == indent_of(line@),
{
    let chars = to_chars(line);
    indent_of_chars(&chars)
}

/// The content of the block that `line` stands for; none for a blank line.
pub fn content_of_line(line: &Vec<char>) -> (r: Option<String>)
    ensures
        match r {
            Some(content) => !is_blank(line@) && content@ == content_of(line@),
            None => is_blank(line@),
        },
{
    let bounds = trim_bounds(line, 0, line.len());
    let a: usize = bounds.0;
    let b: usize = bounds.1;
    proof {
        assert(line@.subrange(0, line.len() as int) =~= line@);
    }
    if a == b {
        return None;
    }
    let ghost t = line@.subrange(a as int, b as int);
    if b - a >= 2 && (line[a] == '-' || line[a] == '*' || line[a] == '+') && line[a + 1] == ' ' {
        proof {
            assert(t[0] == line@[a as int] && t[1] == line@[a + 1]);
            assert(line@.subrange(a + 2, b as int) =~= t.skip(2));
        }
        Some(string_of(line, a + 2, b))
    } else {
        proof {
            if b - a >= 2 {
                assert(t[0] == line@[a as int] && t[1] == line@[a + 1]);
            }
        }
        Some(string_of(line, a, b))
    }
}

/// The content of the block that `line` stands for.
pub fn content_of_chars(line: &Vec<char>) -> (content: String)
    ensures
        content@ == content_of(line@),
{
    match content_of_line(line) {
        Some(content) => content,
        None => String::new(),
    }
}

/// The content of the block that `line` stands for.
pub fn extract_block_content(line: &str) -> (content: String)
    ensures
        content@ == content_of(line@),
{
    let chars = to_chars(line);
    content_of_chars(&chars)
}

/// The part behind the last `mark` begins at `k` when a mark stands before
/// `k` and none at or after it.
pub proof fn lemma_after_last_is(s: Seq<char>, mark: char, k: int)
    requires
        0 <= k <= s.len(),
        k > 0 ==> s[k - 1] == mark,
        forall|j: int| k <= j < s.len() ==> s[j] != mark,
    ensures
        after_last(s, mark) == s.skip(k),
    decreases s.len(),
{
    if s.len() == 0 {
        assert(s.skip(0) =~= s);
    } else if s.last() == mark {
        assert(k == s.len());
        assert(s.skip(k) =~= Seq::<char>::empty());
    } else {
        lemma_after_last_is(s.drop_last(), mark, k);
        assert(s.drop_last().skip(k).push(s.last()) =~= s.skip(k));
    }
}

/// Where the part of `chars` behind the last `mark` begins.
pub fn start_after_last(chars: &Vec<char>, mark: char) -> (k: usize)
    ensures
        k <= chars.len(),
        after_last(chars@, mark) == chars@.subrange(k as int, chars.len() as int),
{
    let n: usize = chars.len();
    let mut k: usize = n;
    while k > 0 && chars[k - 1] != mark
        invariant
            k <= n == chars.len(),
            forall|j: int| k <= j < n ==> chars@[j] != mark,
        decreases k,
    {
        k -= 1;
    }
    proof {
        lemma_after_last_is(chars@, mark, k as int);
        assert(chars@.skip(k as int) =~= chars@.subrange(k as int, n as int));
    }
    k
}

/// How far `s[..end]` reaches once every repetition of `suffix` at its end
/// is gone.
pub fn strip_end(s: &Vec<char>, from: usize, end: usize, suffix: &Vec<char>) -> (e: usize)
    requires
        from <= end <= s.len(),
        suffix.len() > 0,
    ensures
        from <= e <= end,
        s@.subrange(from as int, e as int) == without_suffix(
            s@.subrange(from as int, end as int),
            suffix@,
        ),
{
    let m: usize = suffix.len();
    let mut e: usize = end;
    loop
        invariant
            from <= e <= end <= s.len(),
            m == suffix.len(),
            m > 0,
            without_suffix(s@.subrange(from as int, end as int), suffix@) == without_suffix(
                s@.subrange(from as int, e as int),
                suffix@,
            ),
        decreases e,
    {
        let ghost cur = s@.subrange(from as int, e as int);
        if e - from < m {
            return e;
        }
        let mut j: usize = 0;
        while j < m && s[e - m + j] == suffix[j]
            invariant
                from <= e <= s.len(),
                m == suffix.len(),
                e - from >= m,
                j <= m,
                forall|t: int| 0 <= t < j ==> s@[e - m + t] == suffix@[t],
            decreases m - j,
        {
            j += 1;
        }
        if j < m {
            proof {
                assert(cur.skip(cur.len() - m)[j as int] == s@[e - m + j]);
                assert(!ends_with(cur, suffix@));
            }
            return e;
        }
        proof {
            assert(cur.skip(cur.len() - m) =~= suffix@);
            assert(cur.take(cur.len() - m) =~= s@.subrange(from as int, e - m));
        }
        e = e - m;
    }
}

/// The title of the page at `path`.
pub fn extract_title(path: &str) -> (title: String)
    ensures
        title@ == title_of(path@),
{
    let chars = to_chars(path);
    let n: usize = chars.len();
    let k = start_after_last(&chars, '/');
    let md: Vec<char> = vec!['.', 'm', 'd'];
    let markdown: Vec<char> = vec!['.', 'm', 'a', 'r', 'k', 'd', 'o', 'w', 'n'];
    assert(md@ =~= md_suffix());
    assert(markdown@ =~= markdown_suffix());
    let e1 = strip_end(&chars, k, n, &md);
    let e2 = strip_end(&chars, k, e1, &markdown);
    string_of(&chars, k, e2)
}

} // verus!
