//! Character-level helpers: strings as sequences of characters, white space,
//! trimming, and splitting a text into lines.

use vstd::prelude::*;

verus! {

/// `String::push` appends one character to the end of the string.
pub assume_specification[ String::push ](s: &mut String, c: char)
    ensures
        final(s)@ == old(s)@.push(c),
;

/// The views of a sequence of strings.
pub open spec fn strs(v: Seq<String>) -> Seq<Seq<char>> {
    Seq::new(v.len(), |i: int| v[i]@)
}

/// The views of a sequence of character vectors.
pub open spec fn rows(v: Seq<Vec<char>>) -> Seq<Seq<char>> {
    Seq::new(v.len(), |i: int| v[i]@)
}

/// White space: the characters with the Unicode property `White_Space`.
pub open spec fn is_space(c: char) -> bool {
    let n = c as u32;
    ||| 0x09 <= n <= 0x0d
    ||| n == 0x20
    ||| n == 0x85
    ||| n == 0xa0
    ||| n == 0x1680
    ||| 0x2000 <= n <= 0x200a
    ||| n == 0x2028
    ||| n == 0x2029
    ||| n == 0x202f
    ||| n == 0x205f
    ||| n == 0x3000
}

/// `s` without its leading white space.
pub open spec fn skip_spaces(s: Seq<char>) -> Seq<char>
    decreases s.len(),
{
    if s.len() > 0 && is_space(s[0]) {
        skip_spaces(s.drop_first())
    } else {
        s
    }
}

/// `s` without its trailing white space.
pub open spec fn drop_trailing_spaces(s: Seq<char>) -> Seq<char>
    decreases s.len(),
{
    if s.len() > 0 && is_space(s.last()) {
        drop_trailing_spaces(s.drop_last())
    } else {
        s
    }
}

/// `s` without leading and trailing white space.
pub open spec fn trimmed(s: Seq<char>) -> Seq<char> {
    drop_trailing_spaces(skip_spaces(s))
}

/// A line is blank when it holds nothing but white space.
pub open spec fn is_blank(s: Seq<char>) -> bool {
    trimmed(s).len() == 0
}

/// The length of the longest part at the start of `s` whose items all meet
/// `keep`.
pub open spec fn prefix_len<A>(s: Seq<A>, keep: spec_fn(A) -> bool) -> nat
    decreases s.len(),
{
    if s.len() == 0 || !keep(s[0]) {
        0
    } else {
        1 + prefix_len(s.drop_first(), keep)
    }
}

/// `prefix_len` stays inside the sequence, covers only items that meet
/// `keep`, and ends before one that does not.
pub proof fn lemma_prefix_len<A>(s: Seq<A>, keep: spec_fn(A) -> bool)
    ensures
        prefix_len(s, keep) <= s.len(),
        forall|j: int| 0 <= j < prefix_len(s, keep) ==> keep(#[trigger] s[j]),
        prefix_len(s, keep) < s.len() ==> !keep(s[prefix_len(s, keep) as int]),
    decreases s.len(),
{
    if s.len() == 0 || !keep(s[0]) {
    } else {
        let t = s.drop_first();
        lemma_prefix_len(t, keep);
        assert forall|j: int| 0 <= j < prefix_len(s, keep) implies keep(#[trigger] s[j]) by {
            if j > 0 {
                assert(s[j] == t[j - 1]);
            }
        }
    }
}

/// `prefix_len` is `k` when the first `k` items meet `keep` and the item
/// after them, if there is one, does not.
pub proof fn lemma_prefix_len_is<A>(s: Seq<A>, keep: spec_fn(A) -> bool, k: int)
    requires
        0 <= k <= s.len(),
        forall|j: int| 0 <= j < k ==> keep(#[trigger] s[j]),
        k < s.len() ==> !keep(s[k]),
    ensures
        prefix_len(s, keep) == k,
    decreases s.len(),
{
    if s.len() == 0 || !keep(s[0]) {
    } else {
        let t = s.drop_first();
        assert forall|j: int| 0 <= j < k - 1 implies keep(#[trigger] t[j]) by {
            assert(t[j] == s[j + 1]);
        }
        lemma_prefix_len_is(t, keep, k - 1);
    }
}

/// A character that ends a line: line feed or carriage return.
pub open spec fn is_break(c: char) -> bool {
    c == '\n' || c == '\r'
}

/// The number of characters of `s` before its first line break.
pub open spec fn line_len(s: Seq<char>) -> nat {
    prefix_len(s, |c: char| !is_break(c))
}

/// The length of the line ending that begins at `at`: two for a carriage
/// return followed by a line feed, one for either alone, none at the end.
pub open spec fn break_len(s: Seq<char>, at: int) -> nat {
    if at < 0 || at >= s.len() {
        0
    } else if s[at] == '\r' && at + 1 < s.len() && s[at + 1] == '\n' {
        2
    } else {
        1
    }
}

/// The lines of a text. A line ends at a line feed, at a carriage return, or
/// at a carriage return followed by a line feed; the ending is not part of the
/// line, and a text that ends with a line ending has no empty last line.
pub open spec fn lines_of(s: Seq<char>) -> Seq<Seq<char>>
    decreases s.len(),
{
    if s.len() == 0 {
        Seq::empty()
    } else {
        let n = line_len(s);
        proof {
            lemma_prefix_len(s, |c: char| !is_break(c));
        }
        seq![s.take(n as int)] + lines_of(s.skip((n + break_len(s, n as int)) as int))
    }
}

/// Skipping leading white space leaves the part from the first character
/// that is none.
pub proof fn lemma_skip_spaces_is(s: Seq<char>, k: int)
    requires
        0 <= k <= s.len(),
        forall|j: int| 0 <= j < k ==> is_space(#[trigger] s[j]),
        k < s.len() ==> !is_space(s[k]),
    ensures
        skip_spaces(s) == s.skip(k),
    decreases s.len(),
{
    if s.len() > 0 && is_space(s[0]) {
        let t = s.drop_first();
        assert forall|j: int| 0 <= j < k - 1 implies is_space(#[trigger] t[j]) by {
            assert(t[j] == s[j + 1]);
        }
        lemma_skip_spaces_is(t, k - 1);
        assert(t.skip(k - 1) =~= s.skip(k));
    } else {
        assert(s.skip(0) =~= s);
    }
}

/// Dropping trailing white space leaves the part up to the last character
/// that is none.
pub proof fn lemma_drop_trailing_spaces_is(s: Seq<char>, k: int)
    requires
        0 <= k <= s.len(),
        forall|j: int| k <= j < s.len() ==> is_space(#[trigger] s[j]),
        k > 0 ==> !is_space(s[k - 1]),
    ensures
        drop_trailing_spaces(s) == s.take(k),
    decreases s.len(),
{
    if s.len() > 0 && is_space(s.last()) {
        let t = s.drop_last();
        lemma_drop_trailing_spaces_is(t, k);
        assert(t.take(k) =~= s.take(k));
    } else {
        assert(s.take(s.len() as int) =~= s);
    }
}

/// Whether `c` is white space.
pub fn is_whitespace(c: char) -> (r: bool)
    ensures
        r == is_space(c),
{
    let n: u32 = c as u32;
    (0x09 <= n && n <= 0x0d) || n == 0x20 || n == 0x85 || n == 0xa0 || n == 0x1680 || (0x2000 <= n
        && n <= 0x200a) || n == 0x2028 || n == 0x2029 || n == 0x202f || n == 0x205f || n == 0x3000
}

/// The characters of `s`, in order.
pub fn to_chars(s: &str) -> (v: Vec<char>)
    ensures
        v@ == s@,
{
    let mut v: Vec<char> = Vec::new();
    for c in it: s.chars()
        invariant
            it.seq() == s@,
            v@ == it.seq().take(it.index()),
    {
        v.push(c);
    }
    v
}

/// The string that holds the characters `chars[from..to]`.
pub fn string_of(chars: &Vec<char>, from: usize, to: usize) -> (s: String)
    requires
        from <= to <= chars.len(),
    ensures
        s@ == chars@.subrange(from as int, to as int),
{
    let mut s = String::new();
    let mut i: usize = from;
    while i < to
        invariant
            from <= i <= to <= chars.len(),
            s@ == chars@.subrange(from as int, i as int),
        decreases to - i,
    {
        s.push(chars[i]);
        i += 1;
    }
    s
}

/// The characters `chars[from..to]` as a vector of their own.
pub fn slice_of(chars: &Vec<char>, from: usize, to: usize) -> (v: Vec<char>)
    requires
        from <= to <= chars.len(),
    ensures
        v@ == chars@.subrange(from as int, to as int),
{
    let mut v: Vec<char> = Vec::new();
    let mut i: usize = from;
    while i < to
        invariant
            from <= i <= to <= chars.len(),
            v@ == chars@.subrange(from as int, i as int),
        decreases to - i,
    {
        v.push(chars[i]);
        i += 1;
    }
    v
}

/// Where `chars[from..to]` begins and ends once the white space around it
/// is left out.
pub fn trim_bounds(chars: &Vec<char>, from: usize, to: usize) -> (r: (usize, usize))
    requires
        from <= to <= chars.len(),
    ensures
        from <= r.0 <= r.1 <= to,
        chars@.subrange(r.0 as int, r.1 as int) == trimmed(chars@.subrange(from as int, to as int)),
{
    let mut a: usize = from;
    while a < to && is_whitespace(chars[a])
        invariant
            from <= a <= to <= chars.len(),
            forall|j: int| from <= j < a ==> is_space(#[trigger] chars@[j]),
        decreases to - a,
    {
        a += 1;
    }
    let mut b: usize = to;
    while b > a && is_whitespace(chars[b - 1])
        invariant
            a <= b <= to <= chars.len(),
            forall|j: int| b <= j < to ==> is_space(#[trigger] chars@[j]),
        decreases b,
    {
        b -= 1;
    }
    proof {
        let s = chars@.subrange(from as int, to as int);
        assert forall|j: int| 0 <= j < a - from implies is_space(#[trigger] s[j]) by {
            assert(s[j] == chars@[j + from]);
        }
        if a < to {
            assert(s[a - from] == chars@[a as int]);
        }
        lemma_skip_spaces_is(s, a - from);
        let t = s.skip(a - from);
        assert forall|j: int| b - a <= j < t.len() implies is_space(#[trigger] t[j]) by {
            assert(t[j] == chars@[j + a]);
        }
        if b > a {
            assert(t[b - a - 1] == chars@[b - 1]);
        }
        lemma_drop_trailing_spaces_is(t, b - a);
        assert(t.take(b - a) =~= chars@.subrange(a as int, b as int));
    }
    (a, b)
}

/// `chars` without leading and trailing white space.
pub fn trim(chars: &Vec<char>) -> (v: Vec<char>)
    ensures
        v@ == trimmed(chars@),
{
    let bounds = trim_bounds(chars, 0, chars.len());
    proof {
        assert(chars@.subrange(0, chars.len() as int) =~= chars@);
    }
    slice_of(chars, bounds.0, bounds.1)
}

/// The lines of `chars`.
pub fn split_lines(chars: &Vec<char>) -> (lines: Vec<Vec<char>>)
    ensures
        rows(lines@) == lines_of(chars@),
{
    let n: usize = chars.len();
    let mut lines: Vec<Vec<char>> = Vec::new();
    let mut start: usize = 0;
    proof {
        assert(chars@.skip(0) =~= chars@);
        assert(rows(lines@) + lines_of(chars@) =~= lines_of(chars@));
    }
    while start < n
        invariant
            start <= n == chars.len(),
            lines_of(chars@) == rows(lines@) + lines_of(chars@.skip(start as int)),
        decreases n - start,
    {
        let ghost rest = chars@.skip(start as int);
        let mut end: usize = start;
        while end < n && chars[end] != '\n' && chars[end] != '\r'
            invariant
                start <= end <= n == chars.len(),
                forall|j: int| start <= j < end ==> !is_break(#[trigger] chars@[j]),
            decreases n - end,
        {
            end += 1;
        }
        proof {
            assert forall|j: int| 0 <= j < end - start implies !is_break(#[trigger] rest[j]) by {
                assert(rest[j] == chars@[j + start]);
            }
            lemma_prefix_len_is(rest, |c: char| !is_break(c), end - start);
        }
        let line = slice_of(chars, start, end);
        let mut next: usize = end;
        if end < n {
            if chars[end] == '\r' && end + 1 < n && chars[end + 1] == '\n' {
                next = end + 2;
            } else {
                next = end + 1;
            }
        }
        proof {
            assert(next - end == break_len(rest, end - start));
            assert(rest.take(end - start) =~= line@);
            assert(rest.skip(next - start) =~= chars@.skip(next as int));
            assert(rows(lines@.push(line)) =~= rows(lines@) + seq![line@]);
        }
        lines.push(line);
        start = next;
    }
    proof {
        assert(rows(lines@) + Seq::<Seq<char>>::empty() =~= rows(lines@));
    }
    lines
}

/// Whether `s` begins with `prefix`.
pub open spec fn starts_with(s: Seq<char>, prefix: Seq<char>) -> bool {
    s.len() >= prefix.len() && s.take(prefix.len() as int) == prefix
}

/// Whether `part` stands somewhere in `s`.
pub open spec fn contains_part(s: Seq<char>, part: Seq<char>) -> bool {
    exists|i: int| 0 <= i <= s.len() - part.len() && #[trigger] s.subrange(i, i + part.len()) == part
}

/// Whether `part` stands in `s` at `at`.
pub fn stands_at(s: &Vec<char>, at: usize, part: &Vec<char>) -> (r: bool)
    requires
        at + part.len() <= s.len(),
    ensures
        r == (s@.subrange(at as int, at + part.len()) == part@),
{
    let m: usize = part.len();
    let mut j: usize = 0;
    while j < m
        invariant
            j <= m == part.len(),
            at + m <= s.len(),
            forall|t: int| 0 <= t < j ==> s@[at + t] == part@[t],
        decreases m - j,
    {
        if s[at + j] != part[j] {
            proof {
                assert(s@.subrange(at as int, at + m)[j as int] == s@[at + j]);
            }
            return false;
        }
        j += 1;
    }
    proof {
        assert(s@.subrange(at as int, at + m) =~= part@);
    }
    true
}

/// Whether `s` begins with `prefix`.
pub fn has_prefix(s: &Vec<char>, prefix: &str) -> (r: bool)
    ensures
        r == starts_with(s@, prefix@),
{
    let part = to_chars(prefix);
    if s.len() < part.len() {
        return false;
    }
    proof {
        assert(s@.subrange(0, part.len() as int) =~= s@.take(part.len() as int));
    }
    stands_at(s, 0, &part)
}

/// Whether `part` stands somewhere in `s`.
pub fn has_part(s: &Vec<char>, part: &str) -> (r: bool)
    ensures
        r == contains_part(s@, part@),
{
    let p = to_chars(part);
    if s.len() < p.len() {
        return false;
    }
    let last: usize = s.len() - p.len();
    let mut i: usize = 0;
    while i < last
        invariant
            i <= last,
            last == s.len() - p.len(),
            p@ == part@,
            forall|t: int| 0 <= t < i ==> #[trigger] s@.subrange(t, t + p.len()) != p@,
        decreases last - i,
    {
        if stands_at(s, i, &p) {
            return true;
        }
        i += 1;
    }
    stands_at(s, last, &p)
}

} // verus!
