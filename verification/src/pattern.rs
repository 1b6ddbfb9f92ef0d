//! Finding the texts that a regular expression captures.

use crate::text::{contains_part, has_part, strs, to_chars};
use regex::Regex;
use vstd::prelude::*;

verus! {

/// `regex::Regex`, a compiled regular expression; nothing of its inside is
/// known here.
#[verifier::external_type_specification]
#[verifier::external_body]
pub struct ExRegex(regex::Regex);

/// `regex::Error`, the error of a pattern that does not compile; nothing of
/// its inside is known here.
#[verifier::external_type_specification]
#[verifier::external_body]
pub struct ExRegexError(regex::Error);

/// Whether `pattern` is a regular expression that `Regex::new` accepts.
pub uninterp spec fn regex_compiles(pattern: Seq<char>) -> bool;

/// The pattern that a compiled regular expression was made from:
/// what `Regex::as_str` returns.
pub uninterp spec fn regex_source(re: Regex) -> Seq<char>;

/// For each match of `pattern` in `text`, from left to right and none
/// overlapping another, what its first capture group holds, where that group
/// took part in the match.
pub uninterp spec fn regex_first_groups(pattern: Seq<char>, text: Seq<char>) -> Seq<
    Option<Seq<char>>,
>;

/// The views of texts of which some are absent.
pub open spec fn option_strs(v: Seq<Option<String>>) -> Seq<Option<Seq<char>>> {
    Seq::new(
        v.len(),
        |i: int|
            match v[i] {
                Some(s) => Some(s@),
                None => None,
            },
    )
}

/// Calls `Regex::new`. The call succeeds on the patterns that the crate
/// accepts, and the regular expression it gives remembers its pattern.
#[verifier::external_body]
pub(crate) fn compile(pattern: &str) -> (r: Result<Regex, regex::Error>)
    ensures
        r is Ok <==> regex_compiles(pattern@),
        r matches Ok(re) ==> regex_source(re) == pattern@,
{
    Regex::new(pattern)
}

/// Calls `Regex::captures_iter` and takes from each match its first capture
/// group with `Captures::get`: the result is what the pattern of `re`
/// captures in `text`, match by match.
#[verifier::external_body]
pub(crate) fn first_groups(re: &Regex, text: &str) -> (r: Vec<Option<String>>)
    ensures
        option_strs(r@) == regex_first_groups(regex_source(*re), text@),
{
    re.captures_iter(text).map(|c| c.get(1).map(|m| m.as_str().to_string())).collect()
}

/// `list`, and behind it each text of `found` that is present and that the
/// list does not hold yet, in the order of `found`.
pub open spec fn with_found(list: Seq<Seq<char>>, found: Seq<Option<Seq<char>>>) -> Seq<Seq<char>>
    decreases found.len(),
{
    if found.len() == 0 {
        list
    } else {
        let sofar = with_found(list, found.drop_last());
        match found.last() {
            Some(t) => if sofar.contains(t) {
                sofar
            } else {
                sofar.push(t)
            },
            None => sofar,
        }
    }
}

/// `list`, and behind it what `pattern` captures in each of `texts`, in
/// order, each captured text once.
pub open spec fn collected(list: Seq<Seq<char>>, texts: Seq<Seq<char>>, pattern: Seq<char>) -> Seq<
    Seq<char>,
>
    decreases texts.len(),
{
    if texts.len() == 0 {
        list
    } else {
        with_found(collected(list, texts.drop_last(), pattern), regex_first_groups(pattern, texts.last()))
    }
}

/// Whether one of `texts` holds `mark`.
pub open spec fn any_holds(texts: Seq<Seq<char>>, mark: Seq<char>) -> bool {
    exists|i: int| 0 <= i < texts.len() && contains_part(#[trigger] texts[i], mark)
}

/// `list`, and behind it what `pattern` captures in `texts`, each captured
/// text once, in the order in which it first occurs. The texts are searched
/// only where one of them holds `mark`, the text that every match of the
/// pattern begins with; `list` stays as it is where none does, or where
/// `pattern` is no regular expression.
pub open spec fn captured_onto(
    list: Seq<Seq<char>>,
    texts: Seq<Seq<char>>,
    pattern: Seq<char>,
    mark: Seq<char>,
) -> Seq<Seq<char>> {
    if any_holds(texts, mark) && regex_compiles(pattern) {
        collected(list, texts, pattern)
    } else {
        list
    }
}

/// Adding what was found keeps a list free of repetitions.
pub proof fn lemma_with_found_distinct(list: Seq<Seq<char>>, found: Seq<Option<Seq<char>>>)
    requires
        list.no_duplicates(),
    ensures
        with_found(list, found).no_duplicates(),
    decreases found.len(),
{
    if found.len() > 0 {
        lemma_with_found_distinct(list, found.drop_last());
    }
}

/// What is captured in texts holds nothing twice, where the list that it
/// is added to holds nothing twice.
pub proof fn lemma_captured_distinct(
    list: Seq<Seq<char>>,
    texts: Seq<Seq<char>>,
    pattern: Seq<char>,
    mark: Seq<char>,
)
    requires
        list.no_duplicates(),
    ensures
        collected(list, texts, pattern).no_duplicates(),
        captured_onto(list, texts, pattern, mark).no_duplicates(),
    decreases texts.len(),
{
    if texts.len() > 0 {
        lemma_captured_distinct(list, texts.drop_last(), pattern, mark);
        lemma_with_found_distinct(
            collected(list, texts.drop_last(), pattern),
            regex_first_groups(pattern, texts.last()),
        );
    }
}

/// Whether `list` holds `item`.
pub fn holds(list: &Vec<String>, item: &String) -> (r: bool)
    ensures
        r == strs(list@).contains(item@),
{
    let mut i: usize = 0;
    while i < list.len()
        invariant
            i <= list.len(),
            forall|j: int| 0 <= j < i ==> list[j]@ != item@,
        decreases list.len() - i,
    {
        if list[i] == *item {
            proof {
                assert(strs(list@)[i as int] == item@);
            }
            return true;
        }
        i += 1;
    }
    proof {
        if strs(list@).contains(item@) {
            let j = choose|j: int| 0 <= j < strs(list@).len() && strs(list@)[j] == item@;
            assert(list[j]@ == item@);
        }
    }
    false
}

/// Adds to `list` each text of `found` that is present and that the list
/// does not hold yet.
pub fn add_found(list: &mut Vec<String>, found: Vec<Option<String>>)
    ensures
        strs(final(list)@) == with_found(strs(old(list)@), option_strs(found@)),
{
    let ghost all = option_strs(found@);
    let ghost start = strs(list@);
    let mut found = found;
    let mut pending: Vec<Option<String>> = Vec::new();
    while found.len() > 0
        invariant
            found.len() + pending.len() == all.len(),
            forall|j: int| 0 <= j < found.len() ==> (#[trigger] option_strs(found@)[j]) == all[j],
            forall|j: int|
                0 <= j < pending.len() ==> (#[trigger] option_strs(pending@)[j]) == all[all.len() - 1
                    - j],
            strs(list@) == start,
        decreases found.len(),
    {
        let ghost before = found@;
        let ghost held = pending@;
        let item = found.pop().unwrap();
        proof {
            assert(option_strs(before)[before.len() - 1] == all[before.len() - 1]);
            assert forall|j: int| 0 <= j < found.len() implies (#[trigger] option_strs(found@)[j])
                == all[j] by {
                assert(option_strs(before)[j] == all[j]);
            }
            assert forall|j: int| 0 <= j < held.len() + 1 implies (#[trigger] option_strs(
                held.push(item),
            )[j]) == all[all.len() - 1 - j] by {
                if j < held.len() {
                    assert(option_strs(held)[j] == all[all.len() - 1 - j]);
                }
            }
        }
        pending.push(item);
    }
    proof {
        assert(all.take(0) =~= Seq::<Option<Seq<char>>>::empty());
    }
    while pending.len() > 0
        invariant
            pending.len() <= all.len(),
            forall|j: int|
                0 <= j < pending.len() ==> (#[trigger] option_strs(pending@)[j]) == all[all.len() - 1
                    - j],
            strs(list@) == with_found(start, all.take(all.len() - pending.len())),
        decreases pending.len(),
    {
        let ghost before = pending@;
        let ghost k = all.len() - pending.len();
        let item = pending.pop().unwrap();
        proof {
            assert(option_strs(before)[before.len() - 1] == all[k]);
            assert forall|j: int| 0 <= j < pending.len() implies (#[trigger] option_strs(pending@)[j])
                == all[all.len() - 1 - j] by {
                assert(option_strs(before)[j] == all[all.len() - 1 - j]);
            }
            assert(all.take(k + 1).drop_last() =~= all.take(k));
            assert(all.take(k + 1).last() == all[k]);
        }
        match item {
            Some(text) => {
                if !holds(list, &text) {
                    proof {
                        assert(strs(list@.push(text)) =~= strs(list@).push(text@));
                    }
                    list.push(text);
                }
            },
            None => {},
        }
    }
    proof {
        assert(all.take(all.len() as int) =~= all);
    }
}

/// Whether one of `texts` holds `mark`.
pub fn holds_mark(texts: &Vec<String>, mark: &str) -> (r: bool)
    ensures
        r == any_holds(strs(texts@), mark@),
{
    let mut i: usize = 0;
    while i < texts.len()
        invariant
            i <= texts.len(),
            forall|j: int| 0 <= j < i ==> !contains_part(#[trigger] strs(texts@)[j], mark@),
        decreases texts.len() - i,
    {
        let chars = to_chars(texts[i].as_str());
        if has_part(&chars, mark) {
            proof {
                assert(contains_part(strs(texts@)[i as int], mark@));
            }
            return true;
        }
        i += 1;
    }
    false
}

/// Adds to `list` what `pattern` captures in `texts`, each captured text
/// once. The texts are searched only where one of them holds `mark`.
pub fn find_captured(list: &mut Vec<String>, texts: &Vec<String>, pattern: &str, mark: &str)
    ensures
        strs(final(list)@) == captured_onto(strs(old(list)@), strs(texts@), pattern@, mark@),
{
    if !holds_mark(texts, mark) {
        return ;
    }
    match compile(pattern) {
        Ok(re) => {
            let ghost all = strs(texts@);
            let ghost start = strs(list@);
            let mut i: usize = 0;
            proof {
                assert(all.take(0) =~= Seq::<Seq<char>>::empty());
            }
            while i < texts.len()
                invariant
                    i <= texts.len(),
                    all == strs(texts@),
                    regex_source(re) == pattern@,
                    strs(list@) == collected(start, all.take(i as int), pattern@),
                decreases texts.len() - i,
            {
                proof {
                    assert(all.take(i + 1).drop_last() =~= all.take(i as int));
                    assert(all.take(i + 1).last() == texts[i as int]@);
                }
                let groups = first_groups(&re, texts[i].as_str());
                add_found(list, groups);
                i += 1;
            }
            proof {
                assert(all.take(texts.len() as int) =~= all);
            }
        },
        Err(_) => {},
    }
}

} // verus!
