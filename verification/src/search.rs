//! The search itself: the lines of a text in which a query occurs.

use vstd::prelude::*;
use vstd::string::*;
use crate::fold::lowercase;
use crate::lines::{lines, lines_of};
use crate::pattern::{contains, lemma_empty_occurs, occurs_in};
use crate::subsequence::{
    is_subsequence, lemma_filter_is_subsequence, lemma_filter_keeps_all, lemma_filter_keeps_none,
};

verus! {

/// What a line is compared by: the line itself, or its lower-case form.
pub open spec fn compared(line: Seq<char>, fold: bool) -> Seq<char> {
    if fold {
        lowercase(line)
    } else {
        line
    }
}

/// Those of `lines`, in their order, in which `needle` occurs. With `fold`
/// each line is compared by its lower-case form and kept as it was.
pub open spec fn selected(needle: Seq<char>, lines: Seq<Seq<char>>, fold: bool) -> Seq<Seq<char>> {
    lines.filter(|line: Seq<char>| occurs_in(needle, compared(line, fold)))
}

/// The lines of `content` that contain `query`.
pub open spec fn matching_lines(query: Seq<char>, content: Seq<char>) -> Seq<Seq<char>> {
    selected(query, lines_of(content), false)
}

/// The lines of `content` whose lower-case form contains the lower-case
/// form of `query`.
pub open spec fn matching_lines_folded(query: Seq<char>, content: Seq<char>) -> Seq<Seq<char>> {
    selected(lowercase(query), lines_of(content), true)
}

/// The empty needle selects every line, in order.
pub proof fn lemma_empty_needle_selects_all(lines: Seq<Seq<char>>, fold: bool)
    ensures
        selected(Seq::empty(), lines, fold) == lines,
{
    let keep = |line: Seq<char>| occurs_in(Seq::<char>::empty(), compared(line, fold));
    assert forall|i: int| 0 <= i < lines.len() implies keep(#[trigger] lines[i]) by {
        lemma_empty_occurs(compared(lines[i], fold));
    }
    lemma_filter_keeps_all(lines, keep);
}

/// A needle that occurs in no line selects nothing.
pub proof fn lemma_absent_needle_selects_none(needle: Seq<char>, lines: Seq<Seq<char>>, fold: bool)
    requires
        forall|i: int|
            0 <= i < lines.len() ==> !occurs_in(needle, compared(#[trigger] lines[i], fold)),
    ensures
        selected(needle, lines, fold).len() == 0,
{
    lemma_filter_keeps_none(lines, |line: Seq<char>| occurs_in(needle, compared(line, fold)));
}

/// What is selected is a subsequence of the lines: no line added, none
/// repeated, none moved.
pub proof fn lemma_selected_keeps_order(needle: Seq<char>, lines: Seq<Seq<char>>, fold: bool)
    ensures
        is_subsequence(selected(needle, lines, fold), lines),
{
    lemma_filter_is_subsequence(lines, |line: Seq<char>| occurs_in(needle, compared(line, fold)));
}

/// Where folding keeps every occurrence of `query` in a line of `content`,
/// each line that the exact search finds is found by the folded search too.
///
/// Folding does not keep every occurrence: the lower-case form of a capital
/// sigma depends on the letters around it, so a query may occur in a line
/// while its lower-case form does not occur in the line's.
pub proof fn lemma_folded_finds_exact_matches(query: Seq<char>, content: Seq<char>)
    requires
        forall|i: int|
            0 <= i < lines_of(content).len() && occurs_in(query, #[trigger] lines_of(content)[i])
                ==> occurs_in(lowercase(query), lowercase(lines_of(content)[i])),
    ensures
        matching_lines(query, content).to_set().subset_of(
            matching_lines_folded(query, content).to_set(),
        ),
{
    let all = lines_of(content);
    let exact = |line: Seq<char>| occurs_in(query, compared(line, false));
    let folded = |line: Seq<char>| occurs_in(lowercase(query), compared(line, true));
    assert forall|line: Seq<char>| all.filter(exact).contains(line) implies all.filter(
        folded,
    ).contains(line) by {
        all.lemma_filter_contains_rev(exact, line);
        let i = choose|i: int| 0 <= i < all.len() && all[i] == line;
        all.lemma_filter_contains(folded, i);
    }
}

/// Two exact searches with the same query on the same text return the same
/// lines, and so do two folded ones: the result depends on nothing else.
pub proof fn lemma_search_repeats(
    query: Seq<char>,
    content: Seq<char>,
    fold: bool,
    first: Seq<Seq<char>>,
    second: Seq<Seq<char>>,
)
    requires
        first == (if fold {
            matching_lines_folded(query, content)
        } else {
            matching_lines(query, content)
        }),
        second == (if fold {
            matching_lines_folded(query, content)
        } else {
            matching_lines(query, content)
        }),
    ensures
        first == second,
{
}

/// One pass over the lines of `content`, keeping each line in which
/// `needle` occurs.
fn scan<'a>(needle: &str, content: &'a str, fold: bool) -> (out: Vec<&'a str>)
    ensures
        out.deep_view() == selected(needle@, lines_of(content@), fold),
{
    let all = lines(content);
    let mut out: Vec<&'a str> = Vec::new();
    let mut i: usize = 0;
    proof {
        reveal(Seq::filter);
    }
    while i < all.len()
        invariant
            i <= all.len(),
            out.deep_view() == selected(needle@, all.deep_view().take(i as int), fold),
        decreases all.len() - i,
    {
        let line: &'a str = all[i];
        let hit = if fold {
            let key = line.to_lowercase();
            contains(key.as_str(), needle)
        } else {
            contains(line, needle)
        };
        if hit {
            out.push(line);
        }
        proof {
            let seen = all.deep_view().take(i as int);
            assert(all.deep_view().take(i + 1) =~= seen.push(line@));
            seen.lemma_filter_push(
                line@,
                |line: Seq<char>| occurs_in(needle@, compared(line, fold)),
            );
        }
        i += 1;
    }
    assert(all.deep_view().take(i as int) =~= all.deep_view());
    out
}

/// The lines of `content` that contain `query`, in order, each a slice of
/// `content`. The empty query finds every line; a query that occurs in no
/// line finds none.
pub fn search<'a>(query: &str, content: &'a str) -> (found: Vec<&'a str>)
    ensures
        found.deep_view() == matching_lines(query@, content@),
        is_subsequence(found.deep_view(), lines_of(content@)),
        query@.len() == 0 ==> found.deep_view() == lines_of(content@),
        (forall|i: int|
            0 <= i < lines_of(content@).len() ==> !occurs_in(
                query@,
                #[trigger] lines_of(content@)[i],
            )) ==> found@.len() == 0,
{
    let found = scan(query, content, false);
    proof {
        let all = lines_of(content@);
        lemma_selected_keeps_order(query@, all, false);
        if query@.len() == 0 {
            assert(query@ =~= Seq::empty());
            lemma_empty_needle_selects_all(all, false);
        }
        if forall|i: int| 0 <= i < all.len() ==> !occurs_in(query@, #[trigger] all[i]) {
            lemma_absent_needle_selects_none(query@, all, false);
        }
    }
    found
}

/// The lines of `content` whose lower-case form contains the lower-case
/// form of `query`, in order, each a slice of `content` as it stands there.
/// A query whose lower-case form is empty finds every line; one whose
/// lower-case form occurs in no line's finds none.
pub fn search_case_insensitive<'a>(query: &str, content: &'a str) -> (found: Vec<&'a str>)
    ensures
        found.deep_view() == matching_lines_folded(query@, content@),
        is_subsequence(found.deep_view(), lines_of(content@)),
        lowercase(query@).len() == 0 ==> found.deep_view() == lines_of(content@),
        (forall|i: int|
            0 <= i < lines_of(content@).len() ==> !occurs_in(
                lowercase(query@),
                lowercase(#[trigger] lines_of(content@)[i]),
            )) ==> found@.len() == 0,
{
    let needle = query.to_lowercase();
    let found = scan(needle.as_str(), content, true);
    proof {
        let all = lines_of(content@);
        lemma_selected_keeps_order(needle@, all, true);
        if needle@.len() == 0 {
            assert(needle@ =~= Seq::empty());
            lemma_empty_needle_selects_all(all, true);
        }
        if forall|i: int|
            0 <= i < all.len() ==> !occurs_in(needle@, lowercase(#[trigger] all[i])) {
            lemma_absent_needle_selects_none(needle@, all, true);
        }
    }
    found
}

} // verus!
