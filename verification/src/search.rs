//! The line filter: the lines of a document that hold a term, as they are or
//! with letters of either case taken alike.

use vstd::prelude::*;
use crate::lines::{lines_of, split_first_line};
use crate::lowercase::lowercase;
use crate::pattern::{contains, lemma_empty_occurs, occurs_in};
use crate::subsequence::{
    is_subsequence,
    lemma_filter_is_subsequence,
    lemma_filter_keeps_all,
    lemma_filter_narrower,
};

verus! {

/// The texts of a sequence of string slices.
pub open spec fn texts(lines: Seq<&str>) -> Seq<Seq<char>> {
    Seq::new(lines.len(), |i: int| lines[i]@)
}

/// The test a line passes when it holds `term` as it is written.
pub open spec fn holds(term: Seq<char>) -> spec_fn(Seq<char>) -> bool {
    |line: Seq<char>| occurs_in(term, line)
}

/// The test a line passes when its lowercase form holds the lowercase form of `term`.
pub open spec fn holds_folded(term: Seq<char>) -> spec_fn(Seq<char>) -> bool {
    |line: Seq<char>| occurs_in(lowercase(term), lowercase(line))
}

/// The lines of `document` that hold `term`, in the order of the document.
pub open spec fn matching_lines(term: Seq<char>, document: Seq<char>) -> Seq<Seq<char>> {
    lines_of(document).filter(holds(term))
}

/// The lines of `document` that hold `term` when case is ignored, in the order
/// of the document and as the document writes them.
pub open spec fn matching_lines_folded(term: Seq<char>, document: Seq<char>) -> Seq<Seq<char>> {
    lines_of(document).filter(holds_folded(term))
}

/// What the line filter keeps of `document` for `term`: its lines that hold the
/// term, case ignored where `case_insensitive` is set.
pub open spec fn selected_lines(
    term: Seq<char>,
    document: Seq<char>,
    case_insensitive: bool,
) -> Seq<Seq<char>> {
    if case_insensitive {
        matching_lines_folded(term, document)
    } else {
        matching_lines(term, document)
    }
}

/// Every line that a case-sensitive search keeps holds the term.
pub proof fn lemma_matches_hold_term(term: Seq<char>, document: Seq<char>, i: int)
    requires
        0 <= i < matching_lines(term, document).len(),
    ensures
        occurs_in(term, matching_lines(term, document)[i]),
{
    lines_of(document).lemma_filter_pred(holds(term), i);
}

/// Every line that a case-insensitive search keeps holds the term once both are
/// in lowercase.
pub proof fn lemma_folded_matches_hold_term(term: Seq<char>, document: Seq<char>, i: int)
    requires
        0 <= i < matching_lines_folded(term, document).len(),
    ensures
        occurs_in(lowercase(term), lowercase(matching_lines_folded(term, document)[i])),
{
    lines_of(document).lemma_filter_pred(holds_folded(term), i);
}

/// In either mode the lines kept are lines of the document, in the order of the
/// document: none is made up, none changes its place.
pub proof fn lemma_selected_in_document_order(
    term: Seq<char>,
    document: Seq<char>,
    case_insensitive: bool,
)
    ensures
        is_subsequence(selected_lines(term, document, case_insensitive), lines_of(document)),
{
    lemma_filter_is_subsequence(lines_of(document), holds(term));
    lemma_filter_is_subsequence(lines_of(document), holds_folded(term));
}

/// The empty term is held by every line: a case-sensitive search for it keeps
/// all lines of the document.
pub proof fn lemma_empty_term_keeps_all(document: Seq<char>)
    ensures
        matching_lines(Seq::<char>::empty(), document) == lines_of(document),
{
    let lines = lines_of(document);
    let test = holds(Seq::<char>::empty());
    assert forall|i: int| 0 <= i < lines.len() implies test(#[trigger] lines[i]) by {
        lemma_empty_occurs(lines[i]);
    }
    lemma_filter_keeps_all(lines, test);
}

/// Ignoring case keeps every line that the case-sensitive search keeps, in the
/// same order, for a term and a document in which no line that holds the term
/// loses it when both are put in lowercase.
pub proof fn lemma_folding_keeps_matches(term: Seq<char>, document: Seq<char>)
    requires
        forall|i: int|
            0 <= i < lines_of(document).len() && occurs_in(term, #[trigger] lines_of(document)[i])
                ==> occurs_in(lowercase(term), lowercase(lines_of(document)[i])),
    ensures
        is_subsequence(matching_lines(term, document), matching_lines_folded(term, document)),
{
    lemma_filter_narrower(lines_of(document), holds(term), holds_folded(term));
}

/// The line filter is a function of its three inputs: whatever two runs on the
/// same term, document and mode return, they return the same lines in the same
/// order.
pub proof fn lemma_filter_repeatable(
    term: Seq<char>,
    document: Seq<char>,
    case_insensitive: bool,
    first: Seq<&str>,
    second: Seq<&str>,
)
    requires
        texts(first) == selected_lines(term, document, case_insensitive),
        texts(second) == selected_lines(term, document, case_insensitive),
    ensures
        first.len() == second.len(),
        forall|i: int| 0 <= i < first.len() ==> first[i]@ == second[i]@,
{
    assert(texts(first).len() == first.len());
    assert(texts(second).len() == second.len());
    assert forall|i: int| 0 <= i < first.len() implies first[i]@ == second[i]@ by {
        assert(texts(first)[i] == texts(second)[i]);
    }
}

/// Filtering a sequence that begins with `first`: `first` is kept or dropped by
/// the test, and the rest is filtered as before.
proof fn lemma_filter_first<T>(first: T, rest: Seq<T>, test: spec_fn(T) -> bool)
    ensures
        (seq![first] + rest).filter(test) == if test(first) {
            seq![first] + rest.filter(test)
        } else {
            rest.filter(test)
        },
{
    reveal_with_fuel(Seq::filter, 2);
    Seq::filter_distributes_over_add(seq![first], rest, test);
    assert(seq![first].drop_last() =~= Seq::<T>::empty());
    if test(first) {
        assert(seq![first].filter(test) =~= seq![first]);
    } else {
        assert(seq![first].filter(test) =~= Seq::<T>::empty());
        assert(Seq::<T>::empty() + rest.filter(test) =~= rest.filter(test));
    }
}

/// Performs a case-sensitive search: the lines of `contents` that hold
/// `search_for`, in the order of `contents`. An empty `search_for` is held by
/// every line.
pub fn search<'a>(search_for: &str, contents: &'a str) -> (found: Vec<&'a str>)
    ensures
        texts(found@) == matching_lines(search_for@, contents@),
        forall|i: int| 0 <= i < found@.len() ==> occurs_in(search_for@, #[trigger] found@[i]@),
        is_subsequence(texts(found@), lines_of(contents@)),
        search_for@.len() == 0 ==> texts(found@) == lines_of(contents@),
{
    let ghost test = holds(search_for@);
    let mut found: Vec<&'a str> = Vec::new();
    let mut rest: &'a str = contents;
    assert(texts(found@) + lines_of(rest@).filter(test) =~= lines_of(contents@).filter(test));
    while !rest.is_empty()
        invariant
            test == holds(search_for@),
            texts(found@) + lines_of(rest@).filter(test) == lines_of(contents@).filter(test),
        decreases rest@.len(),
    {
        let (line, after) = split_first_line(rest);
        let kept = contains(line, search_for);
        proof {
            lemma_filter_first(line@, lines_of(after@), test);
        }
        let ghost before = texts(found@);
        if kept {
            found.push(line);
            assert(texts(found@) =~= before + seq![line@]);
            assert(texts(found@) + lines_of(after@).filter(test) =~= before + (seq![line@]
                + lines_of(after@).filter(test)));
        }
        rest = after;
    }
    proof {
        reveal(Seq::filter);
        assert(texts(found@) + lines_of(rest@).filter(test) =~= texts(found@));
        assert forall|i: int| 0 <= i < found@.len() implies occurs_in(
            search_for@,
            #[trigger] found@[i]@,
        ) by {
            lemma_matches_hold_term(search_for@, contents@, i);
            assert(texts(found@)[i] == found@[i]@);
        }
        lemma_selected_in_document_order(search_for@, contents@, false);
        if search_for@.len() == 0 {
            assert(search_for@ =~= Seq::<char>::empty());
            lemma_empty_term_keeps_all(contents@);
        }
    }
    found
}

/// Performs a case-insensitive search: the lines of `contents` whose lowercase
/// form holds the lowercase form of `search_for`, in the order of `contents`
/// and as `contents` writes them.
pub fn search_case_insensitive<'a>(search_for: &str, contents: &'a str) -> (found: Vec<&'a str>)
    ensures
        texts(found@) == matching_lines_folded(search_for@, contents@),
        forall|i: int|
            0 <= i < found@.len() ==> occurs_in(
                lowercase(search_for@),
                lowercase(#[trigger] found@[i]@),
            ),
        is_subsequence(texts(found@), lines_of(contents@)),
{
    let ghost test = holds_folded(search_for@);
    let folded_term = search_for.to_lowercase();
    let mut found: Vec<&'a str> = Vec::new();
    let mut rest: &'a str = contents;
    assert(texts(found@) + lines_of(rest@).filter(test) =~= lines_of(contents@).filter(test));
    while !rest.is_empty()
        invariant
            test == holds_folded(search_for@),
            folded_term@ == lowercase(search_for@),
            texts(found@) + lines_of(rest@).filter(test) == lines_of(contents@).filter(test),
        decreases rest@.len(),
    {
        let (line, after) = split_first_line(rest);
        let folded_line = line.to_lowercase();
        let kept = contains(folded_line.as_str(), folded_term.as_str());
        proof {
            lemma_filter_first(line@, lines_of(after@), test);
        }
        let ghost before = texts(found@);
        if kept {
            found.push(line);
            assert(texts(found@) =~= before + seq![line@]);
            assert(texts(found@) + lines_of(after@).filter(test) =~= before + (seq![line@]
                + lines_of(after@).filter(test)));
        }
        rest = after;
    }
    proof {
        reveal(Seq::filter);
        assert(texts(found@) + lines_of(rest@).filter(test) =~= texts(found@));
        assert forall|i: int| 0 <= i < found@.len() implies occurs_in(
            lowercase(search_for@),
            lowercase(#[trigger] found@[i]@),
        ) by {
            lemma_folded_matches_hold_term(search_for@, contents@, i);
            assert(texts(found@)[i] == found@[i]@);
        }
        lemma_selected_in_document_order(search_for@, contents@, true);
    }
    found
}

/// The line filter: the lines of `document` that hold `term`, in the order of
/// `document` and as it writes them. With `case_insensitive` set, a line is kept
/// when its lowercase form holds the lowercase form of `term`.
pub fn filter<'a>(term: &str, document: &'a str, case_insensitive: bool) -> (kept: Vec<&'a str>)
    ensures
        texts(kept@) == selected_lines(term@, document@, case_insensitive),
        is_subsequence(texts(kept@), lines_of(document@)),
{
    if case_insensitive {
        search_case_insensitive(term, document)
    } else {
        search(term, document)
    }
}

} // verus!
