//! Facts about lines and matches, stated over the model and proved from it.

use vstd::prelude::*;
use vstd::string::*;
use crate::fold::{holds_ignoring_case, matching_lines_ignoring_case, selected_lines};
use crate::model::{
    after_first_line, first_line, holds, is_slice_of, lemma_line_len_stops, lines_of,
    matching_lines, occurs_at, occurs_in, texts_of, LINE_FEED,
};

verus! {

/// `at` names, for each item of `part` in turn, a place in `whole` where that
/// item stands, and the places rise: `part` is drawn from `whole` in order.
pub open spec fn picks<A>(part: Seq<A>, whole: Seq<A>, at: Seq<int>) -> bool {
    &&& at.len() == part.len()
    &&& forall|i: int| 0 <= i < at.len() ==> 0 <= #[trigger] at[i] < whole.len()
    &&& forall|i: int| 0 <= i < at.len() ==> whole[#[trigger] at[i]] == part[i]
    &&& forall|i: int, j: int| 0 <= i < j < at.len() ==> #[trigger] at[i] < #[trigger] at[j]
}

/// The test by which a search selects, with or without regard to case.
pub open spec fn selects_by(query: Seq<char>, ignore_case: bool) -> spec_fn(Seq<char>) -> bool {
    if ignore_case {
        holds_ignoring_case(query)
    } else {
        holds(query)
    }
}

/// A selection that every item passes keeps the sequence as it is.
proof fn lemma_filter_keeps_all<A>(items: Seq<A>, keep: spec_fn(A) -> bool)
    requires
        forall|i: int| 0 <= i < items.len() ==> keep(#[trigger] items[i]),
    ensures
        items.filter(keep) == items,
    decreases items.len(),
{
    reveal(Seq::filter);
    if items.len() > 0 {
        lemma_filter_keeps_all(items.drop_last(), keep);
        assert(items.drop_last().push(items.last()) =~= items);
    }
}

/// A selection is drawn from the sequence in order; the result names the places.
proof fn lemma_filter_picks<A>(items: Seq<A>, keep: spec_fn(A) -> bool) -> (at: Seq<int>)
    ensures
        picks(items.filter(keep), items, at),
    decreases items.len(),
{
    reveal(Seq::filter);
    if items.len() == 0 {
        Seq::empty()
    } else {
        let before = lemma_filter_picks(items.drop_last(), keep);
        if keep(items.last()) {
            before.push(items.len() - 1)
        } else {
            before
        }
    }
}

/// The empty text occurs in every text.
pub proof fn law_empty_occurs_everywhere(hay: Seq<char>)
    ensures
        occurs_in(Seq::empty(), hay),
{
    assert(hay.subrange(0, 0) =~= Seq::<char>::empty());
    assert(occurs_at(Seq::empty(), hay, 0));
}

/// With the empty query every line of the contents matches: the result is
/// all the lines, in order.
pub proof fn law_empty_query_matches_every_line(contents: Seq<char>)
    ensures
        matching_lines(Seq::empty(), contents) == lines_of(contents),
{
    let lines = lines_of(contents);
    let keep = holds(Seq::empty());
    assert forall|i: int| 0 <= i < lines.len() implies keep(#[trigger] lines[i]) by {
        law_empty_occurs_everywhere(lines[i]);
    }
    lemma_filter_keeps_all(lines, keep);
}

/// In empty contents nothing matches, whatever the query, with or without
/// regard to case.
pub proof fn law_empty_contents_match_nothing(query: Seq<char>, ignore_case: bool)
    ensures
        selected_lines(query, Seq::empty(), ignore_case).len() == 0,
{
    reveal(Seq::filter);
}

/// A search is a function of its arguments: two results for the same query,
/// contents and regard to case hold the same texts in the same order.
pub proof fn law_same_inputs_same_matches(
    first: Seq<&str>,
    second: Seq<&str>,
    query: Seq<char>,
    contents: Seq<char>,
    ignore_case: bool,
)
    requires
        texts_of(first) == selected_lines(query, contents, ignore_case),
        texts_of(second) == selected_lines(query, contents, ignore_case),
    ensures
        first.len() == second.len(),
        forall|i: int| 0 <= i < first.len() ==> (#[trigger] first[i])@ == second[i]@,
{
    assert(texts_of(first).len() == first.len());
    assert(texts_of(second).len() == second.len());
    assert forall|i: int| 0 <= i < first.len() implies (#[trigger] first[i])@ == second[i]@ by {
        assert(texts_of(first)[i] == texts_of(second)[i]);
    }
}

/// A line is among the matches exactly where it is a line of the contents
/// and passes the test.
pub proof fn law_match_is_line_that_passes(
    line: Seq<char>,
    query: Seq<char>,
    contents: Seq<char>,
    ignore_case: bool,
)
    ensures
        selected_lines(query, contents, ignore_case).contains(line) <==> lines_of(
            contents,
        ).contains(line) && selects_by(query, ignore_case)(line),
{
    let lines = lines_of(contents);
    let keep = selects_by(query, ignore_case);
    let matches = lines.filter(keep);
    assert(matches == selected_lines(query, contents, ignore_case));
    if matches.contains(line) {
        let i = choose|i: int| 0 <= i < matches.len() && matches[i] == line;
        lines.lemma_filter_pred(keep, i);
        lines.lemma_filter_contains_rev(keep, line);
    }
    if lines.contains(line) && keep(line) {
        let i = choose|i: int| 0 <= i < lines.len() && lines[i] == line;
        lines.lemma_filter_contains(keep, i);
    }
}

/// The matches stand in the order of the lines they are: they can be told
/// off against the lines of the contents at places that rise.
pub proof fn law_matches_stand_in_line_order(
    query: Seq<char>,
    contents: Seq<char>,
    ignore_case: bool,
)
    ensures
        exists|at: Seq<int>|
            picks(selected_lines(query, contents, ignore_case), lines_of(contents), at),
{
    let at = lemma_filter_picks(lines_of(contents), selects_by(query, ignore_case));
    assert(picks(selected_lines(query, contents, ignore_case), lines_of(contents), at));
}

/// No line holds a line feed.
pub proof fn law_lines_hold_no_line_feed(text: Seq<char>)
    ensures
        forall|i: int, j: int|
            0 <= i < lines_of(text).len() && 0 <= j < lines_of(text)[i].len()
                ==> #[trigger] lines_of(text)[i][j] != LINE_FEED,
    decreases text.len(),
{
    if text.len() > 0 {
        let rest = after_first_line(text);
        lemma_line_len_stops(text);
        law_lines_hold_no_line_feed(rest);
        assert forall|i: int, j: int|
            0 <= i < lines_of(text).len() && 0 <= j < lines_of(text)[i].len()
            implies #[trigger] lines_of(text)[i][j] != LINE_FEED by {
            if i == 0 {
                assert(first_line(text)[j] == text[j]);
            } else {
                assert(lines_of(text)[i] == lines_of(rest)[i - 1]);
            }
        }
    }
}

/// Each line is a contiguous part of the text, character for character.
pub proof fn law_lines_are_slices(text: Seq<char>)
    ensures
        forall|i: int|
            0 <= i < lines_of(text).len() ==> is_slice_of(#[trigger] lines_of(text)[i], text),
    decreases text.len(),
{
    if text.len() > 0 {
        let rest = after_first_line(text);
        let skipped = text.len() - rest.len();
        lemma_line_len_stops(text);
        law_lines_are_slices(rest);
        assert forall|i: int| 0 <= i < lines_of(text).len() implies is_slice_of(
            #[trigger] lines_of(text)[i],
            text,
        ) by {
            if i == 0 {
                let line = first_line(text);
                assert(text.subrange(0, line.len() as int) =~= line);
            } else {
                let line = lines_of(rest)[i - 1];
                assert(lines_of(text)[i] == line);
                let (from, to) = choose|from: int, to: int|
                    0 <= from <= to <= rest.len() && rest.subrange(from, to) == line;
                assert(text.subrange(skipped + from, skipped + to) =~= line);
            }
        }
    }
}

/// Ignoring case changes which lines are chosen, never the lines: each match
/// is a line of the contents and a contiguous part of them, character for
/// character. The same holds where case counts.
pub proof fn law_matches_keep_their_case(query: Seq<char>, contents: Seq<char>, ignore_case: bool)
    ensures
        forall|i: int|
            0 <= i < selected_lines(query, contents, ignore_case).len() ==> {
                let line = #[trigger] selected_lines(query, contents, ignore_case)[i];
                lines_of(contents).contains(line) && is_slice_of(line, contents)
            },
{
    let lines = lines_of(contents);
    let matches = selected_lines(query, contents, ignore_case);
    law_lines_are_slices(contents);
    assert forall|i: int| 0 <= i < matches.len() implies lines.contains(#[trigger] matches[i])
        && is_slice_of(matches[i], contents) by {
        assert(matches.contains(matches[i]));
        lines.lemma_filter_contains_rev(selects_by(query, ignore_case), matches[i]);
    }
}

} // verus!
