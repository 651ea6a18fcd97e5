//! The mathematical model: a text is the sequence of its characters; its
//! lines, and the occurrences of a query in them.

use vstd::prelude::*;

verus! {

/// The line feed, which ends a line.
pub const LINE_FEED: char = '\n';

/// The carriage return, which belongs to the terminator where it stands
/// directly before a line feed.
pub const CARRIAGE_RETURN: char = '\r';

/// The number of characters that stand before the first line feed of `text`;
/// the length of `text` where it holds no line feed.
pub open spec fn line_len(text: Seq<char>) -> nat
    decreases text.len(),
{
    if text.len() == 0 || text[0] == LINE_FEED {
        0
    } else {
        1 + line_len(text.drop_first())
    }
}

/// `line` without its last character where that is a carriage return.
pub open spec fn trim_carriage_return(line: Seq<char>) -> Seq<char> {
    if line.len() > 0 && line.last() == CARRIAGE_RETURN {
        line.drop_last()
    } else {
        line
    }
}

/// The first line of a non-empty `text`, without its terminator. A terminator
/// is a line feed, or a carriage return directly followed by a line feed. A
/// text without a line feed is its own first line, a final carriage return
/// included.
pub open spec fn first_line(text: Seq<char>) -> Seq<char> {
    let n = line_len(text) as int;
    if n < text.len() {
        trim_carriage_return(text.take(n))
    } else {
        text
    }
}

/// What remains of `text` behind its first line and that line's terminator.
pub open spec fn after_first_line(text: Seq<char>) -> Seq<char> {
    let n = line_len(text) as int;
    if n < text.len() {
        text.skip(n + 1)
    } else {
        Seq::empty()
    }
}

/// The lines of `text`, in order. The empty text has no line, and a final
/// terminator opens no further line.
pub open spec fn lines_of(text: Seq<char>) -> Seq<Seq<char>>
    decreases text.len(),
{
    if text.len() == 0 {
        Seq::empty()
    } else {
        seq![first_line(text)] + lines_of(after_first_line(text))
    }
}

/// `needle` stands in `hay` as a contiguous run that starts at index `at`.
pub open spec fn occurs_at<A>(needle: Seq<A>, hay: Seq<A>, at: int) -> bool {
    &&& 0 <= at
    &&& at + needle.len() <= hay.len()
    &&& hay.subrange(at, at + needle.len()) == needle
}

/// `needle` stands somewhere in `hay` as a contiguous run.
pub open spec fn occurs_in<A>(needle: Seq<A>, hay: Seq<A>) -> bool {
    exists|at: int| occurs_at(needle, hay, at)
}

/// `piece` is a contiguous part of `text`.
pub open spec fn is_slice_of(piece: Seq<char>, text: Seq<char>) -> bool {
    exists|from: int, to: int| 0 <= from <= to <= text.len() && text.subrange(from, to) == piece
}

/// The test that a line holds `query`.
pub open spec fn holds(query: Seq<char>) -> spec_fn(Seq<char>) -> bool {
    |line: Seq<char>| occurs_in(query, line)
}

/// The lines of `contents` in which `query` occurs, in the order in which
/// they stand in `contents`, each once.
pub open spec fn matching_lines(query: Seq<char>, contents: Seq<char>) -> Seq<Seq<char>> {
    lines_of(contents).filter(holds(query))
}

/// The texts of `lines`, in the same order.
pub open spec fn texts_of(lines: Seq<&str>) -> Seq<Seq<char>> {
    Seq::new(lines.len(), |i: int| lines[i]@)
}

/// `line_len` is the one index up to which `text` holds no line feed and at
/// which it ends or holds one.
pub proof fn lemma_line_len_is(text: Seq<char>, n: int)
    requires
        0 <= n <= text.len(),
        forall|j: int| 0 <= j < n ==> text[j] != LINE_FEED,
        n < text.len() ==> text[n] == LINE_FEED,
    ensures
        line_len(text) == n,
    decreases n,
{
    if n > 0 {
        lemma_line_len_is(text.drop_first(), n - 1);
    }
}

/// `line_len` stays within `text`, passes no line feed, and stops at one
/// where it stops before the end.
pub proof fn lemma_line_len_stops(text: Seq<char>)
    ensures
        line_len(text) <= text.len(),
        forall|j: int| 0 <= j < line_len(text) ==> text[j] != LINE_FEED,
        line_len(text) < text.len() ==> text[line_len(text) as int] == LINE_FEED,
    decreases text.len(),
{
    if text.len() > 0 && text[0] != LINE_FEED {
        let rest = text.drop_first();
        lemma_line_len_stops(rest);
        assert forall|j: int| 0 <= j < line_len(text) implies text[j] != LINE_FEED by {
            if j > 0 {
                assert(text[j] == rest[j - 1]);
            }
        }
        if line_len(text) < text.len() {
            assert(text[line_len(text) as int] == rest[line_len(rest) as int]);
        }
    }
}

/// Selecting among the lines of a non-empty text is deciding on its first
/// line and selecting among the lines of the rest.
pub proof fn lemma_select_first_line(text: Seq<char>, keep: spec_fn(Seq<char>) -> bool)
    requires
        text.len() > 0,
    ensures
        lines_of(text).filter(keep) == (if keep(first_line(text)) {
            seq![first_line(text)]
        } else {
            Seq::empty()
        }) + lines_of(after_first_line(text)).filter(keep),
{
    let first = seq![first_line(text)];
    Seq::filter_distributes_over_add(first, lines_of(after_first_line(text)), keep);
    reveal_with_fuel(Seq::filter, 2);
    assert(first.drop_last() =~= Seq::<Seq<char>>::empty());
    assert(first.filter(keep) =~= (if keep(first_line(text)) {
        first
    } else {
        Seq::empty()
    }));
}

} // verus!
