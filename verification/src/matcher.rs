//! The two matchers and the containment test under them.

use vstd::prelude::*;
use vstd::slice::*;
use vstd::string::*;
use vstd::utf8::encode_utf8;
use crate::encoding::{
    lemma_occurrence_in_bytes_is_one_in_text, lemma_occurrence_in_text_is_one_in_bytes,
};
use crate::fold::{
    holds_ignoring_case, lowercase, lowercase_of, matching_lines_ignoring_case, selected_lines,
};
use crate::laws::{
    law_empty_contents_match_nothing, law_empty_query_matches_every_line,
    law_matches_keep_their_case,
};
use crate::lines::split_first_line;
use crate::model::{
    holds, is_slice_of, lemma_select_first_line, lines_of, matching_lines, occurs_at, occurs_in,
    texts_of,
};

verus! {

/// Whether `needle` stands at index `at` of `hay`, for an index at which it fits.
fn matches_at(hay: &[u8], needle: &[u8], at: usize) -> (found: bool)
    requires
        at + needle@.len() <= hay@.len(),
    ensures
        found == occurs_at(needle@, hay@, at as int),
{
    let hay_len = hay.len();
    let mut k: usize = 0;
    while k < needle.len() && hay[at + k] == needle[k]
        invariant
            k <= needle@.len(),
            hay_len == hay@.len(),
            at + needle@.len() <= hay@.len(),
            forall|j: int| 0 <= j < k ==> hay@[at + j] == needle@[j],
        decreases needle@.len() - k,
    {
        k += 1;
    }
    proof {
        let run = hay@.subrange(at as int, at + needle@.len());
        if k == needle@.len() {
            assert(run =~= needle@);
        } else {
            assert(run[k as int] != needle@[k as int]);
        }
    }
    k == needle.len()
}

/// An occurrence among the bytes of two texts is one among their
/// characters, and the reverse.
proof fn lemma_occurs_in_bytes_or_text(needle: Seq<char>, hay: Seq<char>)
    ensures
        occurs_in(encode_utf8(needle), encode_utf8(hay)) == occurs_in(needle, hay),
{
    if occurs_in(encode_utf8(needle), encode_utf8(hay)) {
        let at = choose|at: int| occurs_at(encode_utf8(needle), encode_utf8(hay), at);
        lemma_occurrence_in_bytes_is_one_in_text(needle, hay, at);
    }
    if occurs_in(needle, hay) {
        let at = choose|at: int| occurs_at(needle, hay, at);
        lemma_occurrence_in_text_is_one_in_bytes(needle, hay, at);
    }
}

/// Whether `needle` occurs in `hay` as a contiguous run of characters. The
/// empty text occurs in every text.
pub fn contains(hay: &str, needle: &str) -> (found: bool)
    ensures
        found == occurs_in(needle@, hay@),
{
    proof {
        lemma_occurs_in_bytes_or_text(needle@, hay@);
    }
    let hay_bytes = hay.as_bytes();
    let needle_bytes = needle.as_bytes();
    if needle_bytes.len() > hay_bytes.len() {
        return false;
    }
    let last: usize = hay_bytes.len() - needle_bytes.len();
    let mut at: usize = 0;
    while at < last
        invariant
            hay_bytes@ == encode_utf8(hay@),
            needle_bytes@ == encode_utf8(needle@),
            occurs_in(encode_utf8(needle@), encode_utf8(hay@)) == occurs_in(needle@, hay@),
            last == hay_bytes@.len() - needle_bytes@.len(),
            at <= last,
            forall|i: int| 0 <= i < at ==> !occurs_at(needle_bytes@, hay_bytes@, i),
        decreases last - at,
    {
        if matches_at(hay_bytes, needle_bytes, at) {
            return true;
        }
        at += 1;
    }
    matches_at(hay_bytes, needle_bytes, last)
}

/// What a finished scan has found is made of lines of the contents.
proof fn lemma_found_are_lines(
    found: Seq<&str>,
    query: Seq<char>,
    contents: Seq<char>,
    ignore_case: bool,
)
    requires
        texts_of(found) == selected_lines(query, contents, ignore_case),
    ensures
        contents.len() == 0 ==> found.len() == 0,
        forall|i: int|
            0 <= i < found.len() ==> lines_of(contents).contains((#[trigger] found[i])@),
        forall|i: int| 0 <= i < found.len() ==> is_slice_of((#[trigger] found[i])@, contents),
{
    if contents.len() == 0 {
        assert(contents =~= Seq::<char>::empty());
        law_empty_contents_match_nothing(query, ignore_case);
    }
    law_matches_keep_their_case(query, contents, ignore_case);
    assert forall|i: int| 0 <= i < found.len() implies lines_of(contents).contains(
        (#[trigger] found[i])@,
    ) && is_slice_of(found[i]@, contents) by {
        assert(found[i]@ == texts_of(found)[i]);
    }
}

/// The lines of `contents` in which `query` occurs, in their order, each
/// once and each a slice of `contents`. The empty query occurs in every
/// line; empty contents have no line.
pub fn search<'a>(query: &str, contents: &'a str) -> (found: Vec<&'a str>)
    ensures
        texts_of(found@) == matching_lines(query@, contents@),
        query@.len() == 0 ==> texts_of(found@) == lines_of(contents@),
        contents@.len() == 0 ==> found@.len() == 0,
        forall|i: int|
            0 <= i < found@.len() ==> lines_of(contents@).contains((#[trigger] found@[i])@),
        forall|i: int| 0 <= i < found@.len() ==> is_slice_of((#[trigger] found@[i])@, contents@),
{
    let mut found: Vec<&'a str> = Vec::new();
    let mut rest = contents;
    assert(texts_of(found@) =~= Seq::<Seq<char>>::empty());
    while !rest.is_empty()
        invariant
            texts_of(found@) + matching_lines(query@, rest@) == matching_lines(
                query@,
                contents@,
            ),
        decreases rest@.len(),
    {
        let ghost before = texts_of(found@);
        proof {
            lemma_select_first_line(rest@, holds(query@));
        }
        let (line, tail) = split_first_line(rest);
        if contains(line, query) {
            found.push(line);
            assert(texts_of(found@) =~= before + seq![line@]);
        }
        assert(texts_of(found@) + matching_lines(query@, tail@) =~= before + matching_lines(
            query@,
            rest@,
        ));
        rest = tail;
    }
    proof {
        reveal(Seq::filter);
        assert(texts_of(found@) =~= matching_lines(query@, contents@));
        lemma_found_are_lines(found@, query@, contents@, false);
        if query@.len() == 0 {
            assert(query@ =~= Seq::<char>::empty());
            law_empty_query_matches_every_line(contents@);
        }
    }
    found
}

/// The lines of `contents` whose lower-case form holds the lower-case form
/// of `query`, in their order, each once. Each is a slice of `contents`, in
/// its own case. The query is converted once, each line once.
pub fn search_case_insensitive<'a>(query: &str, contents: &'a str) -> (found: Vec<&'a str>)
    ensures
        texts_of(found@) == matching_lines_ignoring_case(query@, contents@),
        contents@.len() == 0 ==> found@.len() == 0,
        forall|i: int|
            0 <= i < found@.len() ==> lines_of(contents@).contains((#[trigger] found@[i])@),
        forall|i: int| 0 <= i < found@.len() ==> is_slice_of((#[trigger] found@[i])@, contents@),
{
    let folded_query = lowercase(query);
    let mut found: Vec<&'a str> = Vec::new();
    let mut rest = contents;
    assert(texts_of(found@) =~= Seq::<Seq<char>>::empty());
    while !rest.is_empty()
        invariant
            folded_query@ == lowercase_of(query@),
            texts_of(found@) + matching_lines_ignoring_case(query@, rest@)
                == matching_lines_ignoring_case(query@, contents@),
        decreases rest@.len(),
    {
        let ghost before = texts_of(found@);
        proof {
            lemma_select_first_line(rest@, holds_ignoring_case(query@));
        }
        let (line, tail) = split_first_line(rest);
        let folded_line = lowercase(line);
        if contains(folded_line.as_str(), folded_query.as_str()) {
            found.push(line);
            assert(texts_of(found@) =~= before + seq![line@]);
        }
        assert(texts_of(found@) + matching_lines_ignoring_case(query@, tail@) =~= before
            + matching_lines_ignoring_case(query@, rest@));
        rest = tail;
    }
    proof {
        reveal(Seq::filter);
        assert(texts_of(found@) =~= matching_lines_ignoring_case(query@, contents@));
        lemma_found_are_lines(found@, query@, contents@, true);
    }
    found
}

} // verus!
