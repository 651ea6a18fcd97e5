//! Lower case, as the standard library converts to it.

use vstd::prelude::*;
use crate::model::{lines_of, matching_lines, occurs_in};

verus! {

/// The lower-case form of `text` that `str::to_lowercase` of the standard
/// library gives. It follows the Unicode tables that the standard library
/// carries, and depends on nothing but `text`: no locale takes part.
pub uninterp spec fn lowercase_of(text: Seq<char>) -> Seq<char>;

/// The test that a line holds `query`, both taken in lower case.
pub open spec fn holds_ignoring_case(query: Seq<char>) -> spec_fn(Seq<char>) -> bool {
    |line: Seq<char>| occurs_in(lowercase_of(query), lowercase_of(line))
}

/// The lines of `contents` whose lower-case form holds the lower-case form
/// of `query`: the lines themselves, as they stand in `contents`, in order.
pub open spec fn matching_lines_ignoring_case(query: Seq<char>, contents: Seq<char>) -> Seq<
    Seq<char>,
> {
    lines_of(contents).filter(holds_ignoring_case(query))
}

/// What a search for `query` in `contents` selects, with or without regard
/// to case.
pub open spec fn selected_lines(query: Seq<char>, contents: Seq<char>, ignore_case: bool) -> Seq<
    Seq<char>,
> {
    if ignore_case {
        matching_lines_ignoring_case(query, contents)
    } else {
        matching_lines(query, contents)
    }
}

/// Calls `str::to_lowercase` of the standard library. Not proved: that the
/// string it returns is `lowercase_of` of the argument, which is to say that
/// the conversion is a function of the characters alone.
#[verifier::external_body]
pub(crate) fn lowercase(text: &str) -> (lower: String)
    ensures
        lower@ == lowercase_of(text@),
{
    text.to_lowercase()
}

} // verus!
