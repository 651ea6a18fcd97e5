//! Facts on UTF-8 that carry a scan over bytes to the characters they encode.

use vstd::prelude::*;
use vstd::utf8::*;
use crate::model::{occurs_at, occurs_in};

verus! {

/// The byte that encodes a line feed.
pub const LINE_FEED_BYTE: u8 = 0x0A;

/// The byte that encodes a carriage return.
pub const CARRIAGE_RETURN_BYTE: u8 = 0x0D;

/// Two texts with the same encoding are the same text.
pub proof fn lemma_same_bytes_same_text(a: Seq<char>, b: Seq<char>)
    requires
        encode_utf8(a) == encode_utf8(b),
    ensures
        a == b,
{
    encode_utf8_decode_utf8(a);
    encode_utf8_decode_utf8(b);
}

/// The encoding of two texts in a row is their encodings in a row.
pub proof fn lemma_encode_concat(a: Seq<char>, b: Seq<char>)
    ensures
        encode_utf8(a + b) == encode_utf8(a) + encode_utf8(b),
    decreases a.len(),
{
    if a.len() == 0 {
        assert(a + b =~= b);
        assert(encode_utf8(a) + encode_utf8(b) =~= encode_utf8(b));
    } else {
        lemma_encode_concat(a.drop_first(), b);
        assert((a + b).drop_first() =~= a.drop_first() + b);
        assert(encode_utf8(a + b) =~= encode_utf8(a) + encode_utf8(b));
    }
}

/// An ASCII character is encoded as the one byte of its own number.
pub proof fn lemma_encode_ascii(c: char)
    requires
        c as u32 <= 0x7F,
    ensures
        encode_utf8(seq![c]) == seq![c as u8],
{
    let v = c as u32;
    assert((v & 0x7F) as u8 == v as u8) by (bit_vector)
        requires
            v <= 0x7F,
    ;
    reveal_with_fuel(encode_utf8, 2);
    assert(seq![c].drop_first() =~= Seq::<char>::empty());
    assert(encode_utf8(seq![c]) =~= seq![c as u8]);
}

/// An ASCII character of a text shows in the encoding as its own byte,
/// between the encodings of what stands before and behind it.
pub proof fn lemma_ascii_char_shows_in_bytes(text: Seq<char>, i: int)
    requires
        0 <= i < text.len(),
        text[i] as u32 <= 0x7F,
    ensures
        encode_utf8(text) == encode_utf8(text.take(i)) + seq![text[i] as u8] + encode_utf8(
            text.skip(i + 1),
        ),
{
    let before = text.take(i);
    let behind = text.skip(i + 1);
    assert(text =~= before + (seq![text[i]] + behind));
    lemma_encode_concat(before, seq![text[i]] + behind);
    lemma_encode_concat(seq![text[i]], behind);
    lemma_encode_ascii(text[i]);
    assert(encode_utf8(text) =~= encode_utf8(before) + seq![text[i] as u8] + encode_utf8(behind));
}

/// Where the first `m` bytes of well-formed UTF-8 are well-formed by
/// themselves, a character starts at index `m`, or the bytes end there.
pub proof fn lemma_valid_prefix_ends_at_boundary(bytes: Seq<u8>, m: int)
    requires
        valid_utf8(bytes),
        0 <= m <= bytes.len(),
        valid_utf8(bytes.subrange(0, m)),
    ensures
        is_char_boundary(bytes, m),
    decreases bytes.len(),
{
    if m > 0 {
        let prefix = bytes.subrange(0, m);
        let width = length_of_first_scalar(bytes);
        assert(prefix[0] == bytes[0]);
        assert(length_of_first_scalar(prefix) == width);
        assert(width <= m);
        assert(pop_first_scalar(prefix) =~= pop_first_scalar(bytes).subrange(0, m - width));
        lemma_valid_prefix_ends_at_boundary(pop_first_scalar(bytes), m - width);
    }
}

/// A run of bytes that encodes `needle` and stands in the encoding of `hay`
/// is an occurrence of `needle` in `hay`: it starts and ends between
/// characters.
pub proof fn lemma_occurrence_in_bytes_is_one_in_text(
    needle: Seq<char>,
    hay: Seq<char>,
    at: int,
)
    requires
        occurs_at(encode_utf8(needle), encode_utf8(hay), at),
    ensures
        occurs_in(needle, hay),
{
    let run = encode_utf8(needle);
    let bytes = encode_utf8(hay);
    let m = run.len() as int;
    encode_utf8_valid_utf8(needle);
    encode_utf8_valid_utf8(hay);
    if m == 0 {
        assert(encode_utf8(Seq::<char>::empty()) =~= run);
        lemma_same_bytes_same_text(needle, Seq::empty());
        assert(hay.subrange(0, 0) =~= needle);
        assert(occurs_at(needle, hay, 0));
    } else {
        assert(bytes[at] == run[0]);
        is_char_boundary_iff_not_is_continuation_byte(bytes, at);
        valid_utf8_split(bytes, at);
        let head = bytes.subrange(0, at);
        let tail = bytes.subrange(at, bytes.len() as int);
        assert(tail.subrange(0, m) =~= run);
        lemma_valid_prefix_ends_at_boundary(tail, m);
        valid_utf8_split(tail, m);
        let rest = tail.subrange(m, tail.len() as int);
        let before = decode_utf8(head);
        let behind = decode_utf8(rest);
        decode_utf8_encode_utf8(head);
        decode_utf8_encode_utf8(rest);
        lemma_encode_concat(before, needle + behind);
        lemma_encode_concat(needle, behind);
        assert(head + (run + rest) =~= bytes);
        lemma_same_bytes_same_text(hay, before + (needle + behind));
        assert(hay.subrange(before.len() as int, (before.len() + needle.len()) as int) =~= needle);
        assert(occurs_at(needle, hay, before.len() as int));
    }
}

/// An occurrence of `needle` in `hay` shows in the encoding of `hay` as a
/// run of bytes that encodes `needle`.
pub proof fn lemma_occurrence_in_text_is_one_in_bytes(
    needle: Seq<char>,
    hay: Seq<char>,
    at: int,
)
    requires
        occurs_at(needle, hay, at),
    ensures
        occurs_in(encode_utf8(needle), encode_utf8(hay)),
{
    let before = hay.take(at);
    let behind = hay.skip(at + needle.len());
    assert(hay =~= before + (needle + behind));
    lemma_encode_concat(before, needle + behind);
    lemma_encode_concat(needle, behind);
    let start = encode_utf8(before).len() as int;
    assert(encode_utf8(hay).subrange(start, start + encode_utf8(needle).len()) =~= encode_utf8(
        needle,
    ));
    assert(occurs_at(encode_utf8(needle), encode_utf8(hay), start));
}

} // verus!
