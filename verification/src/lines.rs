//! Taking a text apart into its lines.

use vstd::prelude::*;
use vstd::slice::*;
use vstd::string::*;
use vstd::utf8::*;
use crate::encoding::{
    lemma_ascii_char_shows_in_bytes, lemma_encode_ascii, lemma_encode_concat,
    lemma_same_bytes_same_text, CARRIAGE_RETURN_BYTE, LINE_FEED_BYTE,
};
use crate::model::{
    after_first_line, first_line, lemma_line_len_is, CARRIAGE_RETURN, LINE_FEED,
};

verus! {

/// The index of the first line feed byte in `bytes`, or their number where
/// there is none.
pub fn line_end(bytes: &[u8]) -> (n: usize)
    ensures
        n <= bytes@.len(),
        forall|j: int| 0 <= j < n ==> bytes@[j] != LINE_FEED_BYTE,
        n < bytes@.len() ==> bytes@[n as int] == LINE_FEED_BYTE,
{
    let mut i: usize = 0;
    while i < bytes.len() && bytes[i] != LINE_FEED_BYTE
        invariant
            i <= bytes@.len(),
            forall|j: int| 0 <= j < i ==> bytes@[j] != LINE_FEED_BYTE,
        decreases bytes@.len() - i,
    {
        i += 1;
    }
    i
}

/// In well-formed UTF-8 a character starts directly behind a leading line feed.
proof fn lemma_boundary_behind_line_feed(bytes: Seq<u8>)
    requires
        valid_utf8(bytes),
        bytes.len() > 0,
        bytes[0] == LINE_FEED_BYTE,
    ensures
        is_char_boundary(bytes, 1),
{
    reveal_with_fuel(is_char_boundary, 2);
    reveal_with_fuel(valid_utf8, 2);
}

/// A text whose encoding is the one byte of an ASCII character is that character.
proof fn lemma_one_ascii_byte(text: Seq<char>, c: char)
    requires
        c as u32 <= 0x7F,
        encode_utf8(text) == seq![c as u8],
    ensures
        text == seq![c],
{
    lemma_encode_ascii(c);
    lemma_same_bytes_same_text(text, seq![c]);
}

/// A text whose encoding splits into the encodings of two texts is those two in a row.
proof fn lemma_split_text(text: Seq<char>, left: Seq<char>, right: Seq<char>)
    requires
        encode_utf8(text) == encode_utf8(left) + encode_utf8(right),
    ensures
        text == left + right,
{
    lemma_encode_concat(left, right);
    lemma_same_bytes_same_text(text, left + right);
}

/// Splits a text into its first line, without the terminator, and what
/// follows that line's terminator. Both parts are slices of `text`. The
/// empty text gives two empty parts.
pub fn split_first_line<'a>(text: &'a str) -> (parts: (&'a str, &'a str))
    ensures
        parts.0@ == first_line(text@),
        parts.1@ == after_first_line(text@),
{
    broadcast use encode_utf8_valid_utf8;

    let bytes = text.as_bytes();
    let n = line_end(bytes);
    if n < bytes.len() {
        proof {
            is_char_boundary_iff_not_is_continuation_byte(text.spec_bytes(), n as int);
        }
        let (head, tail) = text.split_at(n);
        proof {
            lemma_boundary_behind_line_feed(tail.spec_bytes());
        }
        let (feed, rest) = tail.split_at(1);
        proof {
            assert(feed.spec_bytes() =~= seq![LINE_FEED as u8]);
            lemma_one_ascii_byte(feed@, LINE_FEED);
            assert(tail.spec_bytes() =~= feed.spec_bytes() + rest.spec_bytes());
            lemma_split_text(tail@, feed@, rest@);
            assert(text.spec_bytes() =~= head.spec_bytes() + tail.spec_bytes());
            lemma_split_text(text@, head@, tail@);
            assert forall|i: int| 0 <= i < head@.len() implies head@[i] != LINE_FEED by {
                if head@[i] == LINE_FEED {
                    lemma_ascii_char_shows_in_bytes(head@, i);
                    let at = encode_utf8(head@.take(i)).len() as int;
                    assert(head.spec_bytes()[at] == LINE_FEED_BYTE);
                    assert(bytes@[at] == head.spec_bytes()[at]);
                }
            }
            lemma_line_len_is(text@, head@.len() as int);
            assert(text@.take(head@.len() as int) =~= head@);
            assert(text@.skip(head@.len() as int + 1) =~= rest@);
        }
        let head_bytes = head.as_bytes();
        if n > 0 && head_bytes[n - 1] == CARRIAGE_RETURN_BYTE {
            proof {
                is_char_boundary_iff_not_is_continuation_byte(head.spec_bytes(), n - 1);
            }
            let (line, cr) = head.split_at(n - 1);
            proof {
                assert(cr.spec_bytes() =~= seq![CARRIAGE_RETURN as u8]);
                lemma_one_ascii_byte(cr@, CARRIAGE_RETURN);
                assert(head.spec_bytes() =~= line.spec_bytes() + cr.spec_bytes());
                lemma_split_text(head@, line@, cr@);
                assert(head@.drop_last() =~= line@);
            }
            (line, rest)
        } else {
            proof {
                if head@.len() > 0 && head@.last() == CARRIAGE_RETURN {
                    lemma_ascii_char_shows_in_bytes(head@, head@.len() - 1);
                    assert(head@.skip(head@.len() as int) =~= Seq::<char>::empty());
                    assert(head.spec_bytes()[n - 1] == CARRIAGE_RETURN_BYTE);
                }
            }
            (head, rest)
        }
    } else {
        proof {
            is_char_boundary_start_end_of_seq(text.spec_bytes());
        }
        let (line, rest) = text.split_at(n);
        proof {
            assert(line.spec_bytes() =~= text.spec_bytes());
            lemma_same_bytes_same_text(line@, text@);
            assert(rest.spec_bytes() =~= encode_utf8(Seq::<char>::empty()));
            lemma_same_bytes_same_text(rest@, Seq::empty());
            assert forall|i: int| 0 <= i < text@.len() implies text@[i] != LINE_FEED by {
                if text@[i] == LINE_FEED {
                    lemma_ascii_char_shows_in_bytes(text@, i);
                    let at = encode_utf8(text@.take(i)).len() as int;
                    assert(bytes@[at] == LINE_FEED_BYTE);
                }
            }
            lemma_line_len_is(text@, text@.len() as int);
        }
        (line, rest)
    }
}

} // verus!
