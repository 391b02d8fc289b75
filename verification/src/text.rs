//! Texts addressed by byte offsets.
//!
//! A text is a sequence of characters; a span of it is given by two offsets
//! into its UTF-8 encoding. A span fits a text when both offsets lie inside the
//! encoding, in order, and between two characters.

use vstd::prelude::*;
use vstd::string::*;
use vstd::utf8::*;

verus! {

/// The number of bytes that the UTF-8 encoding of `text` takes.
pub open spec fn byte_len(text: Seq<char>) -> nat {
    encode_utf8(text).len()
}

/// Whether `start..end` is a range of whole characters of `text`.
pub open spec fn span_fits(text: Seq<char>, start: int, end: int) -> bool {
    &&& 0 <= start <= end <= byte_len(text)
    &&& is_char_boundary(encode_utf8(text), start)
    &&& is_char_boundary(encode_utf8(text), end)
}

/// The characters of `text` that are encoded by the bytes `start..end`.
pub open spec fn byte_slice(text: Seq<char>, start: int, end: int) -> Seq<char> {
    decode_utf8(encode_utf8(text).subrange(start, end))
}

/// `text` with the bytes `start..end` given up for `with`.
pub open spec fn splice(text: Seq<char>, start: int, end: int, with: Seq<char>) -> Seq<char> {
    byte_slice(text, 0, start) + with + byte_slice(text, end, byte_len(text) as int)
}

/// A character boundary of a text is one of each prefix that reaches it and
/// ends on a boundary itself.
pub proof fn lemma_boundary_in_prefix(bytes: Seq<u8>, index: int, end: int)
    requires
        valid_utf8(bytes),
        0 <= index <= end <= bytes.len(),
        is_char_boundary(bytes, index),
        is_char_boundary(bytes, end),
    ensures
        valid_utf8(bytes.subrange(0, end)),
        is_char_boundary(bytes.subrange(0, end), index),
{
    let head = bytes.subrange(0, end);
    valid_utf8_split(bytes, end);
    if index == end {
        is_char_boundary_start_end_of_seq(head);
    } else {
        is_char_boundary_iff_not_is_continuation_byte(bytes, index);
        is_char_boundary_iff_not_is_continuation_byte(head, index);
    }
}

/// The encoding of two texts in a row is the two encodings in a row.
pub proof fn lemma_encode_concat(a: Seq<char>, b: Seq<char>)
    ensures
        encode_utf8(a + b) == encode_utf8(a) + encode_utf8(b),
    decreases a.len(),
{
    if a.len() == 0 {
        assert(a + b =~= b);
        assert(encode_utf8(a) + encode_utf8(b) =~= encode_utf8(b));
    } else {
        lemma_encode_concat(a.drop_first(), b);
        assert((a + b).drop_first() =~= a.drop_first() + b);
        assert(encode_utf8(a + b) =~= encode_utf8(a) + encode_utf8(b));
    }
}

/// A character boundary of a prefix that ends on a boundary is one of the
/// whole text.
pub proof fn lemma_boundary_of_prefix(bytes: Seq<u8>, index: int, end: int)
    requires
        valid_utf8(bytes),
        0 <= index <= end <= bytes.len(),
        is_char_boundary(bytes, end),
        is_char_boundary(bytes.subrange(0, end), index),
    ensures
        is_char_boundary(bytes, index),
{
    let head = bytes.subrange(0, end);
    valid_utf8_split(bytes, end);
    if index < end {
        is_char_boundary_iff_not_is_continuation_byte(bytes, index);
        is_char_boundary_iff_not_is_continuation_byte(head, index);
    }
}

/// Where two encodings are joined, the joint is a character boundary.
pub proof fn lemma_boundary_at_join(head: Seq<u8>, tail: Seq<u8>)
    requires
        valid_utf8(head),
        valid_utf8(tail),
    ensures
        valid_utf8(head + tail),
        is_char_boundary(head + tail, head.len() as int),
{
    valid_utf8_concat(head, tail);
    if tail.len() == 0 {
        assert(head + tail =~= head);
        is_char_boundary_start_end_of_seq(head);
    } else {
        is_char_boundary_start_end_of_seq(tail);
        is_char_boundary_iff_not_is_continuation_byte(tail, 0);
        is_char_boundary_iff_not_is_continuation_byte(head + tail, head.len() as int);
    }
}

/// The characters of a span that fits are encoded by the bytes of the span.
pub proof fn lemma_slice_bytes(text: Seq<char>, start: int, end: int)
    requires
        span_fits(text, start, end),
    ensures
        valid_utf8(encode_utf8(text).subrange(start, end)),
        encode_utf8(byte_slice(text, start, end)) == encode_utf8(text).subrange(start, end),
        byte_len(byte_slice(text, start, end)) == end - start,
{
    let bytes = encode_utf8(text);
    encode_utf8_valid_utf8(text);
    lemma_boundary_in_prefix(bytes, start, end);
    let head = bytes.subrange(0, end);
    valid_utf8_split(head, start);
    assert(head.subrange(start, head.len() as int) =~= bytes.subrange(start, end));
    decode_utf8_encode_utf8(bytes.subrange(start, end));
}

/// A splice, seen in bytes: the bytes before the span, the encoding of what
/// is put in, and the bytes after the span.
pub proof fn lemma_splice_bytes(text: Seq<char>, start: int, end: int, with: Seq<char>)
    requires
        span_fits(text, start, end),
    ensures
        encode_utf8(splice(text, start, end, with)) == encode_utf8(text).subrange(0, start)
            + encode_utf8(with) + encode_utf8(text).subrange(end, byte_len(text) as int),
{
    let bytes = encode_utf8(text);
    encode_utf8_valid_utf8(text);
    is_char_boundary_start_end_of_seq(bytes);
    lemma_slice_bytes(text, 0, start);
    lemma_slice_bytes(text, end, bytes.len() as int);
    let before = byte_slice(text, 0, start);
    let after = byte_slice(text, end, bytes.len() as int);
    lemma_encode_concat(before, with);
    lemma_encode_concat(before + with, after);
}

/// Cuts `text` at the byte offsets `start` and `end` into what stands before
/// the span, the span itself and what stands after it. There is no cut where
/// the span does not fit the text.
pub fn cut<'a>(text: &'a str, start: usize, end: usize) -> (parts: Option<
    (&'a str, &'a str, &'a str),
>)
    ensures
        parts is Some <==> span_fits(text@, start as int, end as int),
        parts matches Some(p) ==> {
            &&& p.0@ == byte_slice(text@, 0, start as int)
            &&& p.1@ == byte_slice(text@, start as int, end as int)
            &&& p.2@ == byte_slice(text@, end as int, byte_len(text@) as int)
        },
{
    broadcast use {encode_utf8_valid_utf8, encode_utf8_decode_utf8};

    let len = text.as_bytes().len();
    if start > end || end > len {
        return None;
    }
    if !text.is_char_boundary(start) || !text.is_char_boundary(end) {
        return None;
    }
    let ghost bytes = text.spec_bytes();
    let (head, after) = text.split_at(end);
    proof {
        lemma_boundary_in_prefix(bytes, start as int, end as int);
        assert(head.spec_bytes() == bytes.subrange(0, end as int));
    }
    let (before, inside) = head.split_at(start);
    proof {
        assert(before.spec_bytes() == bytes.subrange(0, start as int));
        assert(inside.spec_bytes() == bytes.subrange(start as int, end as int));
        assert(after.spec_bytes() == bytes.subrange(end as int, bytes.len() as int));
    }
    Some((before, inside, after))
}

} // verus!
