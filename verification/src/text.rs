//! Byte-level facts about UTF-8 text, and the slicing primitive built on them.
//!
//! Text is held in `String`s, whose view is a sequence of characters, while
//! every position in this crate is a byte offset. The functions here move
//! between the two: `encode_utf8` of a view gives the bytes, and a byte range
//! can be cut out of a string exactly when both of its ends fall on character
//! boundaries.

use vstd::prelude::*;
use vstd::utf8::*;

verus! {

/// `start..end` is a range of `bytes` whose ends both fall on character
/// boundaries.
pub open spec fn is_text_range(bytes: Seq<u8>, start: int, end: int) -> bool {
    &&& 0 <= start <= end <= bytes.len()
    &&& is_char_boundary(bytes, start)
    &&& is_char_boundary(bytes, end)
}

/// Encoding distributes over concatenation.
pub proof fn lemma_encode_concat(a: Seq<char>, b: Seq<char>)
    ensures
        encode_utf8(a + b) == encode_utf8(a) + encode_utf8(b),
    decreases a.len(),
{
    if a.len() == 0 {
        assert(a + b == b);
        assert(encode_utf8(a) + encode_utf8(b) == encode_utf8(b));
    } else {
        assert((a + b).drop_first() == a.drop_first() + b);
        lemma_encode_concat(a.drop_first(), b);
        assert((a + b)[0] == a[0]);
        assert(encode_utf8(a + b) == encode_scalar(a[0] as u32) + (encode_utf8(a.drop_first())
            + encode_utf8(b)));
    }
}

/// Decoding distributes over the concatenation of two valid encodings.
pub proof fn lemma_decode_concat(a: Seq<u8>, b: Seq<u8>)
    requires
        valid_utf8(a),
        valid_utf8(b),
    ensures
        valid_utf8(a + b),
        decode_utf8(a + b) == decode_utf8(a) + decode_utf8(b),
{
    let ca = decode_utf8(a);
    let cb = decode_utf8(b);
    decode_utf8_encode_utf8(a);
    decode_utf8_encode_utf8(b);
    lemma_encode_concat(ca, cb);
    encode_utf8_decode_utf8(ca + cb);
    valid_utf8_concat(a, b);
}

/// In valid UTF-8 a position is a character boundary exactly when it is the
/// end of the text or the byte there does not continue a character.
pub proof fn lemma_boundary_by_byte(bytes: Seq<u8>, index: int)
    requires
        valid_utf8(bytes),
        0 <= index <= bytes.len(),
    ensures
        is_char_boundary(bytes, index) <==> (index == bytes.len() || !is_continuation_byte(
            bytes[index],
        )),
{
    if index == bytes.len() {
        is_char_boundary_start_end_of_seq(bytes);
    } else {
        is_char_boundary_iff_not_is_continuation_byte(bytes, index);
    }
}

/// A range between two character boundaries is itself valid UTF-8, and a
/// position inside it is a boundary of the range exactly when it is a
/// boundary of the whole.
pub proof fn lemma_text_range(bytes: Seq<u8>, start: int, end: int)
    requires
        valid_utf8(bytes),
        is_text_range(bytes, start, end),
    ensures
        valid_utf8(bytes.subrange(start, end)),
        forall|i: int|
            start <= i <= end ==> (#[trigger] is_char_boundary(
                bytes.subrange(start, end),
                i - start,
            ) <==> is_char_boundary(bytes, i)),
{
    let tail = bytes.subrange(start, bytes.len() as int);
    valid_utf8_split(bytes, start);
    lemma_boundary_by_byte(bytes, end);
    lemma_boundary_by_byte(tail, end - start);
    valid_utf8_split(tail, end - start);
    let piece = bytes.subrange(start, end);
    assert(tail.subrange(0, end - start) == piece);
    assert forall|i: int| start <= i <= end implies (#[trigger] is_char_boundary(piece, i - start)
        <==> is_char_boundary(bytes, i)) by {
        lemma_boundary_by_byte(piece, i - start);
        lemma_boundary_by_byte(bytes, i);
        if i < end {
            assert(piece[i - start] == bytes[i]);
        }
    }
}

/// Boundaries of a concatenation of two valid encodings are the boundaries of
/// its two parts.
pub proof fn lemma_boundary_concat(a: Seq<u8>, b: Seq<u8>, index: int)
    requires
        valid_utf8(a),
        valid_utf8(b),
        0 <= index <= a.len() + b.len(),
    ensures
        index <= a.len() ==> (is_char_boundary(a + b, index) <==> is_char_boundary(a, index)),
        index >= a.len() ==> (is_char_boundary(a + b, index) <==> is_char_boundary(
            b,
            index - a.len(),
        )),
{
    valid_utf8_concat(a, b);
    lemma_boundary_by_byte(a + b, index);
    if index <= a.len() {
        lemma_boundary_by_byte(a, index);
    }
    if index >= a.len() {
        lemma_boundary_by_byte(b, index - a.len());
    }
    if index == a.len() && b.len() > 0 {
        is_char_boundary_start_end_of_seq(b);
        lemma_boundary_by_byte(b, 0);
    }
}

/// Only the empty text has an empty encoding.
pub proof fn lemma_encode_empty(chars: Seq<char>)
    ensures
        encode_utf8(chars).len() == 0 <==> chars.len() == 0,
{
    encode_utf8_decode_utf8(chars);
    if chars.len() == 0 {
        assert(encode_utf8(chars) == Seq::<u8>::empty());
    }
    if encode_utf8(chars).len() == 0 {
        assert(encode_utf8(chars) == Seq::<u8>::empty());
        assert(decode_utf8(Seq::<u8>::empty()) == Seq::<char>::empty());
    }
}

/// Moving over characters. From a character boundary `from`, the bytes of
/// the next `count` characters lead to a character boundary again, with
/// exactly those characters more before it; that boundary is the end of the
/// text exactly when no character is left behind it.
pub proof fn lemma_advance(bytes: Seq<u8>, from: int, count: int)
    requires
        valid_utf8(bytes),
        0 <= from <= bytes.len(),
        is_char_boundary(bytes, from),
        0 <= count <= decode_utf8(bytes.subrange(from, bytes.len() as int)).len(),
    ensures
        ({
            let rest = decode_utf8(bytes.subrange(from, bytes.len() as int));
            let to = from + encode_utf8(rest.take(count)).len();
            &&& to <= bytes.len()
            &&& is_char_boundary(bytes, to)
            &&& decode_utf8(bytes.subrange(0, to)) == decode_utf8(bytes.subrange(0, from))
                + rest.take(count)
            &&& (count < rest.len() ==> to < bytes.len())
            &&& (count == rest.len() ==> to == bytes.len())
        }),
{
    let head = bytes.subrange(0, from);
    let tail = bytes.subrange(from, bytes.len() as int);
    let rest = decode_utf8(tail);
    let taken = encode_utf8(rest.take(count));
    let left = encode_utf8(rest.skip(count));
    let to = from + taken.len();
    valid_utf8_split(bytes, from);
    decode_utf8_encode_utf8(tail);
    assert(rest == rest.take(count) + rest.skip(count));
    lemma_encode_concat(rest.take(count), rest.skip(count));
    encode_utf8_valid_utf8(rest.take(count));
    encode_utf8_valid_utf8(rest.skip(count));
    encode_utf8_decode_utf8(rest.take(count));
    assert(bytes == head + tail);
    assert(bytes == (head + taken) + left);
    lemma_decode_concat(head, taken);
    lemma_boundary_concat(head + taken, left, to);
    is_char_boundary_start_end_of_seq(head + taken);
    assert(bytes.subrange(0, to) == head + taken);
    lemma_encode_empty(rest.skip(count));
}

/// The length of a string in bytes.
pub fn byte_len(s: &str) -> (len: usize)
    ensures
        len == encode_utf8(s@).len(),
{
    s.as_bytes().len()
}

/// Cuts the byte range `start..end` out of `s`.
///
/// The result is `None` when the range is reversed, reaches past the end of
/// `s`, or has an end that falls inside a character.
pub fn slice<'a>(s: &'a str, start: usize, end: usize) -> (piece: Option<&'a str>)
    ensures
        piece is Some <==> is_text_range(encode_utf8(s@), start as int, end as int),
        piece matches Some(p) ==> encode_utf8(p@) == encode_utf8(s@).subrange(
            start as int,
            end as int,
        ),
{
    proof {
        encode_utf8_valid_utf8(s@);
    }
    if start <= end && s.is_char_boundary(start) && s.is_char_boundary(end) {
        let ghost bytes = encode_utf8(s@);
        proof {
            lemma_text_range(bytes, 0, end as int);
            assert(is_char_boundary(bytes.subrange(0, end as int), start - 0));
        }
        let (head, _) = s.split_at(end);
        let (_, body) = head.split_at(start);
        assert(encode_utf8(body@) == bytes.subrange(start as int, end as int));
        Some(body)
    } else {
        None
    }
}

} // verus!
