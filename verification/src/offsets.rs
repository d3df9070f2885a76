//! Byte offsets of character positions.
//!
//! A text is modelled as a sequence of characters, while every offset that the
//! cursor stores or returns counts bytes of the UTF-8 encoding. The functions
//! here relate the two and show that the byte offset of a character position
//! always lies on a character boundary.

use vstd::prelude::*;
use vstd::slice::axiom_spec_len;
use vstd::string::StringSliceAdditionalSpecFns;
use vstd::utf8::*;

verus! {

/// Number of bytes that encode the first `k` characters of `text`.
pub open spec fn prefix_bytes(text: Seq<char>, k: int) -> int {
    encode_utf8(text.take(k)).len() as int
}

/// Number of bytes that encode `text` without its first `k` characters.
pub open spec fn suffix_bytes(text: Seq<char>, k: int) -> int {
    encode_utf8(text.skip(k)).len() as int
}

/// Number of bytes that encode `text`.
pub fn byte_len(text: &str) -> (n: usize)
    ensures
        n == encode_utf8(text@).len(),
        n == text.spec_bytes().len(),
{
    let bytes = text.as_bytes();
    proof {
        axiom_spec_len(bytes);
    }
    bytes.len()
}

/// Encoding distributes over concatenation.
pub proof fn lemma_encode_concat(a: Seq<char>, b: Seq<char>)
    ensures
        encode_utf8(a + b) == encode_utf8(a) + encode_utf8(b),
    decreases a.len(),
{
    if a.len() == 0 {
        assert(a + b =~= b);
        assert(encode_utf8(a) + encode_utf8(b) =~= encode_utf8(b));
    } else {
        let head = encode_scalar(a[0] as u32);
        assert((a + b).drop_first() =~= a.drop_first() + b);
        lemma_encode_concat(a.drop_first(), b);
        assert((a + b)[0] == a[0]);
        assert(encode_utf8(a + b) == head + encode_utf8((a + b).drop_first()));
        assert(head + (encode_utf8(a.drop_first()) + encode_utf8(b)) =~= (head + encode_utf8(
            a.drop_first(),
        )) + encode_utf8(b));
    }
}

/// A text is encoded by the encoding of a prefix followed by that of the rest.
pub proof fn lemma_encode_split(text: Seq<char>, k: int)
    requires
        0 <= k <= text.len(),
    ensures
        encode_utf8(text) == encode_utf8(text.take(k)) + encode_utf8(text.skip(k)),
        prefix_bytes(text, k) + suffix_bytes(text, k) == encode_utf8(text).len(),
        0 <= prefix_bytes(text, k) <= encode_utf8(text).len(),
        0 <= suffix_bytes(text, k) <= encode_utf8(text).len(),
{
    assert(text =~= text.take(k) + text.skip(k));
    lemma_encode_concat(text.take(k), text.skip(k));
}

/// The bytes of a stretch of characters lie between the bytes of the two
/// prefixes that end where the stretch begins and where it ends.
pub proof fn lemma_prefix_bytes_step(text: Seq<char>, i: int, j: int)
    requires
        0 <= i <= j <= text.len(),
    ensures
        prefix_bytes(text, j) == prefix_bytes(text, i) + encode_utf8(text.subrange(i, j)).len(),
        suffix_bytes(text, i) == encode_utf8(text.subrange(i, j)).len() + suffix_bytes(text, j),
        prefix_bytes(text, i) <= prefix_bytes(text, j),
        suffix_bytes(text, j) <= suffix_bytes(text, i),
{
    assert(text.take(j) =~= text.take(i) + text.subrange(i, j));
    lemma_encode_concat(text.take(i), text.subrange(i, j));
    assert(text.skip(i) =~= text.subrange(i, j) + text.skip(j));
    lemma_encode_concat(text.subrange(i, j), text.skip(j));
}

/// Where two valid encodings are joined, a character begins.
pub proof fn lemma_join_is_boundary(a: Seq<u8>, b: Seq<u8>)
    requires
        valid_utf8(a),
        valid_utf8(b),
    ensures
        valid_utf8(a + b),
        is_char_boundary(a + b, a.len() as int),
{
    valid_utf8_concat(a, b);
    if b.len() == 0 {
        assert(a + b =~= a);
        is_char_boundary_start_end_of_seq(a);
    } else {
        is_char_boundary_start_end_of_seq(b);
        is_char_boundary_iff_not_is_continuation_byte(b, 0);
        is_char_boundary_iff_not_is_continuation_byte(a + b, a.len() as int);
        assert((a + b)[a.len() as int] == b[0]);
    }
}

/// The byte offset of a character position is a character boundary of the
/// encoded text.
pub proof fn lemma_prefix_bytes_boundary(text: Seq<char>, k: int)
    requires
        0 <= k <= text.len(),
    ensures
        0 <= prefix_bytes(text, k) <= encode_utf8(text).len(),
        is_char_boundary(encode_utf8(text), prefix_bytes(text, k)),
{
    lemma_encode_split(text, k);
    encode_utf8_valid_utf8(text.take(k));
    encode_utf8_valid_utf8(text.skip(k));
    lemma_join_is_boundary(encode_utf8(text.take(k)), encode_utf8(text.skip(k)));
}

/// Cutting the encoded text at the byte offset of a character position yields
/// the encodings of the two parts of the text.
pub proof fn lemma_cut_at_prefix_bytes(text: Seq<char>, k: int)
    requires
        0 <= k <= text.len(),
    ensures
        encode_utf8(text).subrange(0, prefix_bytes(text, k)) == encode_utf8(text.take(k)),
        encode_utf8(text).subrange(prefix_bytes(text, k), encode_utf8(text).len() as int)
            == encode_utf8(text.skip(k)),
        decode_utf8(encode_utf8(text).subrange(0, prefix_bytes(text, k))) == text.take(k),
        decode_utf8(
            encode_utf8(text).subrange(prefix_bytes(text, k), encode_utf8(text).len() as int),
        ) == text.skip(k),
{
    lemma_encode_split(text, k);
    let whole = encode_utf8(text);
    let left = encode_utf8(text.take(k));
    let right = encode_utf8(text.skip(k));
    assert(whole.subrange(0, left.len() as int) =~= left);
    assert(whole.subrange(left.len() as int, whole.len() as int) =~= right);
    encode_utf8_decode_utf8(text.take(k));
    encode_utf8_decode_utf8(text.skip(k));
}

/// Within the part of a valid encoding that follows a boundary, the
/// boundaries are those of the whole, shifted.
pub proof fn lemma_boundary_after(bytes: Seq<u8>, at: int, k: int)
    requires
        valid_utf8(bytes),
        is_char_boundary(bytes, at),
        0 <= at <= bytes.len(),
        0 <= k <= bytes.len() - at,
    ensures
        valid_utf8(bytes.subrange(at, bytes.len() as int)),
        is_char_boundary(bytes.subrange(at, bytes.len() as int), k) == is_char_boundary(
            bytes,
            at + k,
        ),
{
    let tail = bytes.subrange(at, bytes.len() as int);
    valid_utf8_split(bytes, at);
    if k == tail.len() {
        is_char_boundary_start_end_of_seq(tail);
        is_char_boundary_start_end_of_seq(bytes);
    } else {
        is_char_boundary_iff_not_is_continuation_byte(tail, k);
        is_char_boundary_iff_not_is_continuation_byte(bytes, at + k);
        assert(tail[k] == bytes[at + k]);
    }
}

/// Within the part of a valid encoding that precedes a boundary, the
/// boundaries are those of the whole.
pub proof fn lemma_boundary_before(bytes: Seq<u8>, at: int, k: int)
    requires
        valid_utf8(bytes),
        is_char_boundary(bytes, at),
        0 <= at <= bytes.len(),
        0 <= k <= at,
    ensures
        valid_utf8(bytes.subrange(0, at)),
        is_char_boundary(bytes.subrange(0, at), k) == is_char_boundary(bytes, k),
{
    let head = bytes.subrange(0, at);
    valid_utf8_split(bytes, at);
    if k == at {
        is_char_boundary_start_end_of_seq(head);
    } else {
        is_char_boundary_iff_not_is_continuation_byte(head, k);
        is_char_boundary_iff_not_is_continuation_byte(bytes, k);
        assert(head[k] == bytes[k]);
    }
}

/// A character boundary lies within the encoding.
pub proof fn lemma_boundary_within(bytes: Seq<u8>, k: int)
    requires
        valid_utf8(bytes),
        is_char_boundary(bytes, k),
    ensures
        0 <= k <= bytes.len(),
{
}

/// Within the part of a valid encoding that lies between two boundaries, the
/// boundaries are those of the whole, shifted.
pub proof fn lemma_boundary_inside(bytes: Seq<u8>, from: int, to: int, k: int)
    requires
        valid_utf8(bytes),
        0 <= from <= to <= bytes.len(),
        is_char_boundary(bytes, from),
        is_char_boundary(bytes, to),
        0 <= k <= to - from,
    ensures
        valid_utf8(bytes.subrange(from, to)),
        is_char_boundary(bytes.subrange(from, to), k) == is_char_boundary(bytes, from + k),
{
    let tail = bytes.subrange(from, bytes.len() as int);
    lemma_boundary_after(bytes, from, to - from);
    lemma_boundary_after(bytes, from, k);
    lemma_boundary_before(tail, to - from, k);
    assert(tail.subrange(0, to - from) =~= bytes.subrange(from, to));
}

/// Decoding two neighbouring parts of a valid encoding, each cut at
/// boundaries, and joining the results decodes the two parts as one.
pub proof fn lemma_decode_join(bytes: Seq<u8>, x: int, y: int, z: int)
    requires
        valid_utf8(bytes),
        0 <= x <= y <= z <= bytes.len(),
        is_char_boundary(bytes, x),
        is_char_boundary(bytes, y),
        is_char_boundary(bytes, z),
    ensures
        decode_utf8(bytes.subrange(x, y)) + decode_utf8(bytes.subrange(y, z)) == decode_utf8(
            bytes.subrange(x, z),
        ),
{
    let part = bytes.subrange(x, z);
    lemma_boundary_inside(bytes, x, z, y - x);
    decode_utf8_split(part, y - x);
    assert(part.subrange(0, y - x) =~= bytes.subrange(x, y));
    assert(part.subrange(y - x, part.len() as int) =~= bytes.subrange(y, z));
}

/// Within a part of a valid encoding that is cut at boundaries, the
/// character position `k` of the decoded part lies at a boundary of the
/// whole, and cuts the part into the encodings of the characters before `k`
/// and of those from `k` on.
pub proof fn lemma_position(bytes: Seq<u8>, from: int, to: int, k: int)
    requires
        valid_utf8(bytes),
        0 <= from <= to <= bytes.len(),
        is_char_boundary(bytes, from),
        is_char_boundary(bytes, to),
        0 <= k <= decode_utf8(bytes.subrange(from, to)).len(),
    ensures
        from <= from + prefix_bytes(decode_utf8(bytes.subrange(from, to)), k) <= to,
        from + prefix_bytes(decode_utf8(bytes.subrange(from, to)), k) == to - suffix_bytes(
            decode_utf8(bytes.subrange(from, to)),
            k,
        ),
        is_char_boundary(
            bytes,
            from + prefix_bytes(decode_utf8(bytes.subrange(from, to)), k),
        ),
        decode_utf8(
            bytes.subrange(from, from + prefix_bytes(decode_utf8(bytes.subrange(from, to)), k)),
        ) == decode_utf8(bytes.subrange(from, to)).take(k),
        decode_utf8(
            bytes.subrange(from + prefix_bytes(decode_utf8(bytes.subrange(from, to)), k), to),
        ) == decode_utf8(bytes.subrange(from, to)).skip(k),
{
    let part = bytes.subrange(from, to);
    let text = decode_utf8(part);
    let cut = prefix_bytes(text, k);
    lemma_boundary_inside(bytes, from, to, 0);
    decode_utf8_encode_utf8(part);
    lemma_encode_split(text, k);
    lemma_cut_at_prefix_bytes(text, k);
    lemma_prefix_bytes_boundary(text, k);
    lemma_boundary_inside(bytes, from, to, cut);
    assert(part.subrange(0, cut) =~= bytes.subrange(from, from + cut));
    assert(part.subrange(cut, part.len() as int) =~= bytes.subrange(from + cut, to));
}

/// A text read backwards takes as many bytes as the text.
pub proof fn lemma_reverse_bytes(text: Seq<char>)
    ensures
        encode_utf8(text.reverse()).len() == encode_utf8(text).len(),
    decreases text.len(),
{
    if text.len() > 0 {
        let head = seq![text[0]];
        let rest = text.drop_first();
        lemma_reverse_bytes(rest);
        assert(text =~= head + rest);
        assert(text.reverse() =~= rest.reverse() + head);
        lemma_encode_concat(head, rest);
        lemma_encode_concat(rest.reverse(), head);
    } else {
        assert(text.reverse() =~= text);
    }
}

} // verus!
