//! The mathematical model of a document: a sequence of Unicode scalar values,
//! together with its UTF-8 byte length and the editing operations stated as
//! pure functions on sequences.

use vstd::prelude::*;

verus! {

use vstd::utf8::{encode_utf8, encode_scalar, char_is_scalar};

/// Number of bytes in the UTF-8 encoding of a character sequence.
pub open spec fn byte_len(s: Seq<char>) -> nat {
    encode_utf8(s).len()
}

/// Character count actually removed by a deletion of `len` characters at
/// `pos`: a deletion running past the end of the document is clamped.
pub open spec fn clamped(doc: Seq<char>, pos: int, len: int) -> int {
    if len <= doc.len() - pos {
        len
    } else {
        doc.len() - pos
    }
}

/// The document after inserting `text` at character offset `pos`.
pub open spec fn spliced(doc: Seq<char>, pos: int, text: Seq<char>) -> Seq<char>
    recommends
        0 <= pos <= doc.len(),
{
    doc.take(pos) + text + doc.skip(pos)
}

/// The document after deleting `len` characters starting at character
/// offset `pos`, clamped to the end of the document.
pub open spec fn removed(doc: Seq<char>, pos: int, len: int) -> Seq<char>
    recommends
        0 <= pos <= doc.len(),
        0 <= len,
{
    doc.take(pos) + doc.skip(pos + clamped(doc, pos, len))
}

/// UTF-8 encoding distributes over concatenation of character sequences.
pub proof fn lemma_encode_utf8_concat(a: Seq<char>, b: Seq<char>)
    ensures
        encode_utf8(a + b) == encode_utf8(a) + encode_utf8(b),
    decreases a.len(),
{
    if a.len() == 0 {
        assert(a + b =~= b);
        assert(encode_utf8(a) + encode_utf8(b) =~= encode_utf8(b));
    } else {
        assert((a + b).drop_first() =~= a.drop_first() + b);
        assert((a + b)[0] == a[0]);
        assert((a + b).len() != 0);
        lemma_encode_utf8_concat(a.drop_first(), b);
        assert(encode_utf8(a + b) =~= encode_utf8(a) + encode_utf8(b));
    }
}

/// The byte length of a concatenation is the sum of the byte lengths.
pub proof fn lemma_byte_len_concat(a: Seq<char>, b: Seq<char>)
    ensures
        byte_len(a + b) == byte_len(a) + byte_len(b),
{
    lemma_encode_utf8_concat(a, b);
}

/// A character encodes to between 1 and 4 bytes.
pub proof fn lemma_scalar_len(c: char)
    ensures
        1 <= encode_scalar(c as u32).len() <= 4,
{
    char_is_scalar(c);
}

/// The byte length of a sequence lies between its character count and four
/// times its character count.
pub proof fn lemma_byte_len_bounds(s: Seq<char>)
    ensures
        s.len() <= byte_len(s) <= 4 * s.len(),
    decreases s.len(),
{
    if s.len() == 0 {
    } else {
        lemma_scalar_len(s[0]);
        lemma_byte_len_bounds(s.drop_first());
    }
}

/// Splitting a sequence at a character boundary splits its byte length.
pub proof fn lemma_byte_len_split(s: Seq<char>, i: int)
    requires
        0 <= i <= s.len(),
    ensures
        byte_len(s) == byte_len(s.take(i)) + byte_len(s.skip(i)),
{
    assert(s =~= s.take(i) + s.skip(i));
    lemma_byte_len_concat(s.take(i), s.skip(i));
}

/// Taking or skipping within the right part of a concatenation.
pub proof fn lemma_concat2_split(a: Seq<char>, b: Seq<char>, r: int)
    requires
        0 <= r <= b.len(),
    ensures
        (a + b).take(a.len() + r) == a + b.take(r),
        (a + b).skip(a.len() + r) == b.skip(r),
{
    assert((a + b).take(a.len() + r) =~= a + b.take(r));
    assert((a + b).skip(a.len() + r) =~= b.skip(r));
}

/// Taking or skipping within the middle part of a three-way concatenation.
pub proof fn lemma_concat3_split(a: Seq<char>, b: Seq<char>, c: Seq<char>, r: int)
    requires
        0 <= r <= b.len(),
    ensures
        (a + b + c).take(a.len() + r) == a + b.take(r),
        (a + b + c).skip(a.len() + r) == b.skip(r) + c,
{
    assert((a + b + c).take(a.len() + r) =~= a + b.take(r));
    assert((a + b + c).skip(a.len() + r) =~= b.skip(r) + c);
}

/// The byte length of a contiguous character range never exceeds the byte
/// length of the whole sequence.
pub proof fn lemma_byte_len_subrange_le(s: Seq<char>, a: int, b: int)
    requires
        0 <= a <= b <= s.len(),
    ensures
        byte_len(s.subrange(a, b)) <= byte_len(s),
{
    lemma_byte_len_split(s, a);
    lemma_byte_len_split(s.skip(a), b - a);
    assert(s.skip(a).take(b - a) =~= s.subrange(a, b));
}

} // verus!
