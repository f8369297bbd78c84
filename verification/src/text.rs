//! Byte-offset arithmetic for decoded text.
//!
//! Spans, line starts and indentation widths all measure positions in a
//! file's decoded text as byte offsets of its UTF-8 encoding, while the
//! mathematical view of text is a sequence of Unicode scalar values. The
//! functions here bridge the two.

use vstd::prelude::*;
use vstd::utf8::encode_scalar;
use vstd::utf8::encode_utf8;

verus! {

/// Number of bytes in the UTF-8 encoding of one scalar value.
pub open spec fn char_len(c: char) -> int {
    encode_scalar(c as u32).len() as int
}

/// Number of bytes in the UTF-8 encoding of a sequence of scalar values.
pub open spec fn text_byte_len(s: Seq<char>) -> int {
    encode_utf8(s).len() as int
}

/// True when the sequence grows strictly from each entry to the next.
pub open spec fn strictly_increasing(s: Seq<int>) -> bool {
    forall|j: int, k: int| 0 <= j < k < s.len() ==> s[j] < s[k]
}

/// Every scalar value occupies between one and four bytes.
pub proof fn lemma_char_len_bounds(c: char)
    ensures
        1 <= char_len(c) <= 4,
{
    vstd::utf8::char_is_scalar(c);
}

/// UTF-8 encoding distributes over concatenation.
pub proof fn lemma_encode_utf8_concat(a: Seq<char>, b: Seq<char>)
    ensures
        encode_utf8(a + b) == encode_utf8(a) + encode_utf8(b),
    decreases a.len(),
{
    if a.len() == 0 {
        assert(a + b =~= b);
        assert(encode_utf8(a) + encode_utf8(b) =~= encode_utf8(b));
    } else {
        assert((a + b).drop_first() =~= a.drop_first() + b);
        assert((a + b)[0] == a[0]);
        assert((a + b).len() > 0);
        lemma_encode_utf8_concat(a.drop_first(), b);
        assert(encode_utf8(a + b) =~= encode_utf8(a) + encode_utf8(b));
    }
}

/// Appending one scalar value adds its encoding length in bytes.
pub proof fn lemma_text_byte_len_push(s: Seq<char>, c: char)
    ensures
        text_byte_len(s.push(c)) == text_byte_len(s) + char_len(c),
{
    assert(s.push(c) =~= s + seq![c]);
    lemma_encode_utf8_concat(s, seq![c]);
    assert(seq![c].len() == 1);
    assert(seq![c][0] == c);
    assert(seq![c].drop_first() =~= Seq::<char>::empty());
    assert(encode_utf8(Seq::<char>::empty()) =~= Seq::<u8>::empty());
    assert(encode_utf8(seq![c]) == encode_scalar(c as u32) + encode_utf8(seq![c].drop_first()));
    assert(encode_utf8(seq![c]) =~= encode_scalar(c as u32));
}

/// The bytes of a text split at any point into the bytes of the prefix and
/// the bytes of the suffix.
pub proof fn lemma_text_byte_len_split(s: Seq<char>, i: int)
    requires
        0 <= i <= s.len(),
    ensures
        text_byte_len(s.take(i)) + text_byte_len(s.skip(i)) == text_byte_len(s),
        0 <= text_byte_len(s.take(i)) <= text_byte_len(s),
{
    assert(s.take(i) + s.skip(i) =~= s);
    lemma_encode_utf8_concat(s.take(i), s.skip(i));
}

/// Relies on str::len: the length in bytes of the slice's UTF-8 contents,
/// which always fits in usize for a slice held in memory.
#[verifier::external_body]
pub fn str_byte_len(s: &str) -> (n: usize)
    ensures
        n as int == text_byte_len(s@),
{
    s.len()
}

/// Relies on String::push: appends the given scalar value to the end of the
/// string.
#[verifier::external_body]
pub fn string_push(s: &mut String, c: char)
    ensures
        final(s)@ == old(s)@.push(c),
{
    s.push(c);
}

/// Relies on char::from_u32: returns the scalar value with the given code
/// point, or None when the value is a surrogate or lies above the Unicode
/// range.
#[verifier::external_body]
pub fn char_from_u32(u: u32) -> (r: Option<char>)
    ensures
        r is Some <==> vstd::utf8::is_scalar(u),
        r matches Some(c) ==> c as u32 == u,
{
    char::from_u32(u)
}

} // verus!
