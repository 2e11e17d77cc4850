//! How a text (a sequence of characters) relates to the UTF-8 bytes that hold it.
//!
//! The executable code scans and cuts string slices by bytes; the contracts of
//! the library speak of characters. The lemmas here carry facts from one side
//! to the other.

use vstd::prelude::*;
use vstd::utf8::*;

verus! {

/// Encoding a concatenation gives the concatenation of the encodings.
pub proof fn lemma_encode_concat(a: Seq<char>, b: Seq<char>)
    ensures
        encode_utf8(a + b) == encode_utf8(a) + encode_utf8(b),
    decreases a.len(),
{
    if a.len() == 0 {
        assert(a + b =~= b);
        assert(encode_utf8(a) + encode_utf8(b) =~= encode_utf8(b));
    } else {
        lemma_encode_concat(a.drop_first(), b);
        assert((a + b).drop_first() =~= a.drop_first() + b);
        assert(encode_utf8(a + b) =~= encode_utf8(a) + encode_utf8(b));
    }
}

/// Two texts with the same encoding are the same text.
pub proof fn lemma_encode_injective(a: Seq<char>, b: Seq<char>)
    requires
        encode_utf8(a) == encode_utf8(b),
    ensures
        a == b,
{
    encode_utf8_decode_utf8(a);
    encode_utf8_decode_utf8(b);
}

/// A text whose bytes are those of `left` followed by those of `right` is
/// `left` followed by `right`.
pub proof fn lemma_joined(whole: Seq<char>, left: Seq<char>, right: Seq<char>)
    requires
        encode_utf8(whole) == encode_utf8(left) + encode_utf8(right),
    ensures
        whole == left + right,
{
    lemma_encode_concat(left, right);
    lemma_encode_injective(whole, left + right);
}

/// Only the empty text has no bytes.
pub proof fn lemma_encode_empty(text: Seq<char>)
    ensures
        encode_utf8(text).len() == 0 <==> text.len() == 0,
{
    if text.len() > 0 {
        encode_utf8_first_scalar(text);
    }
}

/// A character below 0x80 is held in the one byte of the same value.
pub proof fn lemma_encode_ascii(c: char)
    requires
        (c as u32) < 0x80,
    ensures
        encode_utf8(seq![c]) == seq![c as u8],
{
    let v = c as u32;
    assert(leading_byte_width_1(v) == v as u8) by (bit_vector)
        requires
            v < 0x80,
    ;
    assert(seq![c].drop_first() =~= Seq::<char>::empty());
    assert(encode_utf8(seq![c]) =~= seq![c as u8]) by {
        reveal_with_fuel(encode_utf8, 2);
    }
}

/// Where the bytes of a text begin with a byte below 0x80, the text begins with
/// the character of that value.
pub proof fn lemma_leading_ascii(text: Seq<char>)
    requires
        encode_utf8(text).len() > 0,
        encode_utf8(text)[0] < 0x80,
    ensures
        text.len() > 0,
        text[0] == encode_utf8(text)[0] as char,
        encode_utf8(text.drop_first()) == encode_utf8(text).drop_first(),
{
    lemma_encode_empty(text);
    let bytes = encode_utf8(text);
    encode_utf8_first_scalar(text);
    char_u32_cast(text[0], decode_first_scalar(bytes));
    let b = bytes[0];
    assert((b & 0x7F) as u32 == b as u32) by (bit_vector)
        requires
            b < 0x80,
    ;
    assert(encode_utf8(text.drop_first()) =~= bytes.drop_first());
}

/// A character below 0x80 at position `i` of a text is held in one byte of the
/// same value; the result is where that byte stands among the bytes of the text:
/// directly behind the bytes of the characters before it.
pub proof fn lemma_ascii_byte(text: Seq<char>, i: int) -> (at: int)
    requires
        0 <= i < text.len(),
        (text[i] as u32) < 0x80,
    ensures
        at == encode_utf8(text.take(i)).len(),
        encode_utf8(text).len() == at + 1 + encode_utf8(text.skip(i + 1)).len(),
        encode_utf8(text)[at] == text[i] as u8,
{
    let before = text.take(i);
    let after = text.skip(i + 1);
    assert(text =~= before + seq![text[i]] + after);
    lemma_encode_concat(before, seq![text[i]]);
    lemma_encode_concat(before + seq![text[i]], after);
    lemma_encode_ascii(text[i]);
    encode_utf8(before).len() as int
}

/// Whether two string slices hold the same text.
pub fn same_text(a: &str, b: &str) -> (same: bool)
    ensures
        same == (a@ == b@),
{
    let x = a.as_bytes();
    let y = b.as_bytes();
    if x.len() != y.len() {
        return false;
    }
    let mut i: usize = 0;
    while i < x.len()
        invariant
            x@ == encode_utf8(a@),
            y@ == encode_utf8(b@),
            x.len() == y.len(),
            i <= x.len(),
            forall|j: int| 0 <= j < i ==> x@[j] == y@[j],
        decreases x.len() - i,
    {
        if x[i] != y[i] {
            return false;
        }
        i += 1;
    }
    proof {
        assert(x@ =~= y@);
        lemma_encode_injective(a@, b@);
    }
    true
}

} // verus!
