//! Literal substring containment.

use vstd::prelude::*;
use vstd::utf8::*;
use crate::encoding::{lemma_encode_concat, lemma_encode_empty, lemma_joined};

verus! {

/// `needle` stands in `hay` at position `at`.
pub open spec fn occurs_at<T>(needle: Seq<T>, hay: Seq<T>, at: int) -> bool {
    &&& 0 <= at
    &&& at + needle.len() <= hay.len()
    &&& hay.subrange(at, at + needle.len()) == needle
}

/// `needle` stands somewhere in `hay`, as a run of consecutive items.
pub open spec fn occurs_in<T>(needle: Seq<T>, hay: Seq<T>) -> bool {
    exists|at: int| occurs_at(needle, hay, at)
}

/// The empty sequence stands in every sequence.
pub proof fn lemma_empty_occurs<T>(hay: Seq<T>)
    ensures
        occurs_in(Seq::<T>::empty(), hay),
{
    assert(hay.subrange(0, 0) =~= Seq::<T>::empty());
    assert(occurs_at(Seq::<T>::empty(), hay, 0));
}

/// A text whose bytes begin with the bytes of `needle` begins with `needle`.
proof fn lemma_prefix_of_bytes(needle: Seq<char>, text: Seq<char>)
    requires
        occurs_at(encode_utf8(needle), encode_utf8(text), 0),
    ensures
        occurs_at(needle, text, 0),
    decreases needle.len(),
{
    let en = encode_utf8(needle);
    let et = encode_utf8(text);
    if needle.len() == 0 {
        assert(text.subrange(0, 0) =~= needle);
    } else {
        lemma_encode_empty(needle);
        lemma_encode_empty(text);
        encode_utf8_first_scalar(needle);
        encode_utf8_first_scalar(text);
        let width = length_of_first_scalar(en);
        assert(width <= en.len());
        assert(forall|k: int| 0 <= k < en.len() ==> en[k] == et.subrange(0, en.len() as int)[k]);
        assert(en[0] == et[0]);
        assert(length_of_first_scalar(et) == width);
        assert(decode_first_scalar(en) == decode_first_scalar(et)) by {
            assert(forall|k: int| 0 <= k < width ==> en[k] == et[k]);
        }
        assert(needle[0] == text[0]) by {
            char_u32_cast(needle[0], decode_first_scalar(en));
            char_u32_cast(text[0], decode_first_scalar(et));
        }
        let rest_n = needle.drop_first();
        let rest_t = text.drop_first();
        assert(encode_utf8(rest_n) =~= en.subrange(width, en.len() as int));
        assert(encode_utf8(rest_t) =~= et.subrange(width, et.len() as int));
        assert(encode_utf8(rest_t).subrange(0, encode_utf8(rest_n).len() as int) =~= encode_utf8(
            rest_n,
        ));
        lemma_prefix_of_bytes(rest_n, rest_t);
        assert(text.subrange(0, needle.len() as int) =~= needle) by {
            assert(forall|k: int|
                0 < k < needle.len() ==> text[k] == rest_t.subrange(0, rest_n.len() as int)[k - 1]);
        }
    }
}

/// A text holds another exactly when its bytes hold the bytes of the other.
pub proof fn lemma_occurs_in_bytes(needle: Seq<char>, hay: Seq<char>)
    ensures
        occurs_in(encode_utf8(needle), encode_utf8(hay)) <==> occurs_in(needle, hay),
{
    let en = encode_utf8(needle);
    let eh = encode_utf8(hay);
    if occurs_in(needle, hay) {
        let at = choose|at: int| occurs_at(needle, hay, at);
        let before = hay.subrange(0, at);
        let after = hay.subrange(at + needle.len(), hay.len() as int);
        assert(hay =~= before + needle + after);
        lemma_encode_concat(before, needle);
        lemma_encode_concat(before + needle, after);
        let p = encode_utf8(before).len() as int;
        assert(eh.subrange(p, p + en.len()) =~= en);
        assert(occurs_at(en, eh, p));
    }
    if occurs_in(en, eh) {
        if needle.len() == 0 {
            lemma_empty_occurs(hay);
            assert(needle =~= Seq::<char>::empty());
        } else {
            let p = choose|p: int| occurs_at(en, eh, p);
            lemma_encode_empty(needle);
            encode_utf8_valid_utf8(needle);
            encode_utf8_valid_utf8(hay);
            assert(eh[p] == en[0]) by {
                assert(eh.subrange(p, p + en.len())[0] == en[0]);
            }
            is_char_boundary_iff_not_is_continuation_byte(en, 0);
            is_char_boundary_iff_not_is_continuation_byte(eh, p);
            valid_utf8_split(eh, p);
            let head = eh.subrange(0, p);
            let tail = eh.subrange(p, eh.len() as int);
            let before = decode_utf8(head);
            let from = decode_utf8(tail);
            decode_utf8_encode_utf8(head);
            decode_utf8_encode_utf8(tail);
            assert(eh =~= head + tail);
            lemma_joined(hay, before, from);
            assert(tail.subrange(0, en.len() as int) =~= en);
            lemma_prefix_of_bytes(needle, from);
            let at = before.len() as int;
            assert(hay.subrange(at, at + needle.len()) =~= from.subrange(0, needle.len() as int));
            assert(occurs_at(needle, hay, at));
        }
    }
}

/// Whether the bytes `needle` stand somewhere in the bytes `hay`.
fn bytes_occur(needle: &[u8], hay: &[u8]) -> (found: bool)
    ensures
        found == occurs_in(needle@, hay@),
{
    let n = needle.len();
    let h = hay.len();
    if n == 0 {
        proof {
            lemma_empty_occurs(hay@);
            assert(needle@ =~= Seq::<u8>::empty());
        }
        return true;
    }
    if n > h {
        return false;
    }
    let mut at: usize = 0;
    while at <= h - n
        invariant
            0 < n <= h,
            n == needle@.len(),
            h == hay@.len(),
            forall|k: int| 0 <= k < at ==> !occurs_at(needle@, hay@, k),
        decreases h - n + 1 - at,
    {
        let mut j: usize = 0;
        while j < n && hay[at + j] == needle[j]
            invariant
                0 < n <= h,
                at <= h - n,
                j <= n,
                n == needle@.len(),
                h == hay@.len(),
                forall|m: int| 0 <= m < j ==> hay@[at + m] == needle@[m],
            decreases n - j,
        {
            j += 1;
        }
        if j == n {
            assert(hay@.subrange(at as int, at + n) =~= needle@);
            assert(occurs_at(needle@, hay@, at as int));
            return true;
        }
        assert(!occurs_at(needle@, hay@, at as int)) by {
            if occurs_at(needle@, hay@, at as int) {
                assert(hay@.subrange(at as int, at + n)[j as int] == needle@[j as int]);
            }
        }
        at += 1;
    }
    false
}

/// Whether `needle` stands somewhere in `haystack`, character for character.
/// The empty needle stands in every haystack.
pub fn contains(haystack: &str, needle: &str) -> (found: bool)
    ensures
        found == occurs_in(needle@, haystack@),
{
    proof {
        lemma_occurs_in_bytes(needle@, haystack@);
    }
    bytes_occur(needle.as_bytes(), haystack.as_bytes())
}

} // verus!
