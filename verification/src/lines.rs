//! The lines of a text.
//!
//! A line ends at a line feed. The line feed is no part of the line, nor is a
//! carriage return that stands directly before it. What follows the last line
//! feed is a line of its own unless it is empty, so a line feed at the very end
//! of a text opens no further line.

use vstd::prelude::*;
use vstd::utf8::*;
use crate::encoding::{
    lemma_ascii_byte,
    lemma_encode_empty,
    lemma_encode_injective,
    lemma_joined,
    lemma_leading_ascii,
};

verus! {

/// The position of the first line feed in `text`; its length where it has none.
pub open spec fn line_end(text: Seq<char>) -> int
    decreases text.len(),
{
    if text.len() == 0 || text[0] == '\n' {
        0
    } else {
        1 + line_end(text.drop_first())
    }
}

/// `line` without the carriage return at its end, if it has one there.
pub open spec fn without_carriage_return(line: Seq<char>) -> Seq<char> {
    if line.len() > 0 && line.last() == '\r' {
        line.drop_last()
    } else {
        line
    }
}

/// The first line of `text`: what stands before its first line feed, less a
/// carriage return directly before that; all of `text` where it has no line feed.
pub open spec fn first_line(text: Seq<char>) -> Seq<char> {
    let end = line_end(text);
    if 0 <= end < text.len() {
        without_carriage_return(text.take(end))
    } else {
        text
    }
}

/// What follows the first line feed of `text`; nothing where it has none.
pub open spec fn after_first_line(text: Seq<char>) -> Seq<char> {
    let end = line_end(text);
    if 0 <= end < text.len() {
        text.skip(end + 1)
    } else {
        Seq::empty()
    }
}

/// The lines of `text`, in order.
pub open spec fn lines_of(text: Seq<char>) -> Seq<Seq<char>>
    decreases text.len(),
{
    if text.len() == 0 {
        Seq::empty()
    } else {
        seq![first_line(text)] + lines_of(after_first_line(text))
    }
}

/// `line_end` is the one position with no line feed before it that either holds
/// a line feed or is the end of the text.
pub proof fn lemma_line_end(text: Seq<char>, end: int)
    requires
        0 <= end <= text.len(),
        forall|j: int| 0 <= j < end ==> text[j] != '\n',
        end < text.len() ==> text[end] == '\n',
    ensures
        line_end(text) == end,
    decreases end,
{
    if end > 0 {
        lemma_line_end(text.drop_first(), end - 1);
    }
}

/// A text without the byte 0x0A has no line feed.
proof fn lemma_no_line_feed(text: Seq<char>)
    requires
        forall|k: int| 0 <= k < encode_utf8(text).len() ==> encode_utf8(text)[k] != 0x0Au8,
    ensures
        forall|j: int| 0 <= j < text.len() ==> text[j] != '\n',
{
    assert forall|j: int| 0 <= j < text.len() implies text[j] != '\n' by {
        if text[j] == '\n' {
            let at = lemma_ascii_byte(text, j);
            assert(encode_utf8(text)[at] == 0x0Au8);
        }
    }
}

/// `line` without the carriage return at its end, if it has one there.
fn strip_carriage_return<'a>(line: &'a str) -> (stripped: &'a str)
    ensures
        stripped@ == without_carriage_return(line@),
{
    let bytes = line.as_bytes();
    let n = bytes.len();
    if n > 0 && bytes[n - 1] == 0x0D {
        proof {
            encode_utf8_valid_utf8(line@);
            is_char_boundary_iff_not_is_continuation_byte(bytes@, n - 1);
        }
        let (kept, last) = line.split_at(n - 1);
        proof {
            assert(encode_utf8(line@) =~= encode_utf8(kept@) + encode_utf8(last@));
            lemma_joined(line@, kept@, last@);
            lemma_leading_ascii(last@);
            lemma_encode_empty(last@.drop_first());
            assert(last@ =~= seq!['\r']);
            assert(line@.drop_last() =~= kept@);
        }
        kept
    } else {
        proof {
            lemma_encode_empty(line@);
            if line@.len() > 0 && line@.last() == '\r' {
                lemma_ascii_byte(line@, line@.len() - 1);
                lemma_encode_empty(line@.skip(line@.len() as int));
            }
        }
        line
    }
}

/// Cuts `text` behind its first line: gives that line, and what follows its line feed.
pub fn split_first_line<'a>(text: &'a str) -> (parts: (&'a str, &'a str))
    ensures
        parts.0@ == first_line(text@),
        parts.1@ == after_first_line(text@),
{
    let bytes = text.as_bytes();
    let n = bytes.len();
    let mut end: usize = 0;
    while end < n && bytes[end] != 0x0A
        invariant
            n == bytes@.len(),
            end <= n,
            forall|k: int| 0 <= k < end ==> bytes@[k] != 0x0Au8,
        decreases n - end,
    {
        end += 1;
    }
    if end == n {
        proof {
            lemma_no_line_feed(text@);
            lemma_line_end(text@, text@.len() as int);
            reveal_strlit("");
            assert(""@ =~= Seq::<char>::empty());
        }
        return (text, "");
    }
    proof {
        encode_utf8_valid_utf8(text@);
        is_char_boundary_iff_not_is_continuation_byte(bytes@, end as int);
    }
    let (line, tail) = text.split_at(end);
    proof {
        assert(encode_utf8(text@) =~= encode_utf8(line@) + encode_utf8(tail@));
        lemma_joined(text@, line@, tail@);
        lemma_no_line_feed(line@);
        lemma_leading_ascii(tail@);
        lemma_line_end(text@, line@.len() as int);
        encode_utf8_valid_utf8(tail@);
        reveal_with_fuel(is_char_boundary, 2);
    }
    let (_, after) = tail.split_at(1);
    proof {
        assert(encode_utf8(after@) =~= encode_utf8(tail@).drop_first());
        lemma_encode_injective(after@, tail@.drop_first());
        assert(text@.take(line@.len() as int) =~= line@);
        assert(text@.skip(line@.len() as int + 1) =~= tail@.drop_first());
    }
    (strip_carriage_return(line), after)
}

} // verus!
