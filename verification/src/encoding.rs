//! Text as UTF-8, and where its characters begin.

use crate::text::NEWLINE;
use vstd::prelude::*;
use vstd::utf8::*;

verus! {

/// The length of `text` in bytes.
pub(crate) fn byte_len(text: &str) -> (n: usize)
    ensures
        n == encode_utf8(text@).len(),
{
    text.as_bytes().len()
}

/// The part of `text` from byte `from` up to byte `to`.
pub(crate) fn slice(text: &str, from: usize, to: usize) -> (part: &str)
    requires
        from <= to,
        is_char_boundary(encode_utf8(text@), from as int),
        is_char_boundary(encode_utf8(text@), to as int),
    ensures
        encode_utf8(part@) == encode_utf8(text@).subrange(from as int, to as int),
{
    let ghost bytes = encode_utf8(text@);
    proof {
        encode_utf8_valid_utf8(text@);
        lemma_boundary_in_range(bytes, to as int);
        lemma_boundary_in_prefix(bytes, from as int, to as int);
    }
    let head = text.split_at(to).0;
    assert(encode_utf8(head@) == bytes.take(to as int));
    let part = head.split_at(from).1;
    assert(bytes.take(to as int).subrange(from as int, to as int) == bytes.subrange(
        from as int,
        to as int,
    ));
    part
}

/// The encoding of a text in two parts.
pub(crate) proof fn lemma_encode_concat(a: Seq<char>, b: Seq<char>)
    ensures
        encode_utf8(a + b) == encode_utf8(a) + encode_utf8(b),
    decreases a.len(),
{
    if a.len() == 0 {
        assert(a + b == b);
        assert(encode_utf8(a) + encode_utf8(b) == encode_utf8(b));
    } else {
        lemma_encode_concat(a.drop_first(), b);
        assert((a + b).drop_first() == a.drop_first() + b);
        assert(encode_utf8(a + b) == encode_utf8(a) + encode_utf8(b));
    }
}

/// A character boundary lies within the text or at its end.
pub(crate) proof fn lemma_boundary_in_range(bytes: Seq<u8>, at: int)
    requires
        valid_utf8(bytes),
        is_char_boundary(bytes, at),
    ensures
        0 <= at <= bytes.len(),
{
}

/// A position is a character boundary of a text if it is one of what follows another boundary.
pub(crate) proof fn lemma_boundary_in_suffix(bytes: Seq<u8>, from: int, by: int)
    requires
        valid_utf8(bytes),
        is_char_boundary(bytes, from),
        0 <= from <= bytes.len(),
        0 <= by <= bytes.len() - from,
    ensures
        valid_utf8(bytes.skip(from)),
        is_char_boundary(bytes.skip(from), by) <==> is_char_boundary(bytes, from + by),
{
    let suffix = bytes.skip(from);
    assert(suffix == bytes.subrange(from, bytes.len() as int));
    valid_utf8_split(bytes, from);
    if by < suffix.len() {
        is_char_boundary_iff_not_is_continuation_byte(suffix, by);
        is_char_boundary_iff_not_is_continuation_byte(bytes, from + by);
    } else {
        is_char_boundary_start_end_of_seq(suffix);
        is_char_boundary_start_end_of_seq(bytes);
    }
}

/// A character boundary of a text is one of every part of the text that ends at a later boundary.
pub(crate) proof fn lemma_boundary_in_prefix(bytes: Seq<u8>, at: int, to: int)
    requires
        valid_utf8(bytes),
        is_char_boundary(bytes, at),
        is_char_boundary(bytes, to),
        0 <= at <= to <= bytes.len(),
    ensures
        valid_utf8(bytes.take(to)),
        is_char_boundary(bytes.take(to), at),
{
    let prefix = bytes.take(to);
    valid_utf8_split(bytes, to);
    if at < to {
        is_char_boundary_iff_not_is_continuation_byte(bytes, at);
        is_char_boundary_iff_not_is_continuation_byte(prefix, at);
    } else {
        is_char_boundary_start_end_of_seq(prefix);
    }
}

/// Where a whole text ends inside a longer one, there is a character boundary.
pub(crate) proof fn lemma_boundary_after_valid(bytes: Seq<u8>, n: int)
    requires
        valid_utf8(bytes),
        0 <= n <= bytes.len(),
        valid_utf8(bytes.take(n)),
    ensures
        is_char_boundary(bytes, n),
    decreases n,
{
    if n > 0 {
        let prefix = bytes.take(n);
        let first = length_of_first_scalar(prefix);
        assert(first == length_of_first_scalar(bytes));
        assert(pop_first_scalar(prefix) == pop_first_scalar(bytes).take(n - first));
        lemma_boundary_after_valid(pop_first_scalar(bytes), n - first);
    }
}

/// A character boundary of a text is one of every longer text.
pub(crate) proof fn lemma_boundary_in_longer(part: Seq<u8>, whole: Seq<u8>, at: int)
    requires
        valid_utf8(part),
        valid_utf8(whole),
        part.len() <= whole.len(),
        whole.take(part.len() as int) == part,
        is_char_boundary(part, at),
    ensures
        is_char_boundary(whole, at),
{
    lemma_boundary_in_range(part, at);
    if at < part.len() {
        is_char_boundary_iff_not_is_continuation_byte(part, at);
        is_char_boundary_iff_not_is_continuation_byte(whole, at);
        assert(whole[at] == part[at]);
    } else {
        lemma_boundary_after_valid(whole, at);
    }
}

/// A line starts at a character boundary.
pub(crate) proof fn lemma_boundary_after_newline(bytes: Seq<u8>, at: int)
    requires
        valid_utf8(bytes),
        0 <= at < bytes.len(),
        bytes[at] == NEWLINE,
    ensures
        is_char_boundary(bytes, at + 1),
{
    is_char_boundary_iff_not_is_continuation_byte(bytes, at);
    lemma_boundary_in_suffix(bytes, at, 1);
    let suffix = bytes.skip(at);
    assert(length_of_first_scalar(suffix) == 1);
    is_char_boundary_start_end_of_seq(pop_first_scalar(suffix));
}

} // verus!
