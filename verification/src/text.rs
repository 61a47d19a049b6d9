//! Lines of text, by byte offset.

use crate::offsets::{as_ints, shifted};
use vstd::prelude::*;
use vstd::slice::slice_subrange;
use vstd::utf8::*;

verus! {

/// `memchr::memchr` gives the index of the first `needle` in `haystack`, or `None` where there is
/// none.
pub assume_specification[ memchr::memchr ](needle: u8, haystack: &[u8]) -> (r: Option<usize>)
    ensures
        match r {
            Some(i) => {
                &&& i < haystack@.len()
                &&& haystack@[i as int] == needle
                &&& forall|j: int| 0 <= j < i ==> haystack@[j] != needle
            },
            None => forall|j: int| 0 <= j < haystack@.len() ==> haystack@[j] != needle,
        },
;

/// The byte that ends a line.
pub const NEWLINE: u8 = 0x0a;

/// The offset of the start of every line in `text` but the first, in order: one past each
/// line break.
pub open spec fn line_starts(text: Seq<u8>) -> Seq<int>
    decreases text.len(),
{
    if text.len() == 0 {
        seq![]
    } else if text.last() == NEWLINE {
        line_starts(text.drop_last()).push(text.len() as int)
    } else {
        line_starts(text.drop_last())
    }
}

/// The number of line breaks in `text`.
pub open spec fn line_breaks(text: Seq<u8>) -> int {
    line_starts(text).len() as int
}

/// The number of bytes in `text` after its last line break.
pub open spec fn column(text: Seq<u8>) -> int {
    if line_breaks(text) == 0 {
        text.len() as int
    } else {
        text.len() - line_starts(text).last()
    }
}

/// The offset in `text` of the start of line `line`, counted from zero. Past the last line this
/// is the end of the text.
pub open spec fn line_offset(text: Seq<u8>, line: int) -> int {
    if line <= 0 {
        0
    } else if line <= line_breaks(text) {
        line_starts(text)[line - 1]
    } else {
        text.len() as int
    }
}

/// The text of line `line`, counted from zero, with the line break that ends it.
pub open spec fn line_text(text: Seq<u8>, line: int) -> Seq<u8> {
    text.subrange(line_offset(text, line), line_offset(text, line + 1))
}

/// The offsets of `line_starts` increase, stand behind line breaks, and miss none.
pub(crate) proof fn lemma_line_starts(text: Seq<u8>)
    ensures
        line_starts(text).len() <= text.len(),
        forall|i: int, j: int|
            0 <= i < j < line_starts(text).len() ==> line_starts(text)[i] < line_starts(text)[j],
        forall|i: int|
            0 <= i < line_starts(text).len() ==> 0 < #[trigger] line_starts(text)[i] <= text.len()
                && text[line_starts(text)[i] - 1] == NEWLINE,
        forall|p: int|
            0 <= p < text.len() && #[trigger] text[p] == NEWLINE ==> line_starts(text).contains(
                p + 1,
            ),
    decreases text.len(),
{
    if text.len() > 0 {
        let init = text.drop_last();
        lemma_line_starts(init);
        assert forall|p: int|
            0 <= p < text.len() && #[trigger] text[p] == NEWLINE implies line_starts(text).contains(
            p + 1,
        ) by {
            if p < init.len() {
                assert(init[p] == NEWLINE);
                let k = choose|k: int|
                    0 <= k < line_starts(init).len() && line_starts(init)[k] == p + 1;
                assert(line_starts(text)[k] == p + 1);
            } else {
                assert(line_starts(text).last() == p + 1);
            }
        }
    }
}

/// Whether `offsets` are, in ascending order, one past each line break of `text` and no others.
pub open spec fn lists_lines(offsets: Seq<int>, text: Seq<u8>) -> bool {
    &&& forall|i: int, j: int| 0 <= i < j < offsets.len() ==> offsets[i] < offsets[j]
    &&& forall|o: int|
        #[trigger] offsets.contains(o) <==> 0 < o <= text.len() && text[o - 1] == 0x0a
}

/// The starts of the lines are one past each line break, in ascending order.
pub proof fn line_starts_list_lines(text: Seq<u8>)
    ensures
        lists_lines(line_starts(text), text),
{
    lemma_line_starts(text);
    assert forall|o: int| #[trigger] line_starts(text).contains(o) <==> 0 < o <= text.len()
        && text[o - 1] == NEWLINE by {
        if 0 < o <= text.len() && text[o - 1] == NEWLINE {
            assert(line_starts(text).contains(o - 1 + 1));
        }
    }
}

/// Two lists of the lines of one text are the same.
pub proof fn lines_are_listed_in_one_way(a: Seq<int>, b: Seq<int>, text: Seq<u8>)
    requires
        lists_lines(a, text),
        lists_lines(b, text),
    ensures
        a == b,
{
    lemma_same_ascending(a, b);
}

/// Ascending sequences with the same elements are the same.
pub(crate) proof fn lemma_same_ascending(a: Seq<int>, b: Seq<int>)
    requires
        forall|i: int, j: int| 0 <= i < j < a.len() ==> a[i] < a[j],
        forall|i: int, j: int| 0 <= i < j < b.len() ==> b[i] < b[j],
        forall|o: int| #[trigger] a.contains(o) <==> b.contains(o),
    ensures
        a == b,
    decreases a.len(),
{
    if a.len() == 0 {
        if b.len() > 0 {
            assert(b.contains(b[0]));
            assert(a.contains(b[0]));
        }
    } else {
        assert(a.contains(a.last()));
        assert(b.contains(a.last()));
        assert(b.contains(b.last()));
        assert(a.contains(b.last()));
        assert(a.last() == b.last());
        let a1 = a.drop_last();
        let b1 = b.drop_last();
        assert forall|o: int| #[trigger] a1.contains(o) <==> b1.contains(o) by {
            if a1.contains(o) {
                let i = choose|i: int| 0 <= i < a1.len() && a1[i] == o;
                assert(a[i] == o);
                assert(a.contains(o));
                let j = choose|j: int| 0 <= j < b.len() && b[j] == o;
                assert(b1[j] == o);
            }
            if b1.contains(o) {
                let i = choose|i: int| 0 <= i < b1.len() && b1[i] == o;
                assert(b[i] == o);
                assert(b.contains(o));
                assert(a.contains(o));
                let j = choose|j: int| 0 <= j < a.len() && a[j] == o;
                assert(a1[j] == o);
            }
        }
        lemma_same_ascending(a1, b1);
        assert(a == a1.push(a.last()));
        assert(b == b1.push(b.last()));
    }
}

/// The lines of a text, counted from zero, follow one another from its start to its end. Every
/// line but the last ends with its one line break, and the last has none.
pub proof fn lines_make_up_the_text(text: Seq<u8>, line: int)
    requires
        0 <= line <= line_breaks(text),
    ensures
        line_offset(text, 0) == 0,
        line_offset(text, line_breaks(text) + 1) == text.len(),
        0 <= line_offset(text, line) <= line_offset(text, line + 1) <= text.len(),
        line_text(text, line) == text.subrange(
            line_offset(text, line),
            line_offset(text, line + 1),
        ),
        line < line_breaks(text) ==> line_text(text, line).len() > 0 && line_text(
            text,
            line,
        ).last() == 0x0a,
        forall|k: int|
            0 <= k < line_text(text, line).len() && (line == line_breaks(text) || k < line_text(
                text,
                line,
            ).len() - 1) ==> #[trigger] line_text(text, line)[k] != 0x0a,
{
    lemma_line_starts(text);
    let from = line_offset(text, line);
    assert forall|k: int|
        0 <= k < line_text(text, line).len() && (line == line_breaks(text) || k < line_text(
            text,
            line,
        ).len() - 1) implies #[trigger] line_text(text, line)[k] != 0x0a by {
        if text[from + k] == 0x0a {
            assert(line_starts(text).contains(from + k + 1));
            let i = choose|i: int|
                0 <= i < line_starts(text).len() && line_starts(text)[i] == from + k + 1;
            if i < line {
                assert(line_starts(text)[i] <= line_starts(text)[line - 1]);
            } else {
                assert(line_starts(text)[line] <= line_starts(text)[i]);
            }
        }
    }
}

/// The column at the end of a text is counted from its last line break, or from its start where
/// it has none.
pub proof fn column_is_counted_from_the_last_line_break(text: Seq<u8>)
    ensures
        0 <= column(text) <= text.len(),
        forall|p: int| text.len() - column(text) <= p < text.len() ==> text[p] != 0x0a,
        column(text) < text.len() ==> text[text.len() - column(text) - 1] == 0x0a,
{
    lemma_line_starts(text);
    assert forall|p: int| text.len() - column(text) <= p < text.len() implies text[p] != 0x0a by {
        if text[p] == 0x0a {
            assert(line_starts(text).contains(p + 1));
            let i = choose|i: int|
                0 <= i < line_starts(text).len() && line_starts(text)[i] == p + 1;
            assert(line_starts(text)[i] <= line_starts(text).last());
        }
    }
}

/// A text has as many line breaks as a list of its lines has entries.
pub proof fn line_breaks_are_counted(text: Seq<u8>, offsets: Seq<int>)
    requires
        lists_lines(offsets, text),
    ensures
        line_breaks(text) == offsets.len(),
{
    line_starts_list_lines(text);
    lines_are_listed_in_one_way(offsets, line_starts(text), text);
}

/// The lines of a text in two parts.
pub(crate) proof fn lemma_line_starts_concat(a: Seq<u8>, b: Seq<u8>)
    ensures
        line_starts(a + b) == line_starts(a) + shifted(line_starts(b), a.len() as int),
    decreases b.len(),
{
    if b.len() == 0 {
        assert(a + b == a);
    } else {
        lemma_line_starts_concat(a, b.drop_last());
        assert((a + b).drop_last() == a + b.drop_last());
        assert(line_starts(a + b) == line_starts(a) + shifted(line_starts(b), a.len() as int));
    }
}

/// The lines of a text that is cut at byte `at`: those that start by then, then the others.
pub(crate) proof fn lemma_split_lines(text: Seq<u8>, at: int)
    requires
        0 <= at <= text.len(),
    ensures
        line_breaks(text) == line_breaks(text.take(at)) + line_breaks(text.skip(at)),
        forall|i: int|
            0 <= i < line_breaks(text.take(at)) ==> #[trigger] line_starts(text)[i] == line_starts(
                text.take(at),
            )[i] <= at,
        forall|i: int|
            line_breaks(text.take(at)) <= i < line_breaks(text) ==> #[trigger] line_starts(text)[i]
                == line_starts(text.skip(at))[i - line_breaks(text.take(at))] + at > at,
{
    lemma_line_starts_concat(text.take(at), text.skip(at));
    assert(text.take(at) + text.skip(at) == text);
    lemma_line_starts(text.take(at));
    lemma_line_starts(text.skip(at));
}

/// The lines of a text, and of the same text with `added` in it at byte `at`.
pub(crate) proof fn lemma_inserted_lines(text: Seq<u8>, at: int, added: Seq<u8>)
    requires
        0 <= at <= text.len(),
    ensures
        line_starts(text) == line_starts(text.take(at)) + shifted(
            line_starts(text.skip(at)),
            at,
        ),
        line_starts(text.take(at) + added + text.skip(at)) == line_starts(text.take(at)) + shifted(
            line_starts(added),
            at,
        ) + shifted(line_starts(text.skip(at)), at + added.len()),
{
    lemma_line_starts_concat(text.take(at), text.skip(at));
    assert(text.take(at) + text.skip(at) == text);
    lemma_line_starts_concat(text.take(at) + added, text.skip(at));
    lemma_line_starts_concat(text.take(at), added);
}

/// The lines of a text, and of the same text without its bytes from `from` up to `to`.
pub(crate) proof fn lemma_deleted_lines(text: Seq<u8>, from: int, to: int)
    requires
        0 <= from <= to <= text.len(),
    ensures
        line_starts(text) == line_starts(text.take(from)) + shifted(
            line_starts(text.subrange(from, to)),
            from,
        ) + shifted(line_starts(text.skip(to)), to),
        line_starts(text.take(from) + text.skip(to)) == line_starts(text.take(from)) + shifted(
            line_starts(text.skip(to)),
            from,
        ),
{
    let mid = text.subrange(from, to);
    lemma_line_starts_concat(text.take(from), mid);
    lemma_line_starts_concat(text.take(from) + mid, text.skip(to));
    assert(text.take(from) + mid + text.skip(to) == text);
    lemma_line_starts_concat(text.take(from), text.skip(to));
}

/// Text without a line break is one line.
pub(crate) proof fn lemma_no_line_break(text: Seq<u8>)
    requires
        forall|p: int| 0 <= p < text.len() ==> text[p] != NEWLINE,
    ensures
        line_starts(text) == Seq::<int>::empty(),
{
    lemma_line_starts(text);
    if line_starts(text).len() > 0 {
        assert(text[line_starts(text)[0] - 1] == NEWLINE);
    }
}

/// The line and the column at the end of a text in two parts.
pub(crate) proof fn lemma_column_concat(a: Seq<u8>, b: Seq<u8>)
    ensures
        line_breaks(a + b) == line_breaks(a) + line_breaks(b),
        column(a + b) == if line_breaks(b) == 0 {
            column(a) + b.len()
        } else {
            column(b)
        },
{
    lemma_line_starts_concat(a, b);
}

/// A column is no more than the length of the text.
pub(crate) proof fn lemma_column_bound(a: Seq<u8>)
    ensures
        0 <= column(a) <= a.len(),
        0 <= line_breaks(a) <= a.len(),
{
    lemma_line_starts(a);
}

/// A line starts no later than the next one.
pub(crate) proof fn lemma_line_order(doc: Seq<u8>, line: int)
    requires
        0 <= line,
    ensures
        0 <= line_offset(doc, line) <= line_offset(doc, line + 1) <= doc.len(),
{
    lemma_line_starts(doc);
}

/// Pushes onto `storage` the offset of the start of every line in `text` but the first.
pub fn newline_offsets(text: &str, storage: &mut Vec<usize>)
    ensures
        as_ints(final(storage)@) == as_ints(old(storage)@) + line_starts(encode_utf8(text@)),
{
    let bytes = text.as_bytes();
    let mut cur_idx: usize = 0;
    assert(bytes@.take(0) == Seq::<u8>::empty());
    loop
        invariant
            cur_idx <= bytes@.len(),
            as_ints(storage@) == as_ints(old(storage)@) + line_starts(bytes@.take(cur_idx as int)),
        ensures
            as_ints(storage@) == as_ints(old(storage)@) + line_starts(bytes@),
        decreases bytes@.len() - cur_idx,
    {
        let rest = slice_subrange(bytes, cur_idx, bytes.len());
        match memchr::memchr(NEWLINE, rest) {
            Some(idx) => {
                proof {
                    let line = rest@.take(idx + 1);
                    lemma_no_line_break(line.drop_last());
                    lemma_line_starts_concat(bytes@.take(cur_idx as int), line);
                    assert(bytes@.take(cur_idx as int) + line == bytes@.take(cur_idx + idx + 1));
                    assert(line_starts(line) == seq![idx + 1]);
                }
                let ghost before = storage@;
                storage.push(cur_idx + idx + 1);
                assert(as_ints(storage@) == as_ints(before).push(cur_idx + idx + 1));
                cur_idx = cur_idx + idx + 1;
            },
            None => {
                proof {
                    lemma_no_line_break(rest@);
                    lemma_line_starts_concat(bytes@.take(cur_idx as int), rest@);
                    assert(bytes@.take(cur_idx as int) + rest@ == bytes@);
                }
                break;
            },
        }
    }
}

} // verus!
