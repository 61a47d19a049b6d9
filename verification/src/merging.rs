//! What an edit of a document makes of a chunk, however many insertions and deletions it has.

use crate::chunk::Chunk;
use crate::delta::{assembled, copied_to, lemma_ordered_prefix, ordered, Delta, DeltaElement};
use crate::document::lemma_boundary_in_chunk;
use crate::text::{column, line_breaks};
use vstd::prelude::*;
use vstd::utf8::*;

verus! {

/// Whether the text of `chunk` stands in the document `doc` at the offset of the chunk.
pub open spec fn stands_in(chunk: Chunk, doc: Seq<u8>) -> bool {
    &&& 0 <= chunk.offset
    &&& chunk.end() <= doc.len()
    &&& chunk.text == doc.subrange(chunk.offset, chunk.end())
}

/// Whether one of the ranges that `els` copy meets `chunk`, be it only at an end.
pub open spec fn reaches(els: Seq<DeltaElement>, chunk: Chunk) -> bool {
    exists|i: int|
        0 <= i < els.len() && (#[trigger] els[i] matches DeltaElement::Copy(beg, end) && end
            >= chunk.offset && beg <= chunk.end())
}

/// How far `els` have come with `chunk`, by where the last range that they copied ends: nothing
/// is kept while that is before the chunk; what is kept is the end of the text so far while that
/// is in the chunk; and it stays where it is once that is past the chunk.
pub(crate) proof fn lemma_merging(els: Seq<DeltaElement>, chunk: Chunk, doc: Seq<u8>)
    requires
        stands_in(chunk, doc),
        ordered(els, doc.len() as int),
    ensures
        0 <= copied_to(els) <= doc.len(),
        reaches(els, chunk) ==> copied_to(els) >= chunk.offset,
        copied_to(els) < chunk.offset ==> chunk.kept(els) == Seq::<u8>::empty()
            && assembled(els, doc).len() == chunk.inserted_before(els) + copied_to(els)
            - chunk.removed_before(els),
        chunk.offset <= copied_to(els) <= chunk.end() ==> stands_in(
            chunk.merged(els),
            assembled(els, doc),
        ) && chunk.merged(els).end() == assembled(els, doc).len(),
        reaches(els, chunk) ==> stands_in(chunk.merged(els), assembled(els, doc)),
    decreases els.len(),
{
    if els.len() > 0 {
        let init = els.drop_last();
        lemma_merging(init, chunk, doc);
        chunk.lemma_removed_before(els, doc.len() as int);
        chunk.lemma_inserted_before(els, els.len() as int);
        assert(els.take(els.len() as int) == els);
        assert(reaches(els, chunk) ==> reaches(init, chunk) || (els.last() matches
            DeltaElement::Copy(beg, end) && end >= chunk.offset && beg <= chunk.end())) by {
            if reaches(els, chunk) {
                let i = choose|i: int|
                    0 <= i < els.len() && (#[trigger] els[i] matches DeltaElement::Copy(beg, end)
                        && end >= chunk.offset && beg <= chunk.end());
                if i < init.len() {
                    assert(init[i] == els[i]);
                }
            }
        }
        let text = assembled(els, doc);
        let from = chunk.merged(els).offset;
        let to = chunk.merged(els).end();
        if reaches(els, chunk) || chunk.offset <= copied_to(els) <= chunk.end() {
            assert(text.subrange(from, to) == chunk.kept(els));
        }
    } else {
        assert(assembled(els, doc).subrange(0, 0) == chunk.kept(els));
    }
}

/// Once the ranges that `els` copy have come to `chunk`, further elements leave the place of what
/// is kept as it is, and only add to what is kept.
pub(crate) proof fn lemma_settled(els: Seq<DeltaElement>, chunk: Chunk, base_len: int, n: int)
    requires
        ordered(els, base_len),
        0 <= n <= els.len(),
        chunk.offset <= copied_to(els.take(n)),
    ensures
        chunk.offset <= copied_to(els),
        chunk.merged(els).offset == chunk.merged(els.take(n)).offset,
        chunk.kept(els.take(n)).is_prefix_of(chunk.kept(els)),
    decreases els.len(),
{
    if n < els.len() {
        assert(els.drop_last().take(n) == els.take(n));
        lemma_settled(els.drop_last(), chunk, base_len, n);
    } else {
        assert(els.take(n) == els);
    }
}

/// An edit of a document, one of whose copied ranges meets a chunk of that document, makes of the
/// chunk a piece of the edited document, at its place in it.
pub proof fn merging_stays_in_document(chunk: Chunk, doc: Seq<u8>, delta: Delta)
    requires
        stands_in(chunk, doc),
        delta.well_formed(),
        delta.base_len == doc.len(),
        reaches(delta.els@, chunk),
    ensures
        stands_in(chunk.merged(delta.els@), delta.apply(doc)),
{
    lemma_merging(delta.els@, chunk, doc);
}

/// Every byte of a chunk of a document that an edit of the document copies is in what the edit
/// makes of the chunk, at the place where the edit puts it in the edited document. Here the byte
/// stands at `pos` in the document, and it is element `i` that copies it.
pub proof fn merging_keeps_what_is_copied(
    chunk: Chunk,
    doc: Seq<u8>,
    delta: Delta,
    i: int,
    pos: int,
)
    requires
        stands_in(chunk, doc),
        delta.well_formed(),
        delta.base_len == doc.len(),
        0 <= i < delta.els@.len(),
        delta.els@[i] matches DeltaElement::Copy(beg, end) && beg <= pos < end,
        chunk.offset <= pos < chunk.end(),
    ensures
        ({
            let merged = chunk.merged(delta.els@);
            let new_pos = assembled(delta.els@.take(i), doc).len() + pos - delta.els@[i]->Copy_0;
            &&& merged.offset <= new_pos < merged.end()
            &&& merged.text[new_pos - merged.offset] == chunk.text[pos - chunk.offset]
            &&& delta.apply(doc)[new_pos] == doc[pos]
        }),
{
    let els = delta.els@;
    let seen = els.take(i + 1);
    lemma_ordered_prefix(els, doc.len() as int, i + 1);
    assert(seen.drop_last() == els.take(i));
    assert(seen.last() == els[i]);
    lemma_merging(els.take(i), chunk, doc);
    lemma_settled(els, chunk, doc.len() as int, i + 1);
    merging_stays_in_document(chunk, doc, delta);
    let merged = chunk.merged(els);
    let at = assembled(els.take(i), doc).len() + pos - els[i]->Copy_0 - merged.offset;
    assert(0 <= at < chunk.kept(seen).len());
    assert(chunk.kept(seen)[at] == chunk.text[pos - chunk.offset]);
    assert(chunk.kept(els)[at] == chunk.kept(seen)[at]);
    assert(delta.apply(doc).subrange(merged.offset, merged.end())[at] == merged.text[at]);
}

/// What the first elements assemble is no longer than what all of them do, and they copy no
/// further.
pub(crate) proof fn lemma_prefix(els: Seq<DeltaElement>, doc: Seq<u8>, n: int)
    requires
        ordered(els, doc.len() as int),
        0 <= n <= els.len(),
    ensures
        ordered(els.take(n), doc.len() as int),
        0 <= copied_to(els.take(n)) <= copied_to(els),
        assembled(els.take(n), doc).len() <= assembled(els, doc).len(),
    decreases els.len(),
{
    lemma_ordered_prefix(els, doc.len() as int, n);
    if n < els.len() {
        assert(els.drop_last().take(n) == els.take(n));
        lemma_prefix(els.drop_last(), doc, n);
    } else {
        assert(els.take(n) == els);
        if n > 0 {
            lemma_prefix(els.drop_last(), doc, n - 1);
        }
    }
}

/// Once the ranges that `els` copy have gone past `chunk`, nothing more is kept.
pub(crate) proof fn lemma_done(els: Seq<DeltaElement>, chunk: Chunk, base_len: int, n: int)
    requires
        ordered(els, base_len),
        0 <= n <= els.len(),
        chunk.end() < copied_to(els.take(n)),
    ensures
        chunk.end() < copied_to(els),
        chunk.kept(els) == chunk.kept(els.take(n)),
    decreases els.len(),
{
    if n < els.len() {
        assert(els.drop_last().take(n) == els.take(n));
        lemma_done(els.drop_last(), chunk, base_len, n);
        assert(chunk.kept(els) == chunk.kept(els.drop_last()));
    } else {
        assert(els.take(n) == els);
    }
}

/// While the ranges that `els` copy end in `chunk`, what is kept stands behind all that was
/// assembled before they came to the chunk.
pub(crate) proof fn lemma_before_chunk(
    els: Seq<DeltaElement>,
    chunk: Chunk,
    doc: Seq<u8>,
    n: int,
)
    requires
        stands_in(chunk, doc),
        ordered(els, doc.len() as int),
        0 <= n <= els.len(),
        copied_to(els.take(n)) < chunk.offset,
        chunk.offset <= copied_to(els) <= chunk.end(),
    ensures
        assembled(els.take(n), doc).len() <= chunk.merged(els).offset,
    decreases els.len(),
{
    assert(els.take(els.len() as int) == els);
    let init = els.drop_last();
    assert(init.take(n) == els.take(n));
    lemma_merging(init, chunk, doc);
    lemma_prefix(init, doc, n);
    if chunk.offset <= copied_to(init) {
        lemma_before_chunk(init, chunk, doc, n);
        assert(els.take(els.len() - 1) == init);
        lemma_settled(els, chunk, doc.len() as int, els.len() - 1);
    }
}

/// What is assembled before the copied ranges come to a chunk that one of them meets stands
/// before what is kept of the chunk.
pub(crate) proof fn lemma_before_reached(
    els: Seq<DeltaElement>,
    chunk: Chunk,
    doc: Seq<u8>,
    n: int,
)
    requires
        stands_in(chunk, doc),
        ordered(els, doc.len() as int),
        0 <= n <= els.len(),
        copied_to(els.take(n)) < chunk.offset,
        reaches(els, chunk),
    ensures
        assembled(els.take(n), doc).len() <= chunk.merged(els).offset,
{
    let r = choose|i: int|
        0 <= i < els.len() && (#[trigger] els[i] matches DeltaElement::Copy(beg, end) && end
            >= chunk.offset && beg <= chunk.end());
    let until = els.take(r);
    let with = els.take(r + 1);
    assert(with.drop_last() == until);
    assert(with.last() == els[r]);
    lemma_prefix(els, doc, r);
    lemma_prefix(els, doc, r + 1);
    lemma_merging(until, chunk, doc);
    if n > r {
        lemma_prefix(els, doc, n);
        assert(els.take(n).take(r + 1) == with);
        lemma_prefix(els.take(n), doc, r + 1);
    }
    assert(n <= r);
    assert(until.take(n) == els.take(n));
    lemma_prefix(until, doc, n);
    if chunk.offset <= copied_to(until) {
        lemma_before_chunk(until, chunk, doc, n);
        lemma_settled(els, chunk, doc.len() as int, r);
    } else {
        lemma_settled(els, chunk, doc.len() as int, r + 1);
    }
}

/// Where copied ranges have gone past a chunk that one of all of them meets, one of those so far
/// met it, and what is kept of the chunk stands in what is assembled so far.
pub(crate) proof fn lemma_past_chunk(els: Seq<DeltaElement>, chunk: Chunk, doc: Seq<u8>, n: int)
    requires
        stands_in(chunk, doc),
        ordered(els, doc.len() as int),
        0 <= n <= els.len(),
        chunk.end() < copied_to(els.take(n)),
        reaches(els, chunk),
    ensures
        chunk.merged(els).end() <= assembled(els.take(n), doc).len(),
{
    let so_far = els.take(n);
    let r = choose|i: int|
        0 <= i < els.len() && (#[trigger] els[i] matches DeltaElement::Copy(beg, end) && end
            >= chunk.offset && beg <= chunk.end());
    if r >= n {
        let until = els.take(r);
        let with = els.take(r + 1);
        assert(with.drop_last() == until);
        assert(with.last() == els[r]);
        lemma_prefix(els, doc, r);
        lemma_prefix(els, doc, r + 1);
        assert(until.take(n) == so_far);
        lemma_prefix(until, doc, n);
    }
    assert(so_far[r] == els[r]);
    lemma_prefix(els, doc, n);
    lemma_merging(so_far, chunk, doc);
    lemma_settled(els, chunk, doc.len() as int, n);
    lemma_done(els, chunk, doc.len() as int, n);
}

/// Of the bytes that an edit copies from a document, those are in what the edit makes of a chunk
/// which were in the chunk, and no others.
pub proof fn merging_keeps_no_other_copy(
    chunk: Chunk,
    doc: Seq<u8>,
    delta: Delta,
    i: int,
    pos: int,
)
    requires
        stands_in(chunk, doc),
        delta.well_formed(),
        delta.base_len == doc.len(),
        reaches(delta.els@, chunk),
        0 <= i < delta.els@.len(),
        delta.els@[i] matches DeltaElement::Copy(beg, end) && beg <= pos < end,
    ensures
        ({
            let merged = chunk.merged(delta.els@);
            let new_pos = assembled(delta.els@.take(i), doc).len() + pos - delta.els@[i]->Copy_0;
            merged.offset <= new_pos < merged.end() <==> chunk.offset <= pos < chunk.end()
        }),
{
    let els = delta.els@;
    let until = els.take(i);
    let with = els.take(i + 1);
    assert(with.drop_last() == until);
    assert(with.last() == els[i]);
    lemma_prefix(els, doc, i);
    lemma_prefix(els, doc, i + 1);
    lemma_merging(until, chunk, doc);
    let beg = els[i]->Copy_0;
    let end = els[i]->Copy_1;
    if chunk.offset <= pos < chunk.end() {
        merging_keeps_what_is_copied(chunk, doc, delta, i, pos);
    } else if pos < chunk.offset {
        if end < chunk.offset {
            lemma_before_reached(els, chunk, doc, i + 1);
        } else {
            lemma_settled(els, chunk, doc.len() as int, i + 1);
        }
    } else if copied_to(until) > chunk.end() {
        lemma_past_chunk(els, chunk, doc, i);
    } else {
        lemma_settled(els, chunk, doc.len() as int, i + 1);
        lemma_done(els, chunk, doc.len() as int, i + 1);
        if beg > chunk.end() {
            let r = choose|r: int|
                0 <= r < els.len() && (#[trigger] els[r] matches DeltaElement::Copy(b, e) && e
                    >= chunk.offset && b <= chunk.end());
            if r > i {
                let later = els.take(r + 1);
                assert(later.drop_last() == els.take(r));
                assert(later.last() == els[r]);
                lemma_prefix(els, doc, r + 1);
                assert(els.take(r).take(i + 1) == with);
                lemma_prefix(els.take(r), doc, i + 1);
            }
            assert(until[r] == els[r]);
        }
    }
}

/// Of the texts that an edit inserts in a document, those are in what the edit makes of a chunk,
/// at their place in the edited document, before which the last copied range ends in the chunk or
/// at its start or end; of the others, nothing is. Here the byte is number `k` of the text that
/// element `i` inserts.
pub proof fn merging_keeps_what_is_inserted(
    chunk: Chunk,
    doc: Seq<u8>,
    delta: Delta,
    i: int,
    k: int,
)
    requires
        stands_in(chunk, doc),
        delta.well_formed(),
        delta.base_len == doc.len(),
        reaches(delta.els@, chunk),
        0 <= i < delta.els@.len(),
        delta.els@[i] matches DeltaElement::Insert(s) && 0 <= k < encode_utf8(s@).len(),
    ensures
        ({
            let merged = chunk.merged(delta.els@);
            let new_pos = assembled(delta.els@.take(i), doc).len() + k;
            let copied = copied_to(delta.els@.take(i));
            &&& merged.offset <= new_pos < merged.end() <==> chunk.offset <= copied <= chunk.end()
            &&& chunk.offset <= copied <= chunk.end() ==> merged.text[new_pos - merged.offset]
                == encode_utf8((delta.els@[i]->Insert_0)@)[k]
        }),
{
    let els = delta.els@;
    let until = els.take(i);
    let with = els.take(i + 1);
    assert(with.drop_last() == until);
    assert(with.last() == els[i]);
    lemma_prefix(els, doc, i);
    lemma_prefix(els, doc, i + 1);
    lemma_merging(until, chunk, doc);
    if copied_to(until) < chunk.offset {
        lemma_before_reached(els, chunk, doc, i + 1);
    } else if copied_to(until) > chunk.end() {
        lemma_past_chunk(els, chunk, doc, i);
    } else {
        lemma_settled(els, chunk, doc.len() as int, i + 1);
        let at = assembled(until, doc).len() + k - chunk.merged(els).offset;
        assert(chunk.kept(els)[at] == chunk.kept(with)[at]);
    }
}

/// Merging an edit into a chunk changes its text and its offset, and nothing else.
pub proof fn merging_changes_text_and_offset_alone(chunk: Chunk, els: Seq<DeltaElement>)
    ensures
        chunk.merged(els) == (Chunk {
            text: chunk.merged(els).text,
            offset: chunk.merged(els).offset,
            ..chunk
        }),
{
}

/// A range that is copied from past the chunk, and a text that is inserted behind such a range,
/// change nothing in what an edit makes of the chunk.
pub proof fn elements_past_the_chunk_change_nothing(
    chunk: Chunk,
    els: Seq<DeltaElement>,
    next: DeltaElement,
)
    requires
        match next {
            DeltaElement::Copy(beg, end) => chunk.end() < beg <= end,
            DeltaElement::Insert(_) => copied_to(els) > chunk.end(),
        },
        0 <= chunk.offset,
    ensures
        chunk.merged(els.push(next)) == chunk.merged(els),
{
    assert(els.push(next).drop_last() == els);
    assert(chunk.kept(els.push(next)) == chunk.kept(els));
}

/// An edit whose copied ranges all end before the chunk leaves no text of it, and the offset is
/// moved by as much as the edited document is longer, or shorter, than what is copied up to.
pub proof fn merging_before_the_chunk_moves_it(chunk: Chunk, doc: Seq<u8>, delta: Delta)
    requires
        stands_in(chunk, doc),
        delta.well_formed(),
        delta.base_len == doc.len(),
        copied_to(delta.els@) < chunk.offset,
    ensures
        chunk.merged(delta.els@).text == Seq::<u8>::empty(),
        chunk.merged(delta.els@).offset == chunk.offset + delta.apply(doc).len() - copied_to(
            delta.els@,
        ),
{
    lemma_merging(delta.els@, chunk, doc);
}

/// An edit none of whose copied ranges meets a chunk leaves no text of it, unless the chunk is at
/// the start of the document, where a text may be inserted.
pub proof fn merging_without_a_copy_leaves_no_text(chunk: Chunk, els: Seq<DeltaElement>)
    requires
        0 < chunk.offset,
        forall|i: int|
            0 <= i < els.len() ==> (#[trigger] els[i] matches DeltaElement::Copy(beg, end) ==> beg
                <= end && (end < chunk.offset || beg > chunk.end())),
    ensures
        chunk.merged(els).text == Seq::<u8>::empty(),
        copied_to(els) < chunk.offset || copied_to(els) > chunk.end(),
    decreases els.len(),
{
    if els.len() > 0 {
        let init = els.drop_last();
        assert forall|i: int| 0 <= i < init.len() implies (
        #[trigger] init[i] matches DeltaElement::Copy(beg, end) ==> beg <= end && (end
            < chunk.offset || beg > chunk.end())) by {
            assert(init[i] == els[i]);
        }
        merging_without_a_copy_leaves_no_text(chunk, init);
        assert(els.last() == els[els.len() - 1]);
        assert(chunk.kept(els) == Seq::<u8>::empty());
    }
}

/// Every edit of a document between characters, one of whose copied ranges meets a chunk of that
/// document, can be merged into the chunk, if the length of the edited document fits in a machine
/// word.
pub proof fn merging_is_accepted(chunk: Chunk, doc: Seq<u8>, delta: Delta)
    requires
        valid_utf8(doc),
        stands_in(chunk, doc),
        is_char_boundary(doc, chunk.offset),
        valid_utf8(chunk.text),
        delta.well_formed(),
        delta.base_len == doc.len(),
        forall|i: int|
            0 <= i < delta.els@.len() ==> (#[trigger] delta.els@[i] matches DeltaElement::Copy(
                beg,
                end,
            ) ==> is_char_boundary(doc, beg as int) && is_char_boundary(doc, end as int)),
        reaches(delta.els@, chunk),
        delta.apply(doc).len() <= usize::MAX,
    ensures
        chunk.end() <= usize::MAX,
        chunk.splits_at_chars(delta.els@),
        chunk.merged(delta.els@).offset <= usize::MAX,
{
    merging_stays_in_document(chunk, doc, delta);
    let before = doc.take(chunk.offset);
    let piece = Chunk {
        first_line: line_breaks(before),
        first_line_offset: column(before),
        buf_size: doc.len() as int,
        num_lines: line_breaks(doc) + 1,
        ..chunk.with_text(chunk.text)
    };
    assert forall|i: int| 0 <= i < delta.els@.len() implies (
    #[trigger] delta.els@[i] matches DeltaElement::Copy(beg, end) ==> {
        &&& is_char_boundary(chunk.text, chunk.within(beg as int))
        &&& is_char_boundary(chunk.text, chunk.within(end as int))
    }) by {
        match delta.els@[i] {
            DeltaElement::Copy(beg, end) => {
                lemma_boundary_in_chunk(piece, doc, beg as int);
                lemma_boundary_in_chunk(piece, doc, end as int);
            },
            DeltaElement::Insert(_) => {},
        }
    }
}

} // verus!
