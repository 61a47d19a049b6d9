//! What an update makes of a cache, told from the elements of the delta and the fields of the
//! chunk.

use crate::chunk::Chunk;
use crate::delta::{copied_to, ordered, Delta, DeltaElement};
use crate::document::{serves, tracks};
use crate::laws::{
    edits, lemma_simple_edit, line_lookup_gives_line, offset_lookup_gives_offset,
    update_tracks, update_without_delta_tracks,
};
use crate::lookup::{line_found, offset_found};
use crate::lookup_laws::{held_line_is_given, held_offset_is_given};
use crate::source::{DataSource, Error, GetDataResponse};
use crate::text::{
    line_breaks, line_offset, line_starts, line_starts_list_lines, line_text,
    lines_are_listed_in_one_way, lists_lines,
};
use vstd::prelude::*;
use vstd::utf8::*;

verus! {

/// Whether `els` copy a document of `n` bytes with `text` put in at `p`, and nothing else. A copy
/// of no bytes may be left out.
pub open spec fn puts_in(els: Seq<DeltaElement>, n: usize, p: usize, text: String) -> bool {
    &&& p <= n
    &&& {
        ||| els =~= seq![
            DeltaElement::Copy(0, p),
            DeltaElement::Insert(text),
            DeltaElement::Copy(p, n),
        ]
        ||| p == 0 && els =~= seq![DeltaElement::Insert(text), DeltaElement::Copy(0, n)]
        ||| p == n && els =~= seq![DeltaElement::Copy(0, p), DeltaElement::Insert(text)]
        ||| p == 0 && n == 0 && els =~= seq![DeltaElement::Insert(text)]
    }
}

/// Whether `els` copy a document of `n` bytes without those from `a` up to `b`, and nothing else.
/// A copy of no bytes may be left out.
pub open spec fn takes_out(els: Seq<DeltaElement>, n: usize, a: usize, b: usize) -> bool {
    &&& a < b <= n
    &&& {
        ||| els =~= seq![DeltaElement::Copy(0, a), DeltaElement::Copy(b, n)]
        ||| a == 0 && els =~= seq![DeltaElement::Copy(b, n)]
        ||| b == n && els =~= seq![DeltaElement::Copy(0, a)]
        ||| a == 0 && b == n && els =~= Seq::<DeltaElement>::empty()
    }
}

/// A delta that puts in one text is in order, is known for a single insertion of that text, and
/// changes nothing but at that place.
pub proof fn insertion_is_recognised(delta: Delta, p: usize, text: String)
    requires
        puts_in(delta.els@, delta.base_len, p, text),
    ensures
        delta.well_formed(),
        delta.one_insertion() == Some(text),
        !delta.deletes_one_range(),
        delta.edit_start() == p,
        delta.edit_end() == p,
        delta.inserted() == encode_utf8(text@),
{
    reveal_with_fuel(ordered, 4);
    reveal_with_fuel(copied_to, 4);
}

/// A delta that takes out one range is in order, is known for a single deletion, and changes
/// nothing but that range.
pub proof fn deletion_is_recognised(delta: Delta, a: usize, b: usize)
    requires
        takes_out(delta.els@, delta.base_len, a, b),
    ensures
        delta.well_formed(),
        delta.deletes_one_range(),
        delta.one_insertion() is None,
        delta.edit_start() == a,
        delta.edit_end() == b,
        delta.inserted() == Seq::<u8>::empty(),
{
    reveal_with_fuel(ordered, 4);
    reveal_with_fuel(copied_to, 4);
}

/// Only a delta that puts in one text is known for a single insertion.
pub proof fn nothing_else_is_an_insertion(delta: Delta)
    requires
        delta.well_formed(),
    ensures
        delta.one_insertion() matches Some(text) ==> puts_in(
            delta.els@,
            delta.base_len,
            delta.edit_start() as usize,
            text,
        ),
{
    reveal_with_fuel(ordered, 4);
    reveal_with_fuel(copied_to, 4);
}

/// Only a delta that takes out one range is known for a single deletion.
pub proof fn nothing_else_is_a_deletion(delta: Delta)
    requires
        delta.well_formed(),
    ensures
        delta.deletes_one_range() ==> takes_out(
            delta.els@,
            delta.base_len,
            delta.edit_start() as usize,
            delta.edit_end() as usize,
        ),
{
    reveal_with_fuel(ordered, 4);
    reveal_with_fuel(copied_to, 4);
}

/// The interval of an edit ends the copy of the start of the document that the edit begins with,
/// if it does, and starts the copy of its end that the edit ends with, if that is another.
pub proof fn interval_is_between_the_outer_copies(delta: Delta)
    ensures
        match delta.els@.len() > 0 {
            true => match delta.els@[0] {
                DeltaElement::Copy(0, end) => delta.edit_start() == end,
                _ => delta.edit_start() == 0,
            },
            false => delta.edit_start() == 0 && delta.edit_end() == delta.base_len,
        },
        delta.els@.len() > 1 ==> match delta.els@[delta.els@.len() - 1] {
            DeltaElement::Copy(beg, end) => delta.edit_end() == if end == delta.base_len {
                beg
            } else {
                delta.base_len
            },
            _ => delta.edit_end() == delta.base_len,
        },
        delta.els@.len() == 1 ==> match delta.els@[0] {
            DeltaElement::Copy(beg, end) => delta.edit_end() == if beg != 0 && end
                == delta.base_len {
                beg
            } else {
                delta.base_len
            },
            _ => delta.edit_end() == delta.base_len,
        },
{
}

/// Whatever the update, the cache takes over the size, the line count and the revision of the
/// document that it is told.
pub proof fn update_takes_over(
    chunk: Chunk,
    new_len: int,
    num_lines: int,
    rev: u64,
    delta: Option<&Delta>,
)
    ensures
        chunk.updated(new_len, num_lines, rev, delta).buf_size == new_len,
        chunk.updated(new_len, num_lines, rev, delta).num_lines == num_lines,
        chunk.updated(new_len, num_lines, rev, delta).rev == rev,
{
}

/// An update without a delta leaves no text.
pub proof fn update_without_delta_drops_the_chunk(
    chunk: Chunk,
    new_len: int,
    num_lines: int,
    rev: u64,
)
    ensures
        ({
            let updated = chunk.updated(new_len, num_lines, rev, None);
            &&& updated.text == Seq::<u8>::empty()
            &&& updated.line_offsets == Seq::<int>::empty()
            &&& updated.offset == 0
            &&& updated.first_line == 0
            &&& updated.first_line_offset == 0
        }),
{
}

/// An update with a delta that puts a text in at a place in the chunk puts it in there: the chunk
/// starts where it did, and its line offsets are those of the text that it then has.
pub proof fn inserting_update(
    chunk: Chunk,
    delta: &Delta,
    p: usize,
    text: String,
    new_len: int,
    num_lines: int,
    rev: u64,
)
    requires
        puts_in(delta.els@, delta.base_len, p, text),
        0 <= chunk.offset <= p < chunk.end() <= delta.base_len,
    ensures
        ({
            let updated = chunk.updated(new_len, num_lines, rev, Some(delta));
            let at = p - chunk.offset;
            &&& updated.text == chunk.text.take(at) + encode_utf8(text@) + chunk.text.skip(at)
            &&& lists_lines(updated.line_offsets, updated.text)
            &&& updated.offset == chunk.offset
            &&& updated.first_line == chunk.first_line
            &&& updated.first_line_offset == chunk.first_line_offset
            &&& updated.buf_size == new_len
            &&& updated.num_lines == num_lines
            &&& updated.rev == rev
        }),
{
    insertion_is_recognised(*delta, p, text);
    chunk.lemma_edited(*delta);
    line_starts_list_lines(chunk.edited_text(*delta));
}

/// An update with a delta that takes out a range which begins in the chunk takes it out there, as
/// far as the chunk has it: the chunk starts where it did, and its line offsets are those of the
/// text that it then has.
pub proof fn deleting_update(
    chunk: Chunk,
    delta: &Delta,
    a: usize,
    b: usize,
    new_len: int,
    num_lines: int,
    rev: u64,
)
    requires
        takes_out(delta.els@, delta.base_len, a, b),
        0 <= chunk.offset <= a < chunk.end() <= delta.base_len,
    ensures
        ({
            let updated = chunk.updated(new_len, num_lines, rev, Some(delta));
            let from = a - chunk.offset;
            let to = if b < chunk.end() {
                b - chunk.offset
            } else {
                chunk.text.len() as int
            };
            &&& updated.text == chunk.text.take(from) + chunk.text.skip(to)
            &&& lists_lines(updated.line_offsets, updated.text)
            &&& updated.offset == chunk.offset
            &&& updated.first_line == chunk.first_line
            &&& updated.first_line_offset == chunk.first_line_offset
            &&& updated.buf_size == new_len
            &&& updated.num_lines == num_lines
            &&& updated.rev == rev
        }),
{
    deletion_is_recognised(*delta, a, b);
    chunk.lemma_edited(*delta);
    line_starts_list_lines(chunk.edited_text(*delta));
    let head = chunk.text.take(a - chunk.offset);
    assert(head + Seq::<u8>::empty() == head);
}

/// An update with a delta that neither puts in one text at a place in the chunk nor takes out one
/// range which begins in the chunk leaves no text.
pub proof fn other_update_drops_the_chunk(
    chunk: Chunk,
    delta: &Delta,
    new_len: int,
    num_lines: int,
    rev: u64,
)
    requires
        delta.well_formed(),
        forall|p: usize, text: String| #[trigger]
            puts_in(delta.els@, delta.base_len, p, text) ==> !(chunk.offset <= p < chunk.end()),
        forall|a: usize, b: usize| #[trigger]
            takes_out(delta.els@, delta.base_len, a, b) ==> !(chunk.offset <= a < chunk.end()),
    ensures
        ({
            let updated = chunk.updated(new_len, num_lines, rev, Some(delta));
            &&& updated.text == Seq::<u8>::empty()
            &&& updated.line_offsets == Seq::<int>::empty()
            &&& updated.offset == 0
            &&& updated.first_line == 0
            &&& updated.first_line_offset == 0
            &&& updated.buf_size == new_len
            &&& updated.num_lines == num_lines
            &&& updated.rev == rev
        }),
{
    nothing_else_is_an_insertion(*delta);
    nothing_else_is_a_deletion(*delta);
    if delta.deletes_one_range() || delta.one_insertion() is Some {
        lemma_interval_in_base(*delta);
    }
}

/// The interval of a single insertion or deletion lies in the document.
pub(crate) proof fn lemma_interval_in_base(delta: Delta)
    requires
        delta.well_formed(),
        delta.deletes_one_range() || delta.one_insertion() is Some,
    ensures
        0 <= delta.edit_start() <= delta.edit_end() <= delta.base_len,
{
    reveal_with_fuel(ordered, 4);
    reveal_with_fuel(copied_to, 4);
}

/// A delta that is in order is taken for an edit of the chunk just where it puts in one text at a
/// place in the chunk or takes out one range which begins in the chunk.
pub proof fn edit_of_the_chunk_is_recognised(chunk: Chunk, delta: Delta)
    requires
        delta.well_formed(),
    ensures
        chunk.is_edited_by(delta) <==> {
            ||| exists|p: usize, text: String| #[trigger]
                puts_in(delta.els@, delta.base_len, p, text) && chunk.offset <= p < chunk.end()
            ||| exists|a: usize, b: usize| #[trigger]
                takes_out(delta.els@, delta.base_len, a, b) && chunk.offset <= a < chunk.end()
        },
{
    nothing_else_is_an_insertion(delta);
    nothing_else_is_a_deletion(delta);
    if delta.deletes_one_range() || delta.one_insertion() is Some {
        lemma_interval_in_base(delta);
    }
    if exists|p: usize, text: String| #[trigger]
        puts_in(delta.els@, delta.base_len, p, text) && chunk.offset <= p < chunk.end() {
        let (p, text) = choose|p: usize, text: String| #[trigger]
            puts_in(delta.els@, delta.base_len, p, text) && chunk.offset <= p < chunk.end();
        insertion_is_recognised(delta, p, text);
    }
    if exists|a: usize, b: usize| #[trigger]
        takes_out(delta.els@, delta.base_len, a, b) && chunk.offset <= a < chunk.end() {
        let (a, b) = choose|a: usize, b: usize| #[trigger]
            takes_out(delta.els@, delta.base_len, a, b) && chunk.offset <= a < chunk.end();
        deletion_is_recognised(delta, a, b);
    }
}

/// A text can be put in between any two characters of the chunk, if the chunk with it fits in
/// memory.
pub proof fn insertion_is_accepted(chunk: Chunk, delta: Delta, p: usize, text: String)
    requires
        valid_utf8(chunk.text),
        puts_in(delta.els@, delta.base_len, p, text),
        0 <= chunk.offset <= p < chunk.end() <= delta.base_len,
        is_char_boundary(chunk.text, p - chunk.offset),
        chunk.text.len() + encode_utf8(text@).len() <= usize::MAX,
    ensures
        chunk.accepts(delta),
        chunk.lies_in_base(delta),
{
    insertion_is_recognised(delta, p, text);
    is_char_boundary_start_end_of_seq(chunk.text);
}

/// A range that begins in the chunk can be taken out of it, if it begins, and where it ends in the
/// chunk also ends, between characters.
pub proof fn deletion_is_accepted(chunk: Chunk, delta: Delta, a: usize, b: usize)
    requires
        valid_utf8(chunk.text),
        takes_out(delta.els@, delta.base_len, a, b),
        0 <= chunk.offset <= a < chunk.end() <= delta.base_len,
        is_char_boundary(chunk.text, a - chunk.offset),
        b < chunk.end() ==> is_char_boundary(chunk.text, b - chunk.offset),
        chunk.text.len() <= usize::MAX,
    ensures
        chunk.accepts(delta),
        chunk.lies_in_base(delta),
{
    deletion_is_recognised(delta, a, b);
    is_char_boundary_start_end_of_seq(chunk.text);
}

/// After an update without a delta, looking up a line gives the text of that line in the new
/// document, if the source serves the new document for the revision passed in.
pub proof fn line_lookup_after_update_without_delta<DS: DataSource>(
    source: &DS,
    chunk: Chunk,
    new: Seq<u8>,
    rev: u64,
    line: usize,
    after: Chunk,
    bytes: Seq<u8>,
)
    requires
        valid_utf8(new),
        new.len() <= usize::MAX,
        serves(source, new, rev),
        line_found(
            source,
            chunk.updated(new.len() as int, line_breaks(new) + 1, rev, None),
            line,
            after,
            Ok(bytes),
        ),
    ensures
        line <= line_breaks(new),
        bytes == line_text(new, line as int),
{
    let updated = chunk.updated(new.len() as int, line_breaks(new) + 1, rev, None);
    update_takes_over(chunk, new.len() as int, line_breaks(new) + 1, rev, None);
    update_without_delta_tracks(chunk, new, rev);
    line_lookup_gives_line(source, new, updated, line, after, Ok(bytes));
}

/// After an update without a delta, looking up the offset of a line gives that of the line in the
/// new document, if the source serves the new document for the revision passed in.
pub proof fn offset_lookup_after_update_without_delta<DS: DataSource>(
    source: &DS,
    chunk: Chunk,
    new: Seq<u8>,
    rev: u64,
    line: usize,
    after: Chunk,
    offset: usize,
)
    requires
        valid_utf8(new),
        new.len() <= usize::MAX,
        serves(source, new, rev),
        offset_found(
            source,
            chunk.updated(new.len() as int, line_breaks(new) + 1, rev, None),
            line,
            after,
            Ok(offset),
        ),
    ensures
        line <= line_breaks(new) + 1,
        offset == line_offset(new, line as int),
{
    let updated = chunk.updated(new.len() as int, line_breaks(new) + 1, rev, None);
    update_takes_over(chunk, new.len() as int, line_breaks(new) + 1, rev, None);
    update_without_delta_tracks(chunk, new, rev);
    offset_lookup_gives_offset(source, new, updated, line, after, Ok(offset));
}

/// After an update with an edit of the document, looking up the offset of a line gives that of
/// the line in the edited document, if the source serves that for the revision passed in.
pub proof fn offset_lookup_after_update<DS: DataSource>(
    source: &DS,
    doc: Seq<u8>,
    chunk: Chunk,
    delta: &Delta,
    rev: u64,
    line: usize,
    after: Chunk,
    offset: usize,
)
    requires
        tracks(chunk, doc),
        edits(*delta, doc),
        delta.apply(doc).len() <= usize::MAX,
        serves(source, delta.apply(doc), rev),
        offset_found(
            source,
            chunk.updated(
                delta.apply(doc).len() as int,
                line_breaks(delta.apply(doc)) + 1,
                rev,
                Some(delta),
            ),
            line,
            after,
            Ok(offset),
        ),
    ensures
        offset == line_offset(delta.apply(doc), line as int),
{
    let new = delta.apply(doc);
    let updated = chunk.updated(new.len() as int, line_breaks(new) + 1, rev, Some(delta));
    update_takes_over(chunk, new.len() as int, line_breaks(new) + 1, rev, Some(delta));
    update_tracks(chunk, doc, delta, rev);
    offset_lookup_gives_offset(source, new, updated, line, after, Ok(offset));
}

/// After a text has been put in at a place in a chunk of the document, every line of the edited
/// document that then lies whole in the chunk is given without the source, and so is the offset of
/// every line that starts there.
pub proof fn lookups_after_insertion_need_no_source<DS: DataSource>(
    source: &DS,
    doc: Seq<u8>,
    chunk: Chunk,
    delta: &Delta,
    p: usize,
    text: String,
    rev: u64,
    line: usize,
)
    requires
        tracks(chunk, doc),
        edits(*delta, doc),
        puts_in(delta.els@, delta.base_len, p, text),
        chunk.offset <= p < chunk.end(),
        line <= line_breaks(delta.apply(doc)),
    ensures
        ({
            let new = delta.apply(doc);
            let end = chunk.end() + encode_utf8(text@).len();
            let updated = chunk.updated(new.len() as int, line_breaks(new) + 1, rev, Some(delta));
            &&& new == doc.take(p as int) + encode_utf8(text@) + doc.skip(p as int)
            &&& chunk.offset <= line_offset(new, line as int) && line_offset(new, line + 1) <= end
                ==> forall|after: Chunk, result: Result<Seq<u8>, Error>| #[trigger]
                line_found(source, updated, line, after, result) ==> after == updated && result
                    == Ok::<Seq<u8>, Error>(line_text(new, line as int))
            &&& chunk.offset <= line_offset(new, line as int) <= end ==> forall|
                after: Chunk,
                result: Result<usize, Error>,
            | #[trigger]
                offset_found(source, updated, line, after, result) ==> after == updated && (
                result matches Ok(offset) && offset == line_offset(new, line as int))
        }),
{
    let new = delta.apply(doc);
    let updated = chunk.updated(new.len() as int, line_breaks(new) + 1, rev, Some(delta));
    insertion_is_recognised(*delta, p, text);
    lemma_simple_edit(*delta, doc);
    update_tracks(chunk, doc, delta, rev);
    inserting_update(chunk, delta, p, text, new.len() as int, line_breaks(new) + 1, rev);
    assert forall|after: Chunk, result: Result<Seq<u8>, Error>| #[trigger]
        line_found(source, updated, line, after, result) && chunk.offset <= line_offset(
            new,
            line as int,
        ) && line_offset(new, line + 1) <= updated.end() implies after == updated && result
        == Ok::<Seq<u8>, Error>(line_text(new, line as int)) by {
        held_line_is_given(source, new, updated, line, after, result);
    }
    assert forall|after: Chunk, result: Result<usize, Error>| #[trigger]
        offset_found(source, updated, line, after, result) && chunk.offset <= line_offset(
            new,
            line as int,
        ) <= updated.end() implies after == updated && (result matches Ok(offset) && offset
        == line_offset(new, line as int)) by {
        held_offset_is_given(source, new, updated, line, after, result);
    }
}

/// After a range that begins in a chunk of the document has been taken out, every line of the
/// edited document that then lies whole in the chunk is given without the source, and so is the
/// offset of every line that starts there.
pub proof fn lookups_after_deletion_need_no_source<DS: DataSource>(
    source: &DS,
    doc: Seq<u8>,
    chunk: Chunk,
    delta: &Delta,
    a: usize,
    b: usize,
    rev: u64,
    line: usize,
)
    requires
        tracks(chunk, doc),
        edits(*delta, doc),
        takes_out(delta.els@, delta.base_len, a, b),
        chunk.offset <= a < chunk.end(),
        line <= line_breaks(delta.apply(doc)),
    ensures
        ({
            let new = delta.apply(doc);
            let end = if b < chunk.end() {
                chunk.end() - (b - a)
            } else {
                a as int
            };
            let updated = chunk.updated(new.len() as int, line_breaks(new) + 1, rev, Some(delta));
            &&& new == doc.take(a as int) + doc.skip(b as int)
            &&& chunk.offset < end && chunk.offset <= line_offset(new, line as int) && line_offset(
                new,
                line + 1,
            ) <= end ==> forall|after: Chunk, result: Result<Seq<u8>, Error>| #[trigger]
                line_found(source, updated, line, after, result) ==> after == updated && result
                    == Ok::<Seq<u8>, Error>(line_text(new, line as int))
            &&& chunk.offset <= line_offset(new, line as int) <= end ==> forall|
                after: Chunk,
                result: Result<usize, Error>,
            | #[trigger]
                offset_found(source, updated, line, after, result) ==> after == updated && (
                result matches Ok(offset) && offset == line_offset(new, line as int))
        }),
{
    let new = delta.apply(doc);
    let updated = chunk.updated(new.len() as int, line_breaks(new) + 1, rev, Some(delta));
    deletion_is_recognised(*delta, a, b);
    lemma_simple_edit(*delta, doc);
    assert(doc.take(a as int) + Seq::<u8>::empty() == doc.take(a as int));
    update_tracks(chunk, doc, delta, rev);
    deleting_update(chunk, delta, a, b, new.len() as int, line_breaks(new) + 1, rev);
    assert forall|after: Chunk, result: Result<Seq<u8>, Error>| #[trigger]
        line_found(source, updated, line, after, result) && chunk.offset < updated.end()
            && chunk.offset <= line_offset(new, line as int) && line_offset(new, line + 1)
            <= updated.end() implies after == updated && result == Ok::<Seq<u8>, Error>(
        line_text(new, line as int),
    ) by {
        held_line_is_given(source, new, updated, line, after, result);
    }
    assert forall|after: Chunk, result: Result<usize, Error>| #[trigger]
        offset_found(source, updated, line, after, result) && chunk.offset <= line_offset(
            new,
            line as int,
        ) <= updated.end() implies after == updated && (result matches Ok(offset) && offset
        == line_offset(new, line as int)) by {
        held_offset_is_given(source, new, updated, line, after, result);
    }
}

/// Clearing a chunk leaves no text, and what is known of the document.
pub proof fn clearing_leaves_no_text(chunk: Chunk)
    ensures
        chunk.cleared().text == Seq::<u8>::empty(),
        chunk.cleared().line_offsets == Seq::<int>::empty(),
        chunk.cleared().offset == 0,
        chunk.cleared().first_line == 0,
        chunk.cleared().first_line_offset == 0,
        chunk.cleared().buf_size == chunk.buf_size,
        chunk.cleared().num_lines == chunk.num_lines,
        chunk.cleared().rev == chunk.rev,
{
}

/// Resetting a chunk with a piece of the document leaves that piece, at its place and with its
/// lines, and what is known of the document.
pub proof fn resetting_leaves_the_piece(chunk: Chunk, data: GetDataResponse)
    ensures
        chunk.reset(data).text == encode_utf8(data.chunk@),
        lists_lines(chunk.reset(data).line_offsets, encode_utf8(data.chunk@)),
        chunk.reset(data).offset == data.offset,
        chunk.reset(data).first_line == data.first_line,
        chunk.reset(data).first_line_offset == data.first_line_offset,
        chunk.reset(data).buf_size == chunk.buf_size,
        chunk.reset(data).num_lines == chunk.num_lines,
        chunk.reset(data).rev == chunk.rev,
{
    line_starts_list_lines(encode_utf8(data.chunk@));
}

/// Appending to a chunk leaves it where it is, with the new text behind its own and the lines of
/// both.
pub proof fn appending_leaves_both_texts(chunk: Chunk, more: Seq<u8>)
    ensures
        chunk.appended(more).text == chunk.text + more,
        lists_lines(chunk.appended(more).line_offsets, chunk.text + more),
        chunk.appended(more).offset == chunk.offset,
        chunk.appended(more).first_line == chunk.first_line,
        chunk.appended(more).first_line_offset == chunk.first_line_offset,
        chunk.appended(more).buf_size == chunk.buf_size,
        chunk.appended(more).num_lines == chunk.num_lines,
        chunk.appended(more).rev == chunk.rev,
{
    line_starts_list_lines(chunk.text + more);
}

/// Finding the line offsets anew, be it for the text of the chunk or for another, changes nothing
/// else.
pub proof fn relining_changes_line_offsets_alone(chunk: Chunk, text: Seq<u8>)
    ensures
        lists_lines(chunk.relined(text).line_offsets, text),
        chunk.relined(text) == (Chunk { line_offsets: chunk.relined(text).line_offsets, ..chunk }),
        chunk.with_text(chunk.text) == chunk.relined(chunk.text),
{
    line_starts_list_lines(text);
}

/// Discarding the first bytes of a chunk leaves the others, with their lines, that much further
/// into the document. The chunk then starts as many lines later as there were line breaks among
/// the bytes, and the way back to the start of its first line holds no line break.
pub proof fn trimming_leaves_the_rest(chunk: Chunk, n: int)
    requires
        0 <= n <= chunk.text.len(),
    ensures
        chunk.trimmed(n).text == chunk.text.subrange(n, chunk.text.len() as int),
        lists_lines(chunk.trimmed(n).line_offsets, chunk.trimmed(n).text),
        chunk.trimmed(n).offset == chunk.offset + n,
        chunk.trimmed(n).buf_size == chunk.buf_size,
        chunk.trimmed(n).num_lines == chunk.num_lines,
        chunk.trimmed(n).rev == chunk.rev,
        forall|offsets: Seq<int>| #[trigger]
            lists_lines(offsets, chunk.text.take(n)) ==> chunk.trimmed(n).first_line
                == chunk.first_line + offsets.len() && chunk.trimmed(n).first_line_offset == if
                offsets.len() == 0 {
                chunk.first_line_offset + n
            } else {
                n - offsets.last()
            },
{
    line_starts_list_lines(chunk.text.skip(n));
    let dropped = chunk.text.take(n);
    assert forall|offsets: Seq<int>| #[trigger] lists_lines(offsets, dropped) implies offsets
        == line_starts(dropped) by {
        line_starts_list_lines(dropped);
        lines_are_listed_in_one_way(offsets, line_starts(dropped), dropped);
    }
}

} // verus!
