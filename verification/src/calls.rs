//! What holds of calls of the cache's own functions: what they return, and what becomes of the
//! cache.

use crate::cache::ChunkCache;
use crate::chunk::Chunk;
use crate::delta::{assembled, copied_to, Delta, DeltaElement};
use crate::document::{gives, refuses, serves, tracks};
use crate::laws::{
    edits, line_lookup_gives_line, line_lookup_goes_through, offset_lookup_gives_offset,
    offset_lookup_goes_through, update_is_accepted, update_tracks, update_without_delta_tracks,
};
use crate::lookup::{line_found, offset_found};
use crate::lookup_laws::{
    cached_offset_is_shown, held_line_is_given, held_offset_is_given,
    line_lookup_fails_by_the_source, line_lookup_fails_where_the_line_is_missing,
    line_lookup_goes_on_from_the_line, line_lookup_leaves, line_lookup_succeeds,
    line_past_the_document_is_refused, missing_offset_is_fetched, offset_lookup_succeeds,
    offset_past_the_document_is_refused, shown_line_can_be_looked_up,
    shown_line_is_given, shown_offset_is_given, shows_line, tracking_cache_is_well_formed,
};
use crate::merging::{
    merging_changes_text_and_offset_alone, merging_is_accepted, merging_keeps_no_other_copy,
    merging_keeps_what_is_inserted, merging_stays_in_document, reaches, stands_in,
};
use crate::offsets::as_ints;
use crate::source::{may_answer, DataSource, Error, GetDataResponse, TextUnit};
use crate::text::{
    line_breaks, line_offset, line_starts, line_starts_list_lines, line_text, lists_lines,
    newline_offsets,
};
use crate::update_laws::{
    appending_leaves_both_texts, clearing_leaves_no_text, deleting_update, deletion_is_accepted,
    deletion_is_recognised, edit_of_the_chunk_is_recognised, inserting_update,
    insertion_is_accepted, insertion_is_recognised,
    interval_is_between_the_outer_copies, nothing_else_is_a_deletion,
    nothing_else_is_an_insertion, other_update_drops_the_chunk, puts_in,
    relining_changes_line_offsets_alone, resetting_leaves_the_piece, takes_out,
    trimming_leaves_the_rest, update_takes_over, update_without_delta_drops_the_chunk,
};
use vstd::prelude::*;
use vstd::utf8::*;

verus! {

/// A line that was got, as bytes.
pub open spec fn as_bytes(result: Result<&str, Error>) -> Result<Seq<u8>, Error> {
    match result {
        Ok(s) => Ok(encode_utf8(s@)),
        Err(e) => Err(e),
    }
}

/// A new cache holds nothing.
pub proof fn new_cache_holds_nothing(cache: ChunkCache)
    requires
        call_ensures(ChunkCache::default, (), cache),
    ensures
        cache.offset == 0,
        cache.contents@ == Seq::<char>::empty(),
        cache.first_line == 0,
        cache.first_line_offset == 0,
        cache.line_offsets@ == Seq::<usize>::empty(),
        cache.buf_size == 0,
        cache.num_lines == 0,
        cache.rev == 0,
{
}

/// Getting a line is a lookup of the line in the chunk, and leaves the cache well-formed.
pub proof fn getting_a_line_is_a_lookup<DS: DataSource>(
    source: &DS,
    before: ChunkCache,
    line: usize,
    after: ChunkCache,
    result: Result<&str, Error>,
)
    requires
        exists|c: &mut ChunkCache|
            *c == before && *final(c) == after && #[trigger] call_ensures(
                ChunkCache::get_line::<DS>,
                (c, source, line),
                result,
            ),
    ensures
        line_found(source, before@, line, after@, as_bytes(result)),
        after.well_formed(),
{
}

/// Getting an offset is a lookup of the offset in the chunk, and leaves the cache well-formed.
pub proof fn getting_an_offset_is_a_lookup<DS: DataSource>(
    source: &DS,
    before: ChunkCache,
    line: usize,
    after: ChunkCache,
    result: Result<usize, Error>,
)
    requires
        exists|c: &mut ChunkCache|
            *c == before && *final(c) == after && #[trigger] call_ensures(
                ChunkCache::offset_of_line::<DS>,
                (c, source, line),
                result,
            ),
    ensures
        offset_found(source, before@, line, after@, result),
        after.well_formed(),
{
}

/// Updating a cache updates the chunk. The line offsets stay those of the text, where the chunk
/// lay in the document that the delta edits.
pub proof fn updating_is_an_update(
    before: ChunkCache,
    new_len: usize,
    num_lines: usize,
    rev: u64,
    delta: Option<&Delta>,
    after: ChunkCache,
)
    requires
        exists|c: &mut ChunkCache|
            *c == before && *final(c) == after && #[trigger] call_ensures(
                ChunkCache::apply_update,
                (c, new_len, num_lines, rev, delta),
                (),
            ),
    ensures
        after@ == before@.updated(new_len as int, num_lines as int, rev, delta),
        (delta matches Some(d) ==> before@.end() <= d.base_len) ==> lists_lines(
            after@.line_offsets,
            after@.text,
        ),
{
    line_starts_list_lines(after@.text);
}

/// Getting a line of the document that the cache tracks, from a source that serves it, gives the
/// text of the line, if the source answers the request for the line and every request for a place
/// in the document.
pub proof fn getting_a_line_succeeds<DS: DataSource>(
    source: &DS,
    doc: Seq<u8>,
    before: ChunkCache,
    line: usize,
    after: ChunkCache,
    result: Result<&str, Error>,
)
    requires
        valid_utf8(doc),
        doc.len() <= usize::MAX,
        tracks(before@, doc),
        serves(source, doc, before.rev),
        line <= line_breaks(doc),
        forall|e: Error| !#[trigger] refuses(source, line, TextUnit::Line, before.rev, e),
        forall|at: usize, e: Error|
            at < doc.len() ==> !#[trigger] refuses(source, at, TextUnit::Utf8, before.rev, e),
        exists|c: &mut ChunkCache|
            *c == before && *final(c) == after && #[trigger] call_ensures(
                ChunkCache::get_line::<DS>,
                (c, source, line),
                result,
            ),
    ensures
        result matches Ok(s) && encode_utf8(s@) == line_text(doc, line as int),
{
    line_lookup_succeeds(source, doc, before@, line, after@, as_bytes(result));
}

/// Getting a line from a source that serves the document gives the line, or fails: with
/// `BadRequest` past the line after the last, else with the answer to the request for the line,
/// where the cache does not hold its start, or to that for the first byte after what is held of
/// the line, which is not all of it.
pub proof fn getting_a_line_gives_it_or_fails<DS: DataSource>(
    source: &DS,
    doc: Seq<u8>,
    before: ChunkCache,
    line: usize,
    after: ChunkCache,
    result: Result<&str, Error>,
)
    requires
        valid_utf8(doc),
        doc.len() <= usize::MAX,
        tracks(before@, doc),
        serves(source, doc, before.rev),
        exists|c: &mut ChunkCache|
            *c == before && *final(c) == after && #[trigger] call_ensures(
                ChunkCache::get_line::<DS>,
                (c, source, line),
                result,
            ),
    ensures
        match result {
            Ok(s) => line <= line_breaks(doc) && encode_utf8(s@) == line_text(doc, line as int),
            Err(e) if line > line_breaks(doc) + 1 => e == Error::BadRequest && after@ == before@,
            Err(e) => {
                ||| {
                    &&& refuses(source, line, TextUnit::Line, before.rev, e)
                    &&& after@ == before@
                    &&& before@.text.len() == 0 || !(before.offset <= line_offset(doc, line as int)
                        <= before@.end())
                }
                ||| {
                    &&& refuses(source, after@.end() as usize, TextUnit::Utf8, before.rev, e)
                    &&& after.offset == line_offset(doc, line as int)
                    &&& after@.end() <= doc.len()
                    &&& line <= line_breaks(doc) ==> after@.end() < doc.len()
                    &&& forall|p: int| after.offset <= p < after@.end() ==> doc[p] != 0x0a
                }
            },
        },
        tracks(after@, doc),
        after.rev == before.rev,
        after.buf_size == before.buf_size,
        after.num_lines == before.num_lines,
        after@ == before@ || after.offset == line_offset(doc, line as int),
{
    let bytes = as_bytes(result);
    line_lookup_gives_line(source, doc, before@, line, after@, bytes);
    if line <= line_breaks(doc) + 1 {
        line_lookup_leaves(source, doc, before@, line, after@, bytes);
        match result {
            Ok(_) => {},
            Err(e) => {
                line_lookup_fails_where_the_line_is_missing(
                    source,
                    doc,
                    before@,
                    line,
                    after@,
                    e,
                );
            },
        }
    } else {
        line_past_the_document_is_refused(source, before@, line, after@, bytes);
    }
}

/// Getting a line that lies whole in the chunk gives it, whatever the source, and leaves the chunk
/// as it is.
pub proof fn getting_a_held_line_asks_for_nothing<DS: DataSource>(
    source: &DS,
    doc: Seq<u8>,
    before: ChunkCache,
    line: usize,
    after: ChunkCache,
    result: Result<&str, Error>,
)
    requires
        tracks(before@, doc),
        line <= line_breaks(doc),
        before@.text.len() > 0,
        before.offset <= line_offset(doc, line as int),
        line_offset(doc, line + 1) <= before@.end(),
        exists|c: &mut ChunkCache|
            *c == before && *final(c) == after && #[trigger] call_ensures(
                ChunkCache::get_line::<DS>,
                (c, source, line),
                result,
            ),
    ensures
        after@ == before@,
        result matches Ok(s) && encode_utf8(s@) == line_text(doc, line as int),
{
    held_line_is_given(source, doc, before@, line, after@, as_bytes(result));
}

/// What getting a line does by any source, told from the fields of the cache.
pub proof fn getting_a_line_by_any_source<DS: DataSource>(
    source: &DS,
    before: ChunkCache,
    line: usize,
    after: ChunkCache,
    result: Result<&str, Error>,
    start: int,
    end: int,
)
    requires
        before@.consistent(),
        exists|c: &mut ChunkCache|
            *c == before && *final(c) == after && #[trigger] call_ensures(
                ChunkCache::get_line::<DS>,
                (c, source, line),
                result,
            ),
    ensures
        after.rev == before.rev,
        after.buf_size == before.buf_size,
        after.num_lines == before.num_lines,
        line > before.num_lines ==> (result matches Err(e) && e == Error::BadRequest) && after@
            == before@,
        line <= before.num_lines && before@.text.len() > 0 && shows_line(
            before@,
            line as int,
            start,
        ) && shows_line(before@, line + 1, end) ==> after@ == before@ && (result matches Ok(s)
            && encode_utf8(s@) == before@.text.subrange(start, end)),
        line <= before.num_lines && result is Err ==> {
            ||| after@ == before@ && refuses(
                source,
                line,
                TextUnit::Line,
                before.rev,
                result->Err_0,
            ) && (before@.text.len() == 0 || !shows_line(before@, line as int, start))
            ||| refuses(source, after@.end() as usize, TextUnit::Utf8, before.rev, result->Err_0)
        },
{
    let bytes = as_bytes(result);
    if line > before.num_lines {
        line_past_the_document_is_refused(source, before@, line, after@, bytes);
    } else {
        line_lookup_goes_on_from_the_line(source, before@, line, after@, bytes);
        if before@.text.len() > 0 && shows_line(before@, line as int, start) && shows_line(
            before@,
            line + 1,
            end,
        ) {
            shown_line_is_given(source, before@, line, start, end, after@, bytes);
        }
        match result {
            Ok(_) => {},
            Err(e) => {
                line_lookup_fails_by_the_source(source, before@, line, after@, e);
            },
        }
    }
}

/// Getting the offset of a line from a source that serves the document gives the offset of the
/// line in the document, or fails: with `BadRequest` past the line after the last, else with the
/// answer to the request for the line, where the line does not start in the chunk.
pub proof fn getting_an_offset_gives_it_or_fails<DS: DataSource>(
    source: &DS,
    doc: Seq<u8>,
    before: ChunkCache,
    line: usize,
    after: ChunkCache,
    result: Result<usize, Error>,
)
    requires
        valid_utf8(doc),
        doc.len() <= usize::MAX,
        tracks(before@, doc),
        serves(source, doc, before.rev),
        exists|c: &mut ChunkCache|
            *c == before && *final(c) == after && #[trigger] call_ensures(
                ChunkCache::offset_of_line::<DS>,
                (c, source, line),
                result,
            ),
    ensures
        match result {
            Ok(offset) => line <= line_breaks(doc) + 1 && offset == line_offset(doc, line as int),
            Err(e) if line > line_breaks(doc) + 1 => e == Error::BadRequest && after@ == before@,
            Err(e) => {
                &&& refuses(source, line, TextUnit::Line, before.rev, e)
                &&& after@ == before@
                &&& !(before.offset <= line_offset(doc, line as int) <= before@.end())
            },
        },
        tracks(after@, doc),
        after.rev == before.rev,
        after@ == before@ || after.offset == line_offset(doc, line as int),
{
    if line <= line_breaks(doc) + 1 {
        offset_lookup_succeeds(source, doc, before@, line, after@, result);
    } else {
        offset_past_the_document_is_refused(source, before@, line, after@, result);
    }
}

/// Getting the offset of a line that starts in the chunk or at its end gives it, whatever the
/// source, and leaves the chunk as it is.
pub proof fn getting_a_held_offset_asks_for_nothing<DS: DataSource>(
    source: &DS,
    doc: Seq<u8>,
    before: ChunkCache,
    line: usize,
    after: ChunkCache,
    result: Result<usize, Error>,
)
    requires
        tracks(before@, doc),
        line <= line_breaks(doc) + 1,
        before.offset <= line_offset(doc, line as int) <= before@.end(),
        exists|c: &mut ChunkCache|
            *c == before && *final(c) == after && #[trigger] call_ensures(
                ChunkCache::offset_of_line::<DS>,
                (c, source, line),
                result,
            ),
    ensures
        after@ == before@,
        result matches Ok(offset) && offset == line_offset(doc, line as int),
{
    held_offset_is_given(source, doc, before@, line, after@, result);
}

/// What getting the offset of a line does by any source, told from the fields of the cache.
pub proof fn getting_an_offset_by_any_source<DS: DataSource>(
    source: &DS,
    before: ChunkCache,
    line: usize,
    after: ChunkCache,
    result: Result<usize, Error>,
)
    requires
        exists|c: &mut ChunkCache|
            *c == before && *final(c) == after && #[trigger] call_ensures(
                ChunkCache::offset_of_line::<DS>,
                (c, source, line),
                result,
            ),
    ensures
        line > before.num_lines ==> (result matches Err(e) && e == Error::BadRequest) && after@
            == before@,
        forall|o: int|
            line <= before.num_lines && #[trigger] shows_line(before@, line as int, o) ==> after@
                == before@ && (result matches Ok(offset) && offset == before.offset + o),
        line <= before.num_lines && (forall|o: int| !shows_line(before@, line as int, o)) ==> {
            match result {
                Ok(offset) => {
                    &&& shows_line(after@, line as int, offset - after.offset)
                    &&& after.rev == before.rev
                    &&& exists|data: GetDataResponse| #[trigger]
                        gives(source, line, TextUnit::Line, before.rev, data) && after.offset
                            == data.offset && after@.text == encode_utf8(data.chunk@)
                            && after.first_line == data.first_line && after.first_line_offset
                            == data.first_line_offset
                },
                Err(e) => refuses(source, line, TextUnit::Line, before.rev, e) && after@
                    == before@,
            }
        },
{
    if line > before.num_lines {
        offset_past_the_document_is_refused(source, before@, line, after@, result);
    } else {
        assert forall|o: int| #[trigger] shows_line(before@, line as int, o) implies after@
            == before@ && (result matches Ok(offset) && offset == before.offset + o) by {
            shown_offset_is_given(source, before@, line, o, after@, result);
        }
        if forall|o: int| !shows_line(before@, line as int, o) {
            missing_offset_is_fetched(source, before@, line, after@, result);
        }
    }
}

/// Whatever the update, the cache takes over the size, the line count and the revision that it is
/// told; without a delta it holds nothing more.
pub proof fn updating_takes_over(
    before: ChunkCache,
    new_len: usize,
    num_lines: usize,
    rev: u64,
    delta: Option<&Delta>,
    after: ChunkCache,
)
    requires
        exists|c: &mut ChunkCache|
            *c == before && *final(c) == after && #[trigger] call_ensures(
                ChunkCache::apply_update,
                (c, new_len, num_lines, rev, delta),
                (),
            ),
    ensures
        after.buf_size == new_len,
        after.num_lines == num_lines,
        after.rev == rev,
        delta is None ==> {
            &&& after@.text == Seq::<u8>::empty()
            &&& after.line_offsets@.len() == 0
            &&& after.offset == 0
            &&& after.first_line == 0
            &&& after.first_line_offset == 0
        },
{
    update_takes_over(before@, new_len as int, num_lines as int, rev, delta);
    update_without_delta_drops_the_chunk(before@, new_len as int, num_lines as int, rev);
    assert(after@.line_offsets.len() == after.line_offsets@.len());
}

/// Updating with a delta that puts a text in at a place in the chunk puts it in there.
pub proof fn updating_puts_in(
    before: ChunkCache,
    new_len: usize,
    num_lines: usize,
    rev: u64,
    delta: &Delta,
    after: ChunkCache,
    p: usize,
    text: String,
)
    requires
        exists|c: &mut ChunkCache|
            *c == before && *final(c) == after && #[trigger] call_ensures(
                ChunkCache::apply_update,
                (c, new_len, num_lines, rev, Some(delta)),
                (),
            ),
        puts_in(delta.els@, delta.base_len, p, text),
        before.offset <= p < before@.end() <= delta.base_len,
    ensures
        after@.text == before@.text.take(p - before.offset) + encode_utf8(text@)
            + before@.text.skip(p - before.offset),
        lists_lines(after@.line_offsets, after@.text),
        after.offset == before.offset,
        after.first_line == before.first_line,
        after.first_line_offset == before.first_line_offset,
{
    inserting_update(before@, delta, p, text, new_len as int, num_lines as int, rev);
}

/// Updating with a delta that takes out a range which begins in the chunk takes it out there, as
/// far as the chunk has it.
pub proof fn updating_takes_out(
    before: ChunkCache,
    new_len: usize,
    num_lines: usize,
    rev: u64,
    delta: &Delta,
    after: ChunkCache,
    a: usize,
    b: usize,
)
    requires
        exists|c: &mut ChunkCache|
            *c == before && *final(c) == after && #[trigger] call_ensures(
                ChunkCache::apply_update,
                (c, new_len, num_lines, rev, Some(delta)),
                (),
            ),
        takes_out(delta.els@, delta.base_len, a, b),
        before.offset <= a < before@.end() <= delta.base_len,
    ensures
        after@.text == before@.text.take(a - before.offset) + before@.text.skip(
            if b < before@.end() {
                b - before.offset
            } else {
                before@.text.len() as int
            },
        ),
        lists_lines(after@.line_offsets, after@.text),
        after.offset == before.offset,
        after.first_line == before.first_line,
        after.first_line_offset == before.first_line_offset,
{
    deleting_update(before@, delta, a, b, new_len as int, num_lines as int, rev);
}

/// Updating with any other delta leaves no text.
pub proof fn updating_else_drops_the_chunk(
    before: ChunkCache,
    new_len: usize,
    num_lines: usize,
    rev: u64,
    delta: &Delta,
    after: ChunkCache,
)
    requires
        exists|c: &mut ChunkCache|
            *c == before && *final(c) == after && #[trigger] call_ensures(
                ChunkCache::apply_update,
                (c, new_len, num_lines, rev, Some(delta)),
                (),
            ),
        delta.well_formed(),
        forall|p: usize, text: String| #[trigger]
            puts_in(delta.els@, delta.base_len, p, text) ==> !(before.offset <= p < before@.end()),
        forall|a: usize, b: usize| #[trigger]
            takes_out(delta.els@, delta.base_len, a, b) ==> !(before.offset <= a < before@.end()),
    ensures
        after@.text == Seq::<u8>::empty(),
        after@.line_offsets == Seq::<int>::empty(),
        after.offset == 0,
        after.first_line == 0,
        after.first_line_offset == 0,
{
    other_update_drops_the_chunk(before@, delta, new_len as int, num_lines as int, rev);
}

/// After an update to a new document, with the delta that leads there or without one, the cache
/// tracks the new document.
pub proof fn updating_tracks(
    before: ChunkCache,
    doc: Seq<u8>,
    new: Seq<u8>,
    new_len: usize,
    num_lines: usize,
    rev: u64,
    delta: Option<&Delta>,
    updated: ChunkCache,
)
    requires
        exists|c: &mut ChunkCache|
            *c == before && *final(c) == updated && #[trigger] call_ensures(
                ChunkCache::apply_update,
                (c, new_len, num_lines, rev, delta),
                (),
            ),
        delta matches Some(d) ==> tracks(before@, doc) && edits(*d, doc) && new == d.apply(doc),
        valid_utf8(new),
        new_len == new.len(),
        num_lines == line_breaks(new) + 1,
    ensures
        tracks(updated@, new),
{
    match delta {
        Some(d) => {
            update_tracks(before@, doc, d, rev);
        },
        None => {
            update_without_delta_tracks(before@, new, rev);
        },
    }
}

/// After an update to a new document, with the delta that leads there or without one, getting a
/// line from a source that serves the new document for the new revision gives that line of the new
/// document, if any.
pub proof fn getting_a_line_after_updating<DS: DataSource>(
    before: ChunkCache,
    doc: Seq<u8>,
    new: Seq<u8>,
    new_len: usize,
    num_lines: usize,
    rev: u64,
    delta: Option<&Delta>,
    updated: ChunkCache,
    source: &DS,
    line: usize,
    after: ChunkCache,
    result: Result<&str, Error>,
)
    requires
        exists|c: &mut ChunkCache|
            *c == before && *final(c) == updated && #[trigger] call_ensures(
                ChunkCache::apply_update,
                (c, new_len, num_lines, rev, delta),
                (),
            ),
        delta matches Some(d) ==> tracks(before@, doc) && edits(*d, doc) && new == d.apply(doc),
        valid_utf8(new),
        new_len == new.len(),
        num_lines == line_breaks(new) + 1,
        serves(source, new, rev),
        exists|c: &mut ChunkCache|
            *c == updated && *final(c) == after && #[trigger] call_ensures(
                ChunkCache::get_line::<DS>,
                (c, source, line),
                result,
            ),
    ensures
        result matches Ok(s) ==> encode_utf8(s@) == line_text(new, line as int),
{
    updating_tracks(before, doc, new, new_len, num_lines, rev, delta, updated);
    updating_takes_over(before, new_len, num_lines, rev, delta, updated);
    line_lookup_gives_line(source, new, updated@, line, after@, as_bytes(result));
}

/// After an update to a new document, with the delta that leads there or without one, getting
/// the offset of a line from a source that serves the new document for the new revision gives that
/// of the line in the new document, if any.
pub proof fn getting_an_offset_after_updating<DS: DataSource>(
    before: ChunkCache,
    doc: Seq<u8>,
    new: Seq<u8>,
    new_len: usize,
    num_lines: usize,
    rev: u64,
    delta: Option<&Delta>,
    updated: ChunkCache,
    source: &DS,
    line: usize,
    after: ChunkCache,
    result: Result<usize, Error>,
)
    requires
        exists|c: &mut ChunkCache|
            *c == before && *final(c) == updated && #[trigger] call_ensures(
                ChunkCache::apply_update,
                (c, new_len, num_lines, rev, delta),
                (),
            ),
        delta matches Some(d) ==> tracks(before@, doc) && edits(*d, doc) && new == d.apply(doc),
        valid_utf8(new),
        new_len == new.len(),
        num_lines == line_breaks(new) + 1,
        serves(source, new, rev),
        exists|c: &mut ChunkCache|
            *c == updated && *final(c) == after && #[trigger] call_ensures(
                ChunkCache::offset_of_line::<DS>,
                (c, source, line),
                result,
            ),
    ensures
        result matches Ok(offset) ==> offset == line_offset(new, line as int),
{
    updating_tracks(before, doc, new, new_len, num_lines, rev, delta, updated);
    updating_takes_over(before, new_len, num_lines, rev, delta, updated);
    offset_lookup_gives_offset(source, new, updated@, line, after@, result);
}

/// Clearing leaves no text, and what is known of the document.
pub proof fn clearing(before: ChunkCache, after: ChunkCache)
    requires
        exists|c: &mut ChunkCache|
            *c == before && *final(c) == after && #[trigger] call_ensures(
                ChunkCache::clear,
                (c,),
                (),
            ),
    ensures
        after@.text == Seq::<u8>::empty(),
        after@.line_offsets == Seq::<int>::empty(),
        after.offset == 0,
        after.first_line == 0,
        after.first_line_offset == 0,
        after.buf_size == before.buf_size,
        after.num_lines == before.num_lines,
        after.rev == before.rev,
{
    clearing_leaves_no_text(before@);
}

/// Resetting leaves the piece that it is given, and what is known of the document.
pub proof fn resetting(before: ChunkCache, data: GetDataResponse, after: ChunkCache)
    requires
        exists|c: &mut ChunkCache|
            *c == before && *final(c) == after && #[trigger] call_ensures(
                ChunkCache::reset_chunk,
                (c, data),
                (),
            ),
    ensures
        after@.text == encode_utf8(data.chunk@),
        lists_lines(after@.line_offsets, after@.text),
        after.offset == data.offset,
        after.first_line == data.first_line,
        after.first_line_offset == data.first_line_offset,
        after.buf_size == before.buf_size,
        after.num_lines == before.num_lines,
        after.rev == before.rev,
{
    resetting_leaves_the_piece(before@, data);
}

/// Appending puts the text that it is given behind that of the chunk.
pub proof fn appending(before: ChunkCache, data: GetDataResponse, after: ChunkCache)
    requires
        exists|c: &mut ChunkCache|
            *c == before && *final(c) == after && #[trigger] call_ensures(
                ChunkCache::append_chunk,
                (c, data),
                (),
            ),
    ensures
        after@.text == before@.text + encode_utf8(data.chunk@),
        lists_lines(after@.line_offsets, after@.text),
        after.offset == before.offset,
        after.first_line == before.first_line,
        after.first_line_offset == before.first_line_offset,
        after.buf_size == before.buf_size,
        after.num_lines == before.num_lines,
        after.rev == before.rev,
{
    appending_leaves_both_texts(before@, encode_utf8(data.chunk@));
}

/// Recalculating the line offsets makes them those of the text, and changes nothing else.
pub proof fn recalculating(before: ChunkCache, after: ChunkCache)
    requires
        exists|c: &mut ChunkCache|
            *c == before && *final(c) == after && #[trigger] call_ensures(
                ChunkCache::recalculate_line_offsets,
                (c,),
                (),
            ),
    ensures
        lists_lines(after@.line_offsets, after@.text),
        after@ == (Chunk { line_offsets: after@.line_offsets, ..before@ }),
{
    relining_changes_line_offsets_alone(before@, before@.text);
}

/// Clearing up to an offset leaves what follows it.
pub proof fn clearing_up_to(
    before: ChunkCache,
    offset: usize,
    after: ChunkCache,
    dropped: Seq<int>,
)
    requires
        exists|c: &mut ChunkCache|
            *c == before && *final(c) == after && #[trigger] call_ensures(
                ChunkCache::clear_up_to,
                (c, offset),
                (),
            ),
        offset <= before@.text.len(),
        lists_lines(dropped, before@.text.take(offset as int)),
    ensures
        after@.text == before@.text.subrange(offset as int, before@.text.len() as int),
        lists_lines(after@.line_offsets, after@.text),
        after.offset == before.offset + offset,
        after.first_line == before.first_line + dropped.len(),
        after.first_line_offset == if dropped.len() == 0 {
            before.first_line_offset + offset
        } else {
            offset - dropped.last()
        },
        after.buf_size == before.buf_size,
        after.num_lines == before.num_lines,
        after.rev == before.rev,
{
    trimming_leaves_the_rest(before@, offset as int);
}

/// Patching up the line offsets for an insertion makes them those of the text with the insertion
/// in it, and changes nothing else.
pub proof fn patching_for_an_insertion(
    before: ChunkCache,
    text: &str,
    ins_offset: usize,
    after: ChunkCache,
)
    requires
        exists|c: &mut ChunkCache|
            *c == before && *final(c) == after && #[trigger] call_ensures(
                ChunkCache::simple_insert,
                (c, text, ins_offset),
                (),
            ),
    ensures
        ({
            let at = ins_offset - before.offset;
            lists_lines(
                after@.line_offsets,
                before@.text.take(at) + encode_utf8(text@) + before@.text.skip(at),
            )
        }),
        after@ == (Chunk { line_offsets: after@.line_offsets, ..before@ }),
{
    let at = ins_offset - before.offset;
    relining_changes_line_offsets_alone(
        before@,
        before@.text.take(at) + encode_utf8(text@) + before@.text.skip(at),
    );
}

/// Patching up the line offsets for a deletion makes them those of the text without what is
/// deleted, and changes nothing else.
pub proof fn patching_for_a_deletion(
    before: ChunkCache,
    start: usize,
    end: usize,
    after: ChunkCache,
)
    requires
        exists|c: &mut ChunkCache|
            *c == before && *final(c) == after && #[trigger] call_ensures(
                ChunkCache::simple_delete,
                (c, start, end),
                (),
            ),
    ensures
        lists_lines(
            after@.line_offsets,
            before@.text.take(start - before.offset) + before@.text.skip(end - before.offset),
        ),
        after@ == (Chunk { line_offsets: after@.line_offsets, ..before@ }),
{
    relining_changes_line_offsets_alone(
        before@,
        before@.text.take(start - before.offset) + before@.text.skip(end - before.offset),
    );
}

/// The chunk is to be cleared unless the delta puts in one text at a place in the chunk or takes
/// out one range which begins in the chunk, and is otherwise left with the line offsets of the
/// text that the edit makes.
pub proof fn deciding_to_clear(before: ChunkCache, delta: &Delta, after: ChunkCache, clear: bool)
    requires
        exists|c: &mut ChunkCache|
            *c == before && *final(c) == after && #[trigger] call_ensures(
                ChunkCache::should_clear,
                (c, delta),
                clear,
            ),
        delta.well_formed(),
    ensures
        !clear <==> {
            ||| exists|p: usize, text: String| #[trigger]
                puts_in(delta.els@, delta.base_len, p, text) && before.offset <= p < before@.end()
            ||| exists|a: usize, b: usize| #[trigger]
                takes_out(delta.els@, delta.base_len, a, b) && before.offset <= a < before@.end()
        },
        clear ==> after@ == before@,
        after@ == (Chunk { line_offsets: after@.line_offsets, ..before@ }),
        forall|p: usize, text: String| #[trigger]
            puts_in(delta.els@, delta.base_len, p, text) && !clear ==> lists_lines(
                after@.line_offsets,
                before@.text.take(p - before.offset) + encode_utf8(text@) + before@.text.skip(
                    p - before.offset,
                ),
            ),
        forall|a: usize, b: usize| #[trigger]
            takes_out(delta.els@, delta.base_len, a, b) && !clear ==> lists_lines(
                after@.line_offsets,
                before@.text.take(a - before.offset) + before@.text.skip(
                    if b < before@.end() {
                        b - before.offset
                    } else {
                        before@.text.len() as int
                    },
                ),
            ),
{
    edit_of_the_chunk_is_recognised(before@, *delta);
    let edited = before@.edited_text(*delta);
    relining_changes_line_offsets_alone(before@, edited);
    assert forall|p: usize, text: String| #[trigger]
        puts_in(delta.els@, delta.base_len, p, text) && !clear implies lists_lines(
        after@.line_offsets,
        before@.text.take(p - before.offset) + encode_utf8(text@) + before@.text.skip(
            p - before.offset,
        ),
    ) by {
        insertion_is_recognised(*delta, p, text);
    }
    assert forall|a: usize, b: usize| #[trigger]
        takes_out(delta.els@, delta.base_len, a, b) && !clear implies lists_lines(
        after@.line_offsets,
        before@.text.take(a - before.offset) + before@.text.skip(
            if b < before@.end() {
                b - before.offset
            } else {
                before@.text.len() as int
            },
        ),
    ) by {
        deletion_is_recognised(*delta, a, b);
        let head = before@.text.take(a - before.offset);
        assert(head + Seq::<u8>::empty() == head);
    }
}

/// Merging an edit of the document into a chunk of it, one that a copied range meets, makes a piece
/// of the edited document of the chunk. That piece has just what is copied out of the chunk, and
/// what is inserted in it or at its start or end. Here the byte is number `k` of what element `i`
/// copies or inserts.
pub proof fn merging(
    before: ChunkCache,
    doc: Seq<u8>,
    delta: &Delta,
    after: ChunkCache,
    i: int,
    k: int,
)
    requires
        exists|c: &mut ChunkCache|
            *c == before && *final(c) == after && #[trigger] call_ensures(
                ChunkCache::update_chunk,
                (c, delta),
                (),
            ),
        stands_in(before@, doc),
        delta.well_formed(),
        delta.base_len == doc.len(),
        reaches(delta.els@, before@),
        0 <= i < delta.els@.len(),
        0 <= k < match delta.els@[i] {
            DeltaElement::Copy(beg, end) => end - beg,
            DeltaElement::Insert(s) => encode_utf8(s@).len() as int,
        },
    ensures
        stands_in(after@, delta.apply(doc)),
        after@ == (Chunk { text: after@.text, offset: after@.offset, ..before@ }),
        after.offset <= assembled(delta.els@.take(i), doc).len() + k < after@.end() <==> (
        match delta.els@[i] {
            DeltaElement::Copy(beg, _) => before.offset <= beg + k < before@.end(),
            DeltaElement::Insert(_) => before.offset <= copied_to(delta.els@.take(i))
                <= before@.end(),
        }),
{
    merging_stays_in_document(before@, doc, *delta);
    merging_changes_text_and_offset_alone(before@, delta.els@);
    match delta.els@[i] {
        DeltaElement::Copy(beg, _) => {
            merging_keeps_no_other_copy(before@, doc, *delta, i, beg + k);
        },
        DeltaElement::Insert(_) => {
            merging_keeps_what_is_inserted(before@, doc, *delta, i, k);
        },
    }
}

/// The cached offset of a line is the one that the fields show, and there is none just where they
/// show none.
pub proof fn asking_for_a_cached_offset(cache: ChunkCache, line: usize, result: Option<usize>)
    requires
        call_ensures(ChunkCache::cached_offset_of_line, (&cache, line), result),
    ensures
        match result {
            Some(o) => shows_line(cache@, line as int, o as int),
            None => forall|o: int| !shows_line(cache@, line as int, o),
        },
{
    cached_offset_is_shown(cache@, line as int);
}

/// Finding line offsets puts those of the text behind what there was.
pub proof fn finding_line_offsets(text: &str, before: Vec<usize>, after: Vec<usize>)
    requires
        exists|v: &mut Vec<usize>|
            *v == before && *final(v) == after && #[trigger] call_ensures(
                newline_offsets,
                (text, v),
                (),
            ),
    ensures
        before@.len() <= after@.len(),
        after@.take(before@.len() as int) == before@,
        lists_lines(as_ints(after@).skip(before@.len() as int), encode_utf8(text@)),
{
    let n = before@.len() as int;
    line_starts_list_lines(encode_utf8(text@));
    assert(as_ints(after@).len() == after@.len());
    assert(as_ints(after@).skip(n) == line_starts(encode_utf8(text@)));
    assert forall|j: int| 0 <= j < n implies after@[j] == before@[j] by {
        assert(as_ints(after@)[j] == as_ints(before@)[j]);
    }
}

/// What the functions of a delta that is in order say of it, told from its elements.
pub proof fn asking_a_delta(
    delta: Delta,
    interval: (usize, usize),
    deletes: bool,
    text: Option<&String>,
)
    requires
        delta.well_formed(),
        call_ensures(Delta::interval, (&delta,), interval),
        call_ensures(Delta::is_simple_delete, (&delta,), deletes),
        call_ensures(Delta::as_simple_insert, (&delta,), text),
    ensures
        deletes <==> exists|a: usize, b: usize| #[trigger]
            takes_out(delta.els@, delta.base_len, a, b),
        forall|a: usize, b: usize| #[trigger]
            takes_out(delta.els@, delta.base_len, a, b) ==> interval == (a, b),
        text is Some <==> exists|p: usize, s: String| #[trigger]
            puts_in(delta.els@, delta.base_len, p, s),
        forall|p: usize, s: String| #[trigger]
            puts_in(delta.els@, delta.base_len, p, s) ==> interval == (p, p) && text == Some(&s),
        match delta.els@.len() > 0 {
            true => match delta.els@[0] {
                DeltaElement::Copy(0, end) => interval.0 == end,
                _ => interval.0 == 0,
            },
            false => interval.0 == 0 && interval.1 == delta.base_len,
        },
        delta.els@.len() > 1 ==> match delta.els@[delta.els@.len() - 1] {
            DeltaElement::Copy(beg, end) => interval.1 == if end == delta.base_len {
                beg
            } else {
                delta.base_len
            },
            _ => interval.1 == delta.base_len,
        },
{
    interval_is_between_the_outer_copies(delta);
    nothing_else_is_a_deletion(delta);
    nothing_else_is_an_insertion(delta);
    assert forall|a: usize, b: usize| #[trigger]
        takes_out(delta.els@, delta.base_len, a, b) implies interval == (a, b) && deletes by {
        deletion_is_recognised(delta, a, b);
    }
    assert forall|p: usize, s: String| #[trigger]
        puts_in(delta.els@, delta.base_len, p, s) implies interval == (p, p) && text == Some(
        &s,
    ) by {
        insertion_is_recognised(delta, p, s);
    }
}

/// A line of the document that the cache tracks can be got from a source that serves it, and so
/// can the offset of every line, also past the document.
pub proof fn the_document_can_be_looked_up<DS: DataSource>(
    source: &DS,
    doc: Seq<u8>,
    before: ChunkCache,
    line: usize,
)
    requires
        valid_utf8(doc),
        doc.len() <= usize::MAX,
        tracks(before@, doc),
        serves(source, doc, before.rev),
    ensures
        line <= line_breaks(doc) || line > line_breaks(doc) + 1 ==> forall|c: &mut ChunkCache|
            *c == before ==> #[trigger] call_requires(
                ChunkCache::get_line::<DS>,
                (c, source, line),
            ),
        forall|c: &mut ChunkCache|
            *c == before ==> #[trigger] call_requires(
                ChunkCache::offset_of_line::<DS>,
                (c, source, line),
            ),
{
    tracking_cache_is_well_formed(before, doc);
    offset_lookup_goes_through(source, doc, before@, line);
    if line <= line_breaks(doc) {
            line_lookup_goes_through(source, doc, before@, line);
    }
}

/// The line after the last can be looked up, too, where the source does not answer a request for
/// what follows the end of the document.
pub proof fn the_end_can_be_looked_up<DS: DataSource>(
    source: &DS,
    doc: Seq<u8>,
    before: ChunkCache,
    line: usize,
)
    requires
        valid_utf8(doc),
        doc.len() <= usize::MAX,
        tracks(before@, doc),
        serves(source, doc, before.rev),
        line == line_breaks(doc) + 1 < usize::MAX,
        forall|data: GetDataResponse|
            !#[trigger] gives(source, doc.len() as usize, TextUnit::Utf8, before.rev, data),
    ensures
        forall|c: &mut ChunkCache|
            *c == before ==> #[trigger] call_requires(
                ChunkCache::get_line::<DS>,
                (c, source, line),
            ),
{
    tracking_cache_is_well_formed(before, doc);
    assert forall|data: GetDataResponse|
        !(#[trigger] may_answer(
            source,
            doc.len() as usize,
            TextUnit::Utf8,
            before.rev,
            Ok(data),
        )) by {
        assert(!gives(source, doc.len() as usize, TextUnit::Utf8, before.rev, data));
    }
    line_lookup_goes_through(source, doc, before@, line);
}

/// What the fields of a well-formed cache show can be looked up, whatever the source.
pub proof fn what_is_shown_can_be_looked_up<DS: DataSource>(
    source: &DS,
    before: ChunkCache,
    line: usize,
    start: int,
    end: int,
)
    requires
        before.well_formed(),
        line < usize::MAX,
        shows_line(before@, line as int, start),
    ensures
        before@.text.len() > 0 && shows_line(before@, line + 1, end) ==> forall|
            c: &mut ChunkCache,
        |
            *c == before ==> #[trigger] call_requires(
                ChunkCache::get_line::<DS>,
                (c, source, line),
            ),
        forall|c: &mut ChunkCache|
            *c == before ==> #[trigger] call_requires(
                ChunkCache::offset_of_line::<DS>,
                (c, source, line),
            ),
{
    shown_line_can_be_looked_up(source, before@, line, start, end);
}

/// The cache can be updated with every edit of the document that it tracks, and, whatever it
/// tracks, without a delta.
pub proof fn the_document_can_be_updated(
    doc: Seq<u8>,
    before: ChunkCache,
    new_len: usize,
    num_lines: usize,
    rev: u64,
    delta: Option<&Delta>,
)
    requires
        before.well_formed(),
        delta matches Some(d) ==> tracks(before@, doc) && edits(*d, doc) && d.apply(doc).len()
            <= usize::MAX,
    ensures
        forall|c: &mut ChunkCache|
            *c == before ==> #[trigger] call_requires(
                ChunkCache::apply_update,
                (c, new_len, num_lines, rev, delta),
            ),
{
    match delta {
        Some(d) => {
            update_is_accepted(before@, doc, d, rev);
        },
        None => {},
    }
}

/// A text can be put in, and a range taken out, between any characters of a well-formed cache, if
/// what comes out of it fits in memory.
pub proof fn the_chunk_can_be_updated(
    before: ChunkCache,
    new_len: usize,
    num_lines: usize,
    rev: u64,
    delta: &Delta,
    a: usize,
    b: usize,
    text: String,
)
    requires
        before.well_formed(),
        before.offset <= a < before@.end() <= delta.base_len,
        is_char_boundary(before@.text, a - before.offset),
        ({
            ||| puts_in(delta.els@, delta.base_len, a, text) && before@.text.len() + encode_utf8(
                text@,
            ).len() <= usize::MAX
            ||| takes_out(delta.els@, delta.base_len, a, b) && (b < before@.end()
                ==> is_char_boundary(before@.text, b - before.offset))
        }),
    ensures
        forall|c: &mut ChunkCache|
            *c == before ==> #[trigger] call_requires(
                ChunkCache::apply_update,
                (c, new_len, num_lines, rev, Some(delta)),
            ),
{
    encode_utf8_valid_utf8(before.contents@);
    if puts_in(delta.els@, delta.base_len, a, text) {
        insertion_is_accepted(before@, *delta, a, text);
    } else {
        deletion_is_accepted(before@, *delta, a, b);
    }
}

/// A well-formed cache can be cleared up to any character.
pub proof fn the_chunk_can_be_cleared_up_to(before: ChunkCache, offset: usize)
    requires
        before.well_formed(),
        is_char_boundary(before@.text, offset as int),
    ensures
        forall|c: &mut ChunkCache|
            *c == before ==> #[trigger] call_requires(
                ChunkCache::clear_up_to,
                (c, offset),
            ),
{
}

/// Every edit of a document between characters can be merged into a chunk of it that one of the
/// copied ranges meets.
pub proof fn an_edit_can_be_merged(before: ChunkCache, doc: Seq<u8>, delta: &Delta)
    requires
        valid_utf8(doc),
        stands_in(before@, doc),
        is_char_boundary(doc, before@.offset),
        delta.well_formed(),
        delta.base_len == doc.len(),
        forall|i: int|
            0 <= i < delta.els@.len() ==> (#[trigger] delta.els@[i] matches DeltaElement::Copy(
                beg,
                end,
            ) ==> is_char_boundary(doc, beg as int) && is_char_boundary(doc, end as int)),
        reaches(delta.els@, before@),
        delta.apply(doc).len() <= usize::MAX,
    ensures
        forall|c: &mut ChunkCache|
            *c == before ==> #[trigger] call_requires(
                ChunkCache::update_chunk,
                (c, delta),
            ),
{
    encode_utf8_valid_utf8(before.contents@);
    merging_is_accepted(before@, doc, *delta);
}

} // verus!
