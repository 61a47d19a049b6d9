//! What holds of a cache whose source serves the document that it tracks.

use crate::chunk::{joined, Chunk};
use crate::delta::{assembled, copied_to, ordered, Delta};
use crate::document::{
    appending_tracks, clearing_tracks, is_piece, lemma_boundary_in_chunk,
    lemma_cached_is_line_offset, lemma_end_is_cached, lemma_line_offset, lemma_no_line_past_end,
    lemma_tracks_end, lemma_tracks_in_range, resetting_tracks, serves, tracks, trimming_tracks,
};
use crate::encoding::lemma_boundary_after_valid;
use crate::lookup::{
    asked_for, can_locate, can_search, lemma_searched_init, line_ends, line_found, next_request,
    offset_found, opened, search_breaks_off, searched,
};
use crate::merging::stands_in;
use crate::source::{may_answer, DataSource, Error, GetDataResponse, TextUnit};
use crate::text::{
    lemma_line_order, line_breaks, line_offset, line_starts_list_lines, line_text, lists_lines,
};
use vstd::prelude::*;
use vstd::utf8::*;

verus! {

/// What a source that serves the document gives for the start of a line tracks the document and
/// holds the start of the line.
pub(crate) proof fn lemma_fetched_line<DS: DataSource>(
    source: &DS,
    doc: Seq<u8>,
    chunk: Chunk,
    line: usize,
    data: GetDataResponse,
)
    requires
        valid_utf8(doc),
        doc.len() <= usize::MAX,
        tracks(chunk, doc),
        serves(source, doc, chunk.rev),
        line <= chunk.num_lines,
        may_answer(source, line, TextUnit::Line, chunk.rev, Ok(data)),
    ensures
        tracks(chunk.reset(data), doc),
        chunk.reset(data).in_range(),
        chunk.reset(data).cached_offset(line as int) is Some,
{
    lemma_line_offset(doc, line as int);
    resetting_tracks(chunk, doc, line as int, TextUnit::Line, data);
    let fetched = chunk.reset(data);
    lemma_tracks_in_range(fetched, doc);
    if line == chunk.num_lines {
        assert(doc.take(doc.len() as int) == doc);
        lemma_end_is_cached(fetched, doc, line as int);
    }
}

/// A search of a document by way of a source that serves it starts from a chunk that tracks the
/// document and holds the start of the line.
pub(crate) proof fn lemma_search_opens<DS: DataSource>(
    source: &DS,
    doc: Seq<u8>,
    chunk: Chunk,
    line: usize,
    base: Chunk,
)
    requires
        valid_utf8(doc),
        doc.len() <= usize::MAX,
        tracks(chunk, doc),
        serves(source, doc, chunk.rev),
        line <= chunk.num_lines,
        opened(source, chunk, line, base),
        base.cached_offset(line as int) is Some,
    ensures
        tracks(base, doc),
        base.rev == chunk.rev,
        base.num_lines == chunk.num_lines,
        base.offset + base.cached_offset(line as int)->0 == line_offset(doc, line as int),
        0 <= base.cached_offset(line as int)->0 <= base.text.len(),
        tracks(base.trimmed(base.cached_offset(line as int)->0), doc),
{
    if chunk.lacks_start(line as int) {
        let data = choose|data: GetDataResponse|
            #![auto]
            may_answer(source, line, TextUnit::Line, chunk.rev, Ok(data)) && base == chunk.reset(
                data,
            );
        lemma_fetched_line(source, doc, chunk, line, data);
    }
    lemma_cached_is_line_offset(base, doc, line as int);
    base.lemma_cached_boundary(line as int);
    trimming_tracks(base, doc, base.cached_offset(line as int)->0);
}

/// In a search of a document by way of a source that serves it, the chunk tracks the document.
pub(crate) proof fn lemma_search_tracks<DS: DataSource>(
    source: &DS,
    doc: Seq<u8>,
    chunk: Chunk,
    line: usize,
    base: Chunk,
    answers: Seq<GetDataResponse>,
)
    requires
        valid_utf8(doc),
        doc.len() <= usize::MAX,
        tracks(chunk, doc),
        serves(source, doc, chunk.rev),
        line <= chunk.num_lines,
        searched(source, chunk, line, base, answers),
    ensures
        tracks(base.trimmed(base.cached_offset(line as int)->0).appended(joined(answers)), doc),
        next_request(base, answers) == base.end() + joined(answers).len(),
    decreases answers.len(),
{
    let start = base.cached_offset(line as int)->0;
    lemma_search_opens(source, doc, chunk, line, base);
    let trimmed = base.trimmed(start);
    if answers.len() == 0 {
        trimmed.lemma_nothing_changed();
    } else {
        let init = answers.drop_last();
        let more = encode_utf8(answers.last().chunk@);
        lemma_searched_init(source, chunk, line, base, answers);
        lemma_search_tracks(source, doc, chunk, line, base, init);
        let so_far = trimmed.appended(joined(init));
        lemma_tracks_end(so_far, doc);
        assert(so_far.end() == next_request(base, init));
        assert(is_piece(doc, so_far.end(), TextUnit::Utf8, answers.last()));
        encode_utf8_valid_utf8(answers.last().chunk@);
        appending_tracks(so_far, doc, more);
        assert(trimmed.text + joined(answers) == so_far.text + more);
        assert(so_far.appended(more) == trimmed.appended(joined(answers)));
    }
}

/// In a search of a document by way of a source that serves it, the request for what follows the
/// text so far is for a place in the document; it is for the end of the document only where there
/// is no further line to find.
pub(crate) proof fn lemma_request_is_in_document<DS: DataSource>(
    source: &DS,
    doc: Seq<u8>,
    chunk: Chunk,
    line: usize,
    base: Chunk,
    answers: Seq<GetDataResponse>,
)
    requires
        valid_utf8(doc),
        doc.len() <= usize::MAX,
        tracks(chunk, doc),
        serves(source, doc, chunk.rev),
        line <= chunk.num_lines,
        searched(source, chunk, line, base, answers),
        base.grown(base.cached_offset(line as int)->0, answers).cached_offset(line + 1) is None,
    ensures
        is_char_boundary(doc, next_request(base, answers) as int),
        next_request(base, answers) <= doc.len(),
        next_request(base, answers) == doc.len() ==> line == chunk.num_lines,
{
    let start = base.cached_offset(line as int)->0;
    lemma_search_opens(source, doc, chunk, line, base);
    lemma_search_tracks(source, doc, chunk, line, base, answers);
    let so_far = base.trimmed(start).appended(joined(answers));
    lemma_tracks_end(so_far, doc);
    assert(so_far.end() == next_request(base, answers));
    if line < chunk.num_lines && so_far.end() == doc.len() {
        let held = base.grown(start, answers);
        if answers.len() > 0 {
            lemma_line_offset(doc, line as int);
        }
        lemma_end_is_cached(held, doc, line + 1);
    }
}

/// Where the end of a line of the document has yet to come, the source has some text to give.
pub(crate) proof fn lemma_answer_is_text<DS: DataSource>(
    source: &DS,
    doc: Seq<u8>,
    chunk: Chunk,
    line: usize,
    base: Chunk,
    answers: Seq<GetDataResponse>,
)
    requires
        valid_utf8(doc),
        doc.len() <= usize::MAX,
        tracks(chunk, doc),
        serves(source, doc, chunk.rev),
        line <= chunk.num_lines,
        searched(source, chunk, line, base, answers),
        answers.len() > 0,
    ensures
        encode_utf8(answers.last().chunk@).len() > 0 || line == chunk.num_lines && may_answer(
            source,
            doc.len() as usize,
            TextUnit::Utf8,
            chunk.rev,
            Ok(answers.last()),
        ),
{
    let init = answers.drop_last();
    let at = next_request(base, init);
    lemma_searched_init(source, chunk, line, base, answers);
    assert(is_piece(doc, at as int, TextUnit::Utf8, answers.last()));
    lemma_request_is_in_document(source, doc, chunk, line, base, init);
}

/// Looking up a line of the document by way of a source that serves it needs no more of the
/// source than that, unless the line is the one after the last: the source then must not answer
/// a request for what follows the end of the document.
pub proof fn line_lookup_goes_through<DS: DataSource>(
    source: &DS,
    doc: Seq<u8>,
    chunk: Chunk,
    line: usize,
)
    requires
        valid_utf8(doc),
        doc.len() <= usize::MAX,
        line < usize::MAX,
        tracks(chunk, doc),
        serves(source, doc, chunk.rev),
        line < chunk.num_lines || forall|data: GetDataResponse|
            !(#[trigger] may_answer(
                source,
                doc.len() as usize,
                TextUnit::Utf8,
                chunk.rev,
                Ok(data),
            )),
    ensures
        can_search(source, chunk, line),
{
    if line <= chunk.num_lines {
        assert forall|data: GetDataResponse| #[trigger]
            may_answer(source, line, TextUnit::Line, chunk.rev, Ok(data)) implies {
            &&& chunk.reset(data).in_range()
            &&& chunk.reset(data).cached_offset(line as int) is Some
        } by {
            lemma_fetched_line(source, doc, chunk, line, data);
        }
        assert forall|base: Chunk, answers: Seq<GetDataResponse>, more: GetDataResponse| #[trigger]
            searched(source, chunk, line, base, answers.push(more)) implies {
            &&& encode_utf8(more.chunk@).len() > 0
            &&& base.grown(
                base.cached_offset(line as int)->0,
                answers.push(more),
            ).in_range()
        } by {
            let start = base.cached_offset(line as int)->0;
            let seen = answers.push(more);
            lemma_search_tracks(source, doc, chunk, line, base, seen);
            lemma_answer_is_text(source, doc, chunk, line, base, seen);
            assert(seen.last() == more);
            lemma_tracks_in_range(base.grown(start, seen), doc);
        }
    }
}

/// Looking up a line of the document by way of a source that serves it gives the text of that
/// line; only the source can fail. For a line that the document does not have it gives no text.
/// Either way the cache still tracks the document.
pub proof fn line_lookup_gives_line<DS: DataSource>(
    source: &DS,
    doc: Seq<u8>,
    chunk: Chunk,
    line: usize,
    after: Chunk,
    result: Result<Seq<u8>, Error>,
)
    requires
        valid_utf8(doc),
        doc.len() <= usize::MAX,
        tracks(chunk, doc),
        serves(source, doc, chunk.rev),
        line_found(source, chunk, line, after, result),
    ensures
        tracks(after, doc),
        match result {
            Ok(bytes) => line < chunk.num_lines && bytes == line_text(doc, line as int),
            Err(e) => if line > chunk.num_lines {
                e == Error::BadRequest
            } else {
                exists|start: usize, unit: TextUnit| #[trigger]
                    may_answer(source, start, unit, chunk.rev, Err(e))
            },
        },
{
    if line <= chunk.num_lines {
        match result {
            Ok(bytes) => {
                let (base, answers) = choose|base: Chunk, answers: Seq<GetDataResponse>| #[trigger]
                    searched(source, chunk, line, base, answers) && line_ends(
                        line,
                        base,
                        answers,
                        after,
                        bytes,
                    );
                let start = base.cached_offset(line as int)->0;
                lemma_search_opens(source, doc, chunk, line, base);
                lemma_search_tracks(source, doc, chunk, line, base, answers);
                lemma_cached_is_line_offset(after, doc, line + 1);
                after.lemma_cached_boundary(line + 1);
                let end = after.cached_offset(line + 1)->0;
                let from = if answers.len() == 0 {
                    start
                } else {
                    0
                };
                assert(after.offset + from == line_offset(doc, line as int));
                if line == chunk.num_lines {
                    lemma_no_line_past_end(after, doc, line + 1);
                }
                lemma_line_offset(doc, line as int);
                lemma_line_order(doc, line as int);
                assert(after.text.subrange(from, end) == doc.subrange(
                    after.offset + from,
                    after.offset + end,
                ));
            },
            Err(e) => {
                if exists|base: Chunk, answers: Seq<GetDataResponse>| #[trigger]
                    searched(source, chunk, line, base, answers) && search_breaks_off(
                        source,
                        line,
                        base,
                        answers,
                        after,
                        e,
                    ) {
                    let (base, answers) = choose|
                        base: Chunk,
                        answers: Seq<GetDataResponse>,
                    | #[trigger]
                        searched(source, chunk, line, base, answers) && search_breaks_off(
                            source,
                            line,
                            base,
                            answers,
                            after,
                            e,
                        );
                    lemma_search_opens(source, doc, chunk, line, base);
                    lemma_search_tracks(source, doc, chunk, line, base, answers);
                }
            },
        }
    }
}

/// A line that lies in the chunk up to the start of the next one is found without the source, and
/// the chunk stays as it is.
pub proof fn held_line_needs_no_source<DS: DataSource>(
    source: &DS,
    chunk: Chunk,
    line: usize,
    after: Chunk,
    result: Result<Seq<u8>, Error>,
)
    requires
        line <= chunk.num_lines,
        chunk.text.len() > 0,
        chunk.cached_offset(line as int) is Some,
        chunk.cached_offset(line + 1) is Some,
        line_found(source, chunk, line, after, result),
    ensures
        after == chunk,
        result == Ok::<Seq<u8>, Error>(
            chunk.text.subrange(
                chunk.cached_offset(line as int)->0,
                chunk.cached_offset(line + 1)->0,
            ),
        ),
{
    assert forall|base: Chunk, answers: Seq<GetDataResponse>| #[trigger]
        searched(source, chunk, line, base, answers) implies base == chunk && answers.len()
        == 0 by {
        if answers.len() > 0 {
            assert(asked_for(source, chunk, line, base, answers.take(0), answers[0]));
        }
    }
}

/// Looking up the offset of a line by way of a source that serves the document needs no more of
/// the source than that.
pub proof fn offset_lookup_goes_through<DS: DataSource>(
    source: &DS,
    doc: Seq<u8>,
    chunk: Chunk,
    line: usize,
)
    requires
        valid_utf8(doc),
        doc.len() <= usize::MAX,
        tracks(chunk, doc),
        serves(source, doc, chunk.rev),
    ensures
        can_locate(source, chunk, line),
{
    if line <= chunk.num_lines {
        assert forall|data: GetDataResponse| #[trigger]
            may_answer(source, line, TextUnit::Line, chunk.rev, Ok(data)) implies {
            &&& chunk.reset(data).in_range()
            &&& chunk.reset(data).cached_offset(line as int) is Some
        } by {
            lemma_fetched_line(source, doc, chunk, line, data);
        }
    }
}

/// Looking up the offset of a line by way of a source that serves the document gives the offset
/// of that line in the document; only the source can fail. Either way the cache still tracks the
/// document.
pub proof fn offset_lookup_gives_offset<DS: DataSource>(
    source: &DS,
    doc: Seq<u8>,
    chunk: Chunk,
    line: usize,
    after: Chunk,
    result: Result<usize, Error>,
)
    requires
        valid_utf8(doc),
        doc.len() <= usize::MAX,
        tracks(chunk, doc),
        serves(source, doc, chunk.rev),
        offset_found(source, chunk, line, after, result),
    ensures
        tracks(after, doc),
        match result {
            Ok(offset) => line <= chunk.num_lines && offset == line_offset(doc, line as int),
            Err(e) => if line > chunk.num_lines {
                e == Error::BadRequest
            } else {
                may_answer(source, line, TextUnit::Line, chunk.rev, Err(e))
            },
        },
{
    if line <= chunk.num_lines && result is Ok {
        if chunk.cached_offset(line as int) is None {
            let data = choose|data: GetDataResponse| #[trigger]
                may_answer(source, line, TextUnit::Line, chunk.rev, Ok(data)) && after
                    == chunk.reset(data);
            lemma_fetched_line(source, doc, chunk, line, data);
        }
        lemma_cached_is_line_offset(after, doc, line as int);
    }
}

/// Whether `delta` is an edit of the text `doc` into a text, and cuts it between characters.
pub open spec fn edits(delta: Delta, doc: Seq<u8>) -> bool {
    &&& valid_utf8(doc)
    &&& delta.well_formed()
    &&& delta.base_len == doc.len()
    &&& is_char_boundary(doc, delta.edit_start())
    &&& is_char_boundary(doc, delta.edit_end())
    &&& valid_utf8(delta.apply(doc))
}

/// What a single insertion or deletion makes of a document.
pub(crate) proof fn lemma_simple_edit(delta: Delta, doc: Seq<u8>)
    requires
        delta.well_formed(),
        delta.base_len == doc.len(),
        delta.deletes_one_range() || delta.one_insertion() is Some,
    ensures
        0 <= delta.edit_start() <= delta.edit_end() <= doc.len(),
        delta.apply(doc) == doc.take(delta.edit_start()) + delta.inserted() + doc.skip(
            delta.edit_end(),
        ),
{
    reveal_with_fuel(ordered, 4);
    reveal_with_fuel(copied_to, 4);
    reveal_with_fuel(assembled, 4);
    assert(delta.apply(doc) == doc.take(delta.edit_start()) + delta.inserted() + doc.skip(
        delta.edit_end(),
    ));
}

/// Where a single insertion or deletion begins in a chunk of a document, the chunk with the edit
/// in it is a piece of the edited document.
pub(crate) proof fn lemma_edited_tracks(chunk: Chunk, doc: Seq<u8>, delta: Delta)
    requires
        tracks(chunk, doc),
        edits(delta, doc),
        chunk.is_edited_by(delta),
    ensures
        tracks(
            (Chunk {
                buf_size: delta.apply(doc).len() as int,
                num_lines: line_breaks(delta.apply(doc)) + 1,
                ..chunk.with_text(chunk.edited_text(delta))
            }),
            delta.apply(doc),
        ),
{
    let new = delta.apply(doc);
    lemma_simple_edit(delta, doc);
    let start = chunk.within(delta.edit_start());
    let end = chunk.within(delta.edit_end());
    lemma_boundary_in_chunk(chunk, doc, delta.edit_start());
    lemma_boundary_in_chunk(chunk, doc, delta.edit_end());
    // the text is text
    valid_utf8_split(chunk.text, start);
    valid_utf8_split(chunk.text, end);
    assert(chunk.text.take(start) == chunk.text.subrange(0, start));
    assert(chunk.text.skip(end) == chunk.text.subrange(end, chunk.text.len() as int));
    assert(valid_utf8(delta.inserted())) by {
        match delta.one_insertion() {
            Some(s) => {
                encode_utf8_valid_utf8(s@);
            },
            None => {},
        }
    }
    valid_utf8_concat(chunk.text.take(start), delta.inserted());
    valid_utf8_concat(chunk.text.take(start) + delta.inserted(), chunk.text.skip(end));
    // what lies before the chunk is as it was
    assert(new.take(chunk.offset) == doc.take(chunk.offset));
    valid_utf8_split(doc, chunk.offset);
    assert(doc.take(chunk.offset) == doc.subrange(0, chunk.offset));
    lemma_boundary_after_valid(new, chunk.offset);
    // the text stands in the edited document
    let text = chunk.edited_text(delta);
    assert(text == new.subrange(chunk.offset, chunk.offset + text.len()));
}

/// An update with an edit of the document that the cache tracks leaves the cache tracking the
/// edited document.
pub proof fn update_tracks(chunk: Chunk, doc: Seq<u8>, delta: &Delta, rev: u64)
    requires
        tracks(chunk, doc),
        edits(*delta, doc),
    ensures
        tracks(
            chunk.updated(
                delta.apply(doc).len() as int,
                line_breaks(delta.apply(doc)) + 1,
                rev,
                Some(delta),
            ),
            delta.apply(doc),
        ),
{
    let new = delta.apply(doc);
    if chunk.is_edited_by(*delta) {
        lemma_edited_tracks(chunk, doc, *delta);
        chunk.lemma_edited(*delta);
    } else {
        clearing_tracks(
            Chunk { buf_size: new.len() as int, num_lines: line_breaks(new) + 1, ..chunk },
            new,
        );
    }
}

/// An update without a delta leaves the cache tracking the new document, whatever that is.
pub proof fn update_without_delta_tracks(chunk: Chunk, new: Seq<u8>, rev: u64)
    requires
        valid_utf8(new),
    ensures
        tracks(chunk.updated(new.len() as int, line_breaks(new) + 1, rev, None), new),
{
    clearing_tracks(
        Chunk { buf_size: new.len() as int, num_lines: line_breaks(new) + 1, ..chunk },
        new,
    );
}

/// Every edit of the document that a cache tracks can be applied to the cache, if the length of
/// the edited document fits in a machine word, and the cache then stays in range.
pub proof fn update_is_accepted(chunk: Chunk, doc: Seq<u8>, delta: &Delta, rev: u64)
    requires
        tracks(chunk, doc),
        edits(*delta, doc),
        delta.apply(doc).len() <= usize::MAX,
    ensures
        chunk.accepts(*delta),
        chunk.lies_in_base(*delta),
        chunk.updated(
            delta.apply(doc).len() as int,
            line_breaks(delta.apply(doc)) + 1,
            rev,
            Some(delta),
        ).in_range(),
{
    let new = delta.apply(doc);
    update_tracks(chunk, doc, delta, rev);
    lemma_tracks_in_range(
        chunk.updated(new.len() as int, line_breaks(new) + 1, rev, Some(delta)),
        new,
    );
    if chunk.is_edited_by(*delta) {
        lemma_edited_tracks(chunk, doc, *delta);
        lemma_boundary_in_chunk(chunk, doc, delta.edit_start());
        lemma_boundary_in_chunk(chunk, doc, delta.edit_end());
        is_char_boundary_start_end_of_seq(doc);
        lemma_boundary_in_chunk(chunk, doc, doc.len() as int);
    }
}

/// A single insertion that begins in a chunk of a document puts its text in the chunk, which
/// stays where it is in the edited document, and the line offsets are those of the new text.
pub proof fn insertion_is_put_in(
    chunk: Chunk,
    doc: Seq<u8>,
    delta: &Delta,
    text: String,
    new_len: int,
    num_lines: int,
    rev: u64,
)
    requires
        stands_in(chunk, doc),
        delta.well_formed(),
        delta.base_len == doc.len(),
        delta.one_insertion() == Some(text),
        chunk.offset <= delta.edit_start() < chunk.end(),
    ensures
        ({
            let updated = chunk.updated(new_len, num_lines, rev, Some(delta));
            let at = delta.edit_start() - chunk.offset;
            let edited = chunk.text.take(at) + encode_utf8(text@) + chunk.text.skip(at);
            &&& updated == Chunk { buf_size: new_len, num_lines, rev, ..chunk.with_text(edited) }
            &&& lists_lines(updated.line_offsets, updated.text)
            &&& stands_in(updated, delta.apply(doc))
        }),
{
    chunk.lemma_edited(*delta);
    lemma_simple_edit(*delta, doc);
    line_starts_list_lines(chunk.edited_text(*delta));
    let edited = chunk.edited_text(*delta);
    assert(edited == delta.apply(doc).subrange(chunk.offset, chunk.offset + edited.len()));
}

/// A single deletion that begins in a chunk of a document takes what it deletes out of the chunk,
/// which stays where it is in the edited document, and the line offsets are those of the rest.
pub proof fn deletion_is_taken_out(
    chunk: Chunk,
    doc: Seq<u8>,
    delta: &Delta,
    new_len: int,
    num_lines: int,
    rev: u64,
)
    requires
        stands_in(chunk, doc),
        delta.well_formed(),
        delta.base_len == doc.len(),
        delta.deletes_one_range(),
        chunk.offset <= delta.edit_start() < chunk.end(),
    ensures
        ({
            let updated = chunk.updated(new_len, num_lines, rev, Some(delta));
            let rest = chunk.text.take(chunk.within(delta.edit_start())) + chunk.text.skip(
                chunk.within(delta.edit_end()),
            );
            &&& updated == Chunk { buf_size: new_len, num_lines, rev, ..chunk.with_text(rest) }
            &&& lists_lines(updated.line_offsets, updated.text)
            &&& stands_in(updated, delta.apply(doc))
        }),
{
    chunk.lemma_edited(*delta);
    lemma_simple_edit(*delta, doc);
    line_starts_list_lines(chunk.edited_text(*delta));
    let edited = chunk.edited_text(*delta);
    assert(edited == chunk.text.take(chunk.within(delta.edit_start())) + chunk.text.skip(
        chunk.within(delta.edit_end()),
    ));
    assert(edited == delta.apply(doc).subrange(chunk.offset, chunk.offset + edited.len()));
}

/// An update that inserts a text in the chunk, and one that deletes just that text again, leave
/// of the chunk what it was before, and the second can be made wherever the first can.
pub proof fn deletion_undoes_insertion(
    chunk: Chunk,
    insertion: &Delta,
    text: String,
    deletion: &Delta,
    lens: (int, int),
    line_counts: (int, int),
    revs: (u64, u64),
)
    requires
        chunk.consistent(),
        chunk.in_range(),
        valid_utf8(chunk.text),
        insertion.one_insertion() == Some(text),
        chunk.offset <= insertion.edit_start() < chunk.end() <= insertion.base_len,
        deletion.well_formed(),
        deletion.deletes_one_range(),
        deletion.base_len == insertion.base_len + encode_utf8(text@).len(),
        deletion.edit_start() == insertion.edit_start(),
        deletion.edit_end() == insertion.edit_start() + encode_utf8(text@).len(),
    ensures
        ({
            let between = chunk.updated(lens.0, line_counts.0, revs.0, Some(insertion));
            let after = between.updated(lens.1, line_counts.1, revs.1, Some(deletion));
            &&& between.consistent()
            &&& between.end() == chunk.end() + encode_utf8(text@).len()
            &&& chunk.accepts(*insertion) ==> between.accepts(*deletion)
            &&& after == Chunk {
                buf_size: lens.1,
                num_lines: line_counts.1,
                rev: revs.1,
                ..chunk
            }
        }),
{
    let between = chunk.updated(lens.0, line_counts.0, revs.0, Some(insertion));
    let at = insertion.edit_start() - chunk.offset;
    let added = encode_utf8(text@);
    let head = chunk.text.take(at);
    let tail = chunk.text.skip(at);
    chunk.lemma_edited(*insertion);
    assert(between.text == head + added + tail);
    between.lemma_edited(*deletion);
    assert(between.edited_text(*deletion) == chunk.text);
    if chunk.accepts(*insertion) {
        valid_utf8_split(chunk.text, at);
        assert(chunk.text.subrange(0, at) == head);
        assert(chunk.text.subrange(at, chunk.text.len() as int) == tail);
        encode_utf8_valid_utf8(text@);
        valid_utf8_concat(head, added);
        valid_utf8_concat(head + added, tail);
        assert(between.text.take(at) == head);
        assert(between.text.take(at + added.len()) == head + added);
        lemma_boundary_after_valid(between.text, at);
        lemma_boundary_after_valid(between.text, at + added.len());
        is_char_boundary_start_end_of_seq(between.text);
    }
}

/// After an update with an edit of the document, looking up a line gives the text of that line in
/// the edited document, if the source serves that.
pub proof fn line_lookup_after_update<DS: DataSource>(
    source: &DS,
    doc: Seq<u8>,
    chunk: Chunk,
    delta: &Delta,
    rev: u64,
    line: usize,
    after: Chunk,
    bytes: Seq<u8>,
)
    requires
        tracks(chunk, doc),
        edits(*delta, doc),
        delta.apply(doc).len() <= usize::MAX,
        serves(source, delta.apply(doc), rev),
        line_found(
            source,
            chunk.updated(
                delta.apply(doc).len() as int,
                line_breaks(delta.apply(doc)) + 1,
                rev,
                Some(delta),
            ),
            line,
            after,
            Ok(bytes),
        ),
    ensures
        bytes == line_text(delta.apply(doc), line as int),
{
    let updated = chunk.updated(
        delta.apply(doc).len() as int,
        line_breaks(delta.apply(doc)) + 1,
        rev,
        Some(delta),
    );
    update_tracks(chunk, doc, delta, rev);
    line_lookup_gives_line(source, delta.apply(doc), updated, line, after, Ok(bytes));
}

} // verus!
