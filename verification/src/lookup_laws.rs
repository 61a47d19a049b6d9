//! What a lookup gives, and what it may ask for: first by any source, then by one that serves the
//! document.

use crate::cache::ChunkCache;
use crate::chunk::{joined, Chunk};
use crate::document::{
    cached_offset_is_place_of_line, gives, lemma_cached_is_line_offset, lemma_no_line_past_end,
    lemma_tracks_in_range, refuses, serves, tracks,
};
use crate::laws::{
    held_line_needs_no_source, lemma_request_is_in_document, lemma_search_opens,
    lemma_search_tracks, line_lookup_gives_line, offset_lookup_gives_offset,
};
use crate::lookup::{
    asked_for, can_locate, can_search, line_ends, line_found, next_request, offset_found, opened,
    search_breaks_off, searched,
};
use crate::source::{may_answer, DataSource, Error, GetDataResponse, TextUnit};
use crate::text::{
    lemma_line_order, lemma_line_starts, lemma_split_lines, line_breaks, line_offset, line_starts,
    line_text,
};
use vstd::prelude::*;
use vstd::utf8::*;

verus! {

/// Whether the fields of `chunk` show that line `line` starts at its byte `o`: the chunk starts
/// with the line, or the line starts behind a line break of the chunk, or it is the one after the
/// last and the chunk reaches the end of the document.
pub open spec fn shows_line(chunk: Chunk, line: int, o: int) -> bool {
    let further = chunk.line_offsets.len();
    ||| line == chunk.first_line && chunk.first_line_offset == 0 && o == 0
    ||| chunk.first_line < line <= chunk.first_line + further && o
        == chunk.line_offsets[line - chunk.first_line - 1]
    ||| chunk.first_line + further < line && line == chunk.num_lines && chunk.offset
        + chunk.text.len() == chunk.buf_size && o == chunk.text.len()
}

/// A line has a cached offset just where the fields show it, and it is the one that they show.
pub proof fn cached_offset_is_shown(chunk: Chunk, line: int)
    ensures
        forall|o: int| chunk.cached_offset(line) == Some(o) <==> #[trigger] shows_line(
            chunk,
            line,
            o,
        ),
        chunk.cached_offset(line) matches Some(o) ==> shows_line(chunk, line, o),
{
}

/// A tracked chunk has no offset for a line past the one after the last.
pub proof fn no_offset_past_the_document(chunk: Chunk, doc: Seq<u8>, line: int)
    requires
        tracks(chunk, doc),
        line > line_breaks(doc) + 1,
    ensures
        chunk.cached_offset(line) is None,
{
    lemma_no_line_past_end(chunk, doc, line);
}

/// A cached offset lies in the chunk or at its end.
pub(crate) proof fn lemma_cached_in_text(chunk: Chunk, line: int)
    requires
        chunk.consistent(),
        chunk.cached_offset(line) is Some,
    ensures
        0 <= chunk.cached_offset(line)->0 <= chunk.text.len(),
{
    lemma_line_starts(chunk.text);
}

/// What a search starts from, whatever the source.
pub(crate) proof fn lemma_opened<DS: DataSource>(
    source: &DS,
    chunk: Chunk,
    line: usize,
    base: Chunk,
)
    requires
        chunk.consistent(),
        opened(source, chunk, line, base),
        base.cached_offset(line as int) is Some,
    ensures
        base.consistent(),
        base.rev == chunk.rev,
        base.buf_size == chunk.buf_size,
        base.num_lines == chunk.num_lines,
        0 <= base.cached_offset(line as int)->0 <= base.text.len(),
{
    lemma_cached_in_text(base, line as int);
}

/// A chunk that is cut at the start of a line starts with that line.
pub(crate) proof fn lemma_trimmed_shows(chunk: Chunk, line: int)
    requires
        chunk.consistent(),
        line != chunk.num_lines,
        chunk.cached_offset(line) is Some,
    ensures
        chunk.trimmed(chunk.cached_offset(line)->0).first_line == line,
        chunk.trimmed(chunk.cached_offset(line)->0).first_line_offset == 0,
{
    let o = chunk.cached_offset(line)->0;
    lemma_line_starts(chunk.text);
    if line == chunk.first_line {
        assert(chunk.text.take(0) == Seq::<u8>::empty());
    } else {
        let rel = line - chunk.first_line;
        let dropped = chunk.text.take(o);
        lemma_split_lines(chunk.text, o);
        lemma_line_starts(dropped);
        let k = line_breaks(dropped);
        assert(rel - 1 < k) by {
            if k <= rel - 1 {
                assert(line_starts(chunk.text)[rel - 1] > o);
            }
        }
        if rel < k {
            assert(line_starts(chunk.text)[rel] <= o);
        }
        assert(line_starts(chunk.text)[k - 1] == line_starts(dropped)[k - 1]);
    }
}

/// A lookup of a line past the one after the last is refused, whatever the source and the chunk.
pub proof fn line_past_the_document_is_refused<DS: DataSource>(
    source: &DS,
    chunk: Chunk,
    line: usize,
    after: Chunk,
    result: Result<Seq<u8>, Error>,
)
    requires
        line > chunk.num_lines,
        line_found(source, chunk, line, after, result),
    ensures
        result == Err::<Seq<u8>, Error>(Error::BadRequest),
        after == chunk,
{
}

/// A line whose start and whose end the chunk shows is given out of the chunk, whatever the
/// source, and the chunk stays as it is.
pub proof fn shown_line_is_given<DS: DataSource>(
    source: &DS,
    chunk: Chunk,
    line: usize,
    start: int,
    end: int,
    after: Chunk,
    result: Result<Seq<u8>, Error>,
)
    requires
        line <= chunk.num_lines,
        chunk.text.len() > 0,
        shows_line(chunk, line as int, start),
        shows_line(chunk, line + 1, end),
        line_found(source, chunk, line, after, result),
    ensures
        after == chunk,
        result == Ok::<Seq<u8>, Error>(chunk.text.subrange(start, end)),
{
    held_line_needs_no_source(source, chunk, line, after, result);
}

/// Whatever the source, a lookup of a line that the document can have fails only with the answer
/// to one of two requests: that for the line itself, where the chunk does not show its start, and
/// that for what follows the chunk as it is then left.
pub proof fn line_lookup_fails_by_the_source<DS: DataSource>(
    source: &DS,
    chunk: Chunk,
    line: usize,
    after: Chunk,
    e: Error,
)
    requires
        chunk.consistent(),
        line <= chunk.num_lines,
        line_found(source, chunk, line, after, Err(e)),
    ensures
        ({
            ||| {
                &&& after == chunk
                &&& chunk.text.len() == 0 || forall|o: int| !shows_line(chunk, line as int, o)
                &&& refuses(source, line, TextUnit::Line, chunk.rev, e)
            }
            ||| refuses(source, after.end() as usize, TextUnit::Utf8, chunk.rev, e)
        }),
{
    cached_offset_is_shown(chunk, line as int);
    if !(chunk.lacks_start(line as int) && may_answer(
        source,
        line,
        TextUnit::Line,
        chunk.rev,
        Err(e),
    ) && after == chunk) {
        let (base, answers) = choose|base: Chunk, answers: Seq<GetDataResponse>| #[trigger]
            searched(source, chunk, line, base, answers) && search_breaks_off(
                source,
                line,
                base,
                answers,
                after,
                e,
            );
        lemma_opened(source, chunk, line, base);
    }
}

/// Whatever the source, what a lookup gives is the text of the line as the chunk then shows it.
/// That chunk is the one from before, or what followed the start of the line in it with more
/// behind it, or what the source gave for the line, with more behind it.
pub proof fn line_lookup_gives_what_is_held<DS: DataSource>(
    source: &DS,
    chunk: Chunk,
    line: usize,
    after: Chunk,
    bytes: Seq<u8>,
)
    requires
        chunk.consistent(),
        line_found(source, chunk, line, after, Ok(bytes)),
    ensures
        line <= chunk.num_lines,
        after.consistent(),
        after.rev == chunk.rev,
        after.buf_size == chunk.buf_size,
        after.num_lines == chunk.num_lines,
        exists|start: int, end: int|
            0 <= start && 0 <= end <= after.text.len() && #[trigger] after.text.subrange(start, end)
                == bytes && shows_line(after, line + 1, end) && (shows_line(
                after,
                line as int,
                start,
            ) || line == chunk.num_lines),
        ({
            ||| after == chunk
            ||| exists|o: int| #[trigger]
                shows_line(chunk, line as int, o) && 0 <= o <= chunk.text.len() && after.offset
                    == chunk.offset + o && chunk.text.skip(o).is_prefix_of(after.text)
            ||| exists|data: GetDataResponse, o: int|
                #![trigger gives(source, line, TextUnit::Line, chunk.rev, data), encode_utf8(
                    data.chunk@,
                ).skip(o)]
                gives(source, line, TextUnit::Line, chunk.rev, data) && 0 <= o <= encode_utf8(
                    data.chunk@,
                ).len() && after.offset == data.offset + o && encode_utf8(
                    data.chunk@,
                ).skip(o).is_prefix_of(after.text)
        }),
{
    let (base, answers) = choose|base: Chunk, answers: Seq<GetDataResponse>| #[trigger]
        searched(source, chunk, line, base, answers) && line_ends(
            line,
            base,
            answers,
            after,
            bytes,
        );
    lemma_opened(source, chunk, line, base);
    let start = base.cached_offset(line as int)->0;
    let from = if answers.len() == 0 {
        start
    } else {
        0
    };
    let end = after.cached_offset(line + 1)->0;
    lemma_cached_in_text(after, line + 1);
    cached_offset_is_shown(after, line + 1);
    cached_offset_is_shown(base, line as int);
    assert(after.text.subrange(from, end) == bytes);
    if line < chunk.num_lines && answers.len() > 0 {
        lemma_trimmed_shows(base, line as int);
    }
    if chunk.lacks_start(line as int) {
        let data = choose|data: GetDataResponse|
            #![auto]
            may_answer(source, line, TextUnit::Line, chunk.rev, Ok(data)) && base == chunk.reset(
                data,
            );
        assert(gives(source, line, TextUnit::Line, chunk.rev, data));
        let given = encode_utf8(data.chunk@);
        let o = if answers.len() == 0 {
            0
        } else {
            start
        };
        assert(given.skip(0) == given);
        assert(given.skip(o).is_prefix_of(after.text));
    } else if answers.len() > 0 {
        assert(shows_line(chunk, line as int, start));
        assert(chunk.text.skip(start).is_prefix_of(after.text));
    }
}

/// Whether `held` is what `chunk` shows of line `line` and what follows it, and stands at `at` in
/// the document.
pub open spec fn held_from_line(chunk: Chunk, line: int, at: int, held: Seq<u8>) -> bool {
    exists|o: int|
        0 <= o <= chunk.text.len() && #[trigger] shows_line(chunk, line, o) && at == chunk.offset
            + o && held == chunk.text.subrange(o, chunk.text.len() as int)
}

/// Whether `held` is the end, from `at` in the document on, of what `source` can give for line
/// `line`.
pub open spec fn given_for_line<DS: DataSource>(
    source: &DS,
    rev: u64,
    line: usize,
    at: int,
    held: Seq<u8>,
) -> bool {
    exists|data: GetDataResponse| #[trigger]
        gives(source, line, TextUnit::Line, rev, data) && {
            let text = encode_utf8(data.chunk@);
            &&& data.offset <= at <= data.offset + text.len()
            &&& held == text.subrange(at - data.offset, text.len() as int)
        }
}

/// Whether `source` can give `answers` to requests that start at `at` and each go on where the
/// last answer ended.
pub open spec fn given_in_turn<DS: DataSource>(
    source: &DS,
    rev: u64,
    at: int,
    answers: Seq<GetDataResponse>,
) -> bool {
    forall|i: int|
        0 <= i < answers.len() ==> gives(
            source,
            (at + joined(answers.take(i)).len()) as usize,
            TextUnit::Utf8,
            rev,
            #[trigger] answers[i],
        )
}

/// The text of answers one after another is that of all but the last, and then that of the last.
pub proof fn answers_are_joined_in_order(answers: Seq<GetDataResponse>, more: GetDataResponse)
    ensures
        joined(Seq::<GetDataResponse>::empty()) == Seq::<u8>::empty(),
        joined(answers.push(more)) == joined(answers) + encode_utf8(more.chunk@),
{
    assert(answers.push(more).drop_last() == answers);
}

/// Whatever the source, the chunk that a lookup leaves is the one from before, or goes on from the
/// line with what the source gave in turn for what followed. It goes on from what the chunk held
/// where the chunk shows the start of the line and has any text, and from what the source gave for
/// the line where not; nothing is found then without that.
pub proof fn line_lookup_goes_on_from_the_line<DS: DataSource>(
    source: &DS,
    chunk: Chunk,
    line: usize,
    after: Chunk,
    result: Result<Seq<u8>, Error>,
)
    requires
        chunk.consistent(),
        line <= chunk.num_lines,
        line_found(source, chunk, line, after, result),
    ensures
        ({
            let shown = chunk.text.len() > 0 && exists|o: int| shows_line(chunk, line as int, o);
            ||| after == chunk && (shown || (result matches Err(e) && refuses(
                source,
                line,
                TextUnit::Line,
                chunk.rev,
                e,
            )))
            ||| exists|held: Seq<u8>, answers: Seq<GetDataResponse>|
                #![trigger given_in_turn(
                    source,
                    chunk.rev,
                    after.offset + held.len(),
                    answers,
                )]
                after.text == held + joined(answers) && given_in_turn(
                    source,
                    chunk.rev,
                    after.offset + held.len(),
                    answers,
                ) && if shown {
                    held_from_line(chunk, line as int, after.offset, held)
                } else {
                    given_for_line(source, chunk.rev, line, after.offset, held)
                }
        }),
        after.rev == chunk.rev,
        after.buf_size == chunk.buf_size,
        after.num_lines == chunk.num_lines,
        after.consistent(),
{
    let shown = chunk.text.len() > 0 && exists|o: int| shows_line(chunk, line as int, o);
    cached_offset_is_shown(chunk, line as int);
    assert(shown == !chunk.lacks_start(line as int)) by {
        if chunk.cached_offset(line as int) is Some {
            assert(shows_line(chunk, line as int, chunk.cached_offset(line as int)->0));
        }
    }
    match result {
        Ok(bytes) => {
            let (base, answers) = choose|base: Chunk, answers: Seq<GetDataResponse>| #[trigger]
                searched(source, chunk, line, base, answers) && line_ends(
                    line,
                    base,
                    answers,
                    after,
                    bytes,
                );
            lemma_goes_on(source, chunk, line, base, answers, after);
        },
        Err(e) => {
            if !(chunk.lacks_start(line as int) && may_answer(
                source,
                line,
                TextUnit::Line,
                chunk.rev,
                Err(e),
            ) && after == chunk) {
                let (base, answers) = choose|base: Chunk, answers: Seq<GetDataResponse>| #[trigger]
                    searched(source, chunk, line, base, answers) && search_breaks_off(
                        source,
                        line,
                        base,
                        answers,
                        after,
                        e,
                    );
                lemma_goes_on(source, chunk, line, base, answers, after);
            }
        },
    }
}

/// The text of a chunk with answers behind it, and where each of them was asked for.
pub(crate) proof fn lemma_goes_on<DS: DataSource>(
    source: &DS,
    chunk: Chunk,
    line: usize,
    base: Chunk,
    answers: Seq<GetDataResponse>,
    after: Chunk,
)
    requires
        chunk.consistent(),
        searched(source, chunk, line, base, answers),
        after == base.grown(base.cached_offset(line as int)->0, answers) || after == base.trimmed(
            base.cached_offset(line as int)->0,
        ).appended(joined(answers)),
    ensures
        after.rev == chunk.rev,
        after.buf_size == chunk.buf_size,
        after.num_lines == chunk.num_lines,
        after.consistent(),
        (after == chunk && !chunk.lacks_start(line as int)) || exists|
            held: Seq<u8>,
            answers: Seq<GetDataResponse>,
        |
            #![trigger given_in_turn(source, chunk.rev, after.offset + held.len(), answers)]
            after.text == held + joined(answers) && given_in_turn(
                source,
                chunk.rev,
                after.offset + held.len(),
                answers,
            ) && if !chunk.lacks_start(line as int) {
                held_from_line(chunk, line as int, after.offset, held)
            } else {
                given_for_line(source, chunk.rev, line, after.offset, held)
            },
{
    lemma_opened(source, chunk, line, base);
    cached_offset_is_shown(base, line as int);
    let start = base.cached_offset(line as int)->0;
    let whole = answers.len() == 0 && after == base;
    if !(whole && !chunk.lacks_start(line as int)) {
        let from = if whole {
            0
        } else {
            start
        };
        let held = base.text.skip(from);
        assert(held == base.text.subrange(from, base.text.len() as int));
        assert(after.offset == base.offset + from);
        assert(after.text == held + joined(answers));
        assert forall|i: int| 0 <= i < answers.len() implies gives(
            source,
            (after.offset + held.len() + joined(answers.take(i)).len()) as usize,
            TextUnit::Utf8,
            chunk.rev,
            #[trigger] answers[i],
        ) by {
            assert(after.offset + held.len() == base.end());
        }
        assert(given_in_turn(source, chunk.rev, after.offset + held.len(), answers));
        if chunk.lacks_start(line as int) {
            let data = choose|data: GetDataResponse|
                #![auto]
                may_answer(source, line, TextUnit::Line, chunk.rev, Ok(data)) && base
                    == chunk.reset(data);
            assert(gives(source, line, TextUnit::Line, chunk.rev, data));
            assert(given_for_line(source, chunk.rev, line, after.offset, held));
        } else {
            assert(shows_line(chunk, line as int, start));
            assert(held_from_line(chunk, line as int, after.offset, held));
        }
    }
}

/// Whatever the source, a line that the chunk shows whole, or that is past the document, can be
/// looked up, and so can the offset of a line whose start the chunk shows.
pub proof fn shown_line_can_be_looked_up<DS: DataSource>(
    source: &DS,
    chunk: Chunk,
    line: usize,
    start: int,
    end: int,
)
    requires
        line < usize::MAX,
        shows_line(chunk, line as int, start),
    ensures
        can_locate(source, chunk, line),
        chunk.text.len() > 0 && shows_line(chunk, line + 1, end) ==> can_search(
            source,
            chunk,
            line,
        ),
{
    cached_offset_is_shown(chunk, line as int);
    cached_offset_is_shown(chunk, line + 1);
    if chunk.text.len() > 0 && shows_line(chunk, line + 1, end) {
        assert forall|base: Chunk, answers: Seq<GetDataResponse>, more: GetDataResponse|
            !#[trigger] searched(source, chunk, line, base, answers.push(more)) by {
            let seen = answers.push(more);
            if searched(source, chunk, line, base, seen) {
                assert(asked_for(source, chunk, line, base, seen.take(0), seen[0]));
            }
        }
    }
}

/// A line past the one after the last can be looked up, in order to be refused.
pub proof fn line_past_the_document_can_be_looked_up<DS: DataSource>(
    source: &DS,
    chunk: Chunk,
    line: usize,
)
    requires
        line > chunk.num_lines,
    ensures
        can_search(source, chunk, line),
        can_locate(source, chunk, line),
{
}

/// A cache that tracks a document whose length fits in a machine word is well-formed.
pub proof fn tracking_cache_is_well_formed(cache: ChunkCache, doc: Seq<u8>)
    requires
        tracks(cache@, doc),
        doc.len() <= usize::MAX,
    ensures
        cache.well_formed(),
{
    lemma_tracks_in_range(cache@, doc);
}

/// A line that lies whole in a chunk of the document is given out of the chunk, whatever the
/// source, and the chunk stays as it is.
pub proof fn held_line_is_given<DS: DataSource>(
    source: &DS,
    doc: Seq<u8>,
    chunk: Chunk,
    line: usize,
    after: Chunk,
    result: Result<Seq<u8>, Error>,
)
    requires
        tracks(chunk, doc),
        line <= line_breaks(doc),
        chunk.text.len() > 0,
        chunk.offset <= line_offset(doc, line as int),
        line_offset(doc, line + 1) <= chunk.end(),
        line_found(source, chunk, line, after, result),
    ensures
        after == chunk,
        result == Ok::<Seq<u8>, Error>(line_text(doc, line as int)),
{
    lemma_line_order(doc, line as int);
    cached_offset_is_place_of_line(chunk, doc, line as int);
    cached_offset_is_place_of_line(chunk, doc, line + 1);
    held_line_needs_no_source(source, chunk, line, after, result);
    let start = line_offset(doc, line as int) - chunk.offset;
    let end = line_offset(doc, line + 1) - chunk.offset;
    assert(chunk.text.subrange(start, end) == line_text(doc, line as int));
}

/// By a source that serves the document, a lookup of a line fails only with the answer to one of
/// two requests: that for the line itself, where the chunk does not hold its start, and that for
/// the first byte after what is held of the line, which is not all of it.
pub proof fn line_lookup_fails_where_the_line_is_missing<DS: DataSource>(
    source: &DS,
    doc: Seq<u8>,
    chunk: Chunk,
    line: usize,
    after: Chunk,
    e: Error,
)
    requires
        valid_utf8(doc),
        doc.len() <= usize::MAX,
        tracks(chunk, doc),
        serves(source, doc, chunk.rev),
        line <= line_breaks(doc) + 1,
        line_found(source, chunk, line, after, Err(e)),
    ensures
        ({
            ||| {
                &&& refuses(source, line, TextUnit::Line, chunk.rev, e)
                &&& after == chunk
                &&& chunk.text.len() == 0 || !(chunk.offset <= line_offset(doc, line as int)
                    <= chunk.end())
            }
            ||| {
                &&& refuses(source, after.end() as usize, TextUnit::Utf8, chunk.rev, e)
                &&& chunk.text.len() > 0 && chunk.offset <= line_offset(doc, line as int)
                    <= chunk.end() || exists|data: GetDataResponse| #[trigger]
                    gives(source, line, TextUnit::Line, chunk.rev, data)
                &&& after.offset == line_offset(doc, line as int)
                &&& after.end() <= doc.len()
                &&& line <= line_breaks(doc) ==> after.end() < doc.len()
                &&& forall|p: int| after.offset <= p < after.end() ==> doc[p] != 0x0a
            }
        }),
{
    cached_offset_is_place_of_line(chunk, doc, line as int);
    if !(chunk.lacks_start(line as int) && may_answer(
        source,
        line,
        TextUnit::Line,
        chunk.rev,
        Err(e),
    ) && after == chunk) {
        let (base, answers) = choose|base: Chunk, answers: Seq<GetDataResponse>| #[trigger]
            searched(source, chunk, line, base, answers) && search_breaks_off(
                source,
                line,
                base,
                answers,
                after,
                e,
            );
        let start = base.cached_offset(line as int)->0;
        lemma_search_opens(source, doc, chunk, line, base);
        lemma_search_tracks(source, doc, chunk, line, base, answers);
        lemma_request_is_in_document(source, doc, chunk, line, base, answers);
        assert(after.end() == next_request(base, answers));
        if chunk.lacks_start(line as int) {
            let data = choose|data: GetDataResponse|
                #![auto]
                may_answer(source, line, TextUnit::Line, chunk.rev, Ok(data)) && base
                    == chunk.reset(data);
            assert(gives(source, line, TextUnit::Line, chunk.rev, data));
        }
        lemma_no_line_break_yet(doc, line as int, after, base.grown(start, answers));
    }
}

/// A chunk that starts with a line and ends no later than another that lacks the next line holds
/// no line break.
pub(crate) proof fn lemma_no_line_break_yet(doc: Seq<u8>, line: int, after: Chunk, held: Chunk)
    requires
        valid_utf8(doc),
        tracks(after, doc),
        tracks(held, doc),
        0 <= line <= line_breaks(doc) + 1,
        after.offset == line_offset(doc, line),
        after.end() == held.end(),
        held.offset <= after.offset,
        held.cached_offset(line + 1) is None,
    ensures
        forall|p: int| after.offset <= p < after.end() ==> doc[p] != 0x0a,
{
    if line <= line_breaks(doc) {
        lemma_line_order(doc, line);
        cached_offset_is_place_of_line(held, doc, line + 1);
        lemma_line_starts(doc);
        assert forall|p: int| after.offset <= p < after.end() implies doc[p] != 0x0a by {
            if doc[p] == 0x0a {
                assert(line_starts(doc).contains(p + 1));
                let k = choose|k: int|
                    0 <= k < line_starts(doc).len() && line_starts(doc)[k] == p + 1;
                if k < line {
                    assert(line_starts(doc)[k] <= line_starts(doc)[line - 1]);
                } else {
                    assert(line_starts(doc)[line] <= line_starts(doc)[k]);
                }
            }
        }
    }
}

/// By a source that serves the document, and that answers the request for the line and every
/// request for a place in the document, a lookup of a line of the document gives its text.
pub proof fn line_lookup_succeeds<DS: DataSource>(
    source: &DS,
    doc: Seq<u8>,
    chunk: Chunk,
    line: usize,
    after: Chunk,
    result: Result<Seq<u8>, Error>,
)
    requires
        valid_utf8(doc),
        doc.len() <= usize::MAX,
        tracks(chunk, doc),
        serves(source, doc, chunk.rev),
        line <= line_breaks(doc),
        forall|e: Error| !#[trigger] refuses(source, line, TextUnit::Line, chunk.rev, e),
        forall|at: usize, e: Error|
            at < doc.len() ==> !#[trigger] refuses(source, at, TextUnit::Utf8, chunk.rev, e),
        line_found(source, chunk, line, after, result),
    ensures
        result == Ok::<Seq<u8>, Error>(line_text(doc, line as int)),
{
    line_lookup_gives_line(source, doc, chunk, line, after, result);
    match result {
        Ok(_) => {},
        Err(e) => {
            line_lookup_fails_where_the_line_is_missing(source, doc, chunk, line, after, e);
        },
    }
}

/// By a source that serves the document, a lookup leaves a chunk of the same document, revision
/// and size: the one from before, or one that starts with the line and, where the line started in
/// the chunk, reaches no less far. Where it gives the line, the chunk holds it whole.
pub proof fn line_lookup_leaves<DS: DataSource>(
    source: &DS,
    doc: Seq<u8>,
    chunk: Chunk,
    line: usize,
    after: Chunk,
    result: Result<Seq<u8>, Error>,
)
    requires
        valid_utf8(doc),
        doc.len() <= usize::MAX,
        tracks(chunk, doc),
        serves(source, doc, chunk.rev),
        line <= line_breaks(doc) + 1,
        line_found(source, chunk, line, after, result),
    ensures
        tracks(after, doc),
        after.rev == chunk.rev,
        after == chunk || after.offset == line_offset(doc, line as int),
        chunk.text.len() > 0 && chunk.offset <= line_offset(doc, line as int) <= chunk.end()
            ==> after.end() >= chunk.end(),
        result is Ok ==> after.offset <= line_offset(doc, line as int) && line_offset(doc, line + 1)
            <= after.end(),
{
    line_lookup_gives_line(source, doc, chunk, line, after, result);
    cached_offset_is_place_of_line(chunk, doc, line as int);
    match result {
        Ok(bytes) => {
            let (base, answers) = choose|base: Chunk, answers: Seq<GetDataResponse>| #[trigger]
                searched(source, chunk, line, base, answers) && line_ends(
                    line,
                    base,
                    answers,
                    after,
                    bytes,
                );
            lemma_search_opens(source, doc, chunk, line, base);
            lemma_cached_is_line_offset(after, doc, line + 1);
            lemma_cached_in_text(after, line + 1);
            if chunk.lacks_start(line as int) {
                lemma_opens_with_line(source, doc, chunk, line, base);
            }
        },
        Err(e) => {
            if !(chunk.lacks_start(line as int) && may_answer(
                source,
                line,
                TextUnit::Line,
                chunk.rev,
                Err(e),
            ) && after == chunk) {
                let (base, answers) = choose|base: Chunk, answers: Seq<GetDataResponse>| #[trigger]
                    searched(source, chunk, line, base, answers) && search_breaks_off(
                        source,
                        line,
                        base,
                        answers,
                        after,
                        e,
                    );
                lemma_search_opens(source, doc, chunk, line, base);
            }
        },
    }
}

/// What a source that serves the document gives for a line starts with the line.
pub(crate) proof fn lemma_opens_with_line<DS: DataSource>(
    source: &DS,
    doc: Seq<u8>,
    chunk: Chunk,
    line: usize,
    base: Chunk,
)
    requires
        serves(source, doc, chunk.rev),
        opened(source, chunk, line, base),
        chunk.lacks_start(line as int),
    ensures
        base.offset == line_offset(doc, line as int),
{
    let data = choose|data: GetDataResponse|
        #![auto]
        may_answer(source, line, TextUnit::Line, chunk.rev, Ok(data)) && base == chunk.reset(data);
    assert(gives(source, line, TextUnit::Line, chunk.rev, data));
}

/// A line that was given is given again out of the chunk, whatever the source may have become,
/// unless there was no text to hold.
pub proof fn given_line_is_given_again<DS: DataSource>(
    source: &DS,
    doc: Seq<u8>,
    chunk: Chunk,
    line: usize,
    between: Chunk,
    bytes: Seq<u8>,
    later: &DS,
    after: Chunk,
    result: Result<Seq<u8>, Error>,
)
    requires
        valid_utf8(doc),
        doc.len() <= usize::MAX,
        tracks(chunk, doc),
        serves(source, doc, chunk.rev),
        line_found(source, chunk, line, between, Ok(bytes)),
        between.text.len() > 0,
        line_found(later, between, line, after, result),
    ensures
        result == Ok::<Seq<u8>, Error>(bytes),
        after == between,
{
    line_lookup_gives_line(source, doc, chunk, line, between, Ok(bytes));
    line_lookup_leaves(source, doc, chunk, line, between, Ok(bytes));
    held_line_is_given(later, doc, between, line, after, result);
}

/// A lookup of the offset of a line past the one after the last is refused, whatever the source
/// and the chunk.
pub proof fn offset_past_the_document_is_refused<DS: DataSource>(
    source: &DS,
    chunk: Chunk,
    line: usize,
    after: Chunk,
    result: Result<usize, Error>,
)
    requires
        line > chunk.num_lines,
        offset_found(source, chunk, line, after, result),
    ensures
        result == Err::<usize, Error>(Error::BadRequest),
        after == chunk,
{
}

/// The offset of a line whose start the chunk shows is that of the chunk and the place in it,
/// whatever the source, and the chunk stays as it is.
pub proof fn shown_offset_is_given<DS: DataSource>(
    source: &DS,
    chunk: Chunk,
    line: usize,
    o: int,
    after: Chunk,
    result: Result<usize, Error>,
)
    requires
        line <= chunk.num_lines,
        shows_line(chunk, line as int, o),
        offset_found(source, chunk, line, after, result),
    ensures
        after == chunk,
        result matches Ok(offset) && offset == chunk.offset + o,
{
    cached_offset_is_shown(chunk, line as int);
}

/// The offset of a line that starts in a chunk of the document or at its end is given without the
/// source, and the chunk stays as it is.
pub proof fn held_offset_is_given<DS: DataSource>(
    source: &DS,
    doc: Seq<u8>,
    chunk: Chunk,
    line: usize,
    after: Chunk,
    result: Result<usize, Error>,
)
    requires
        tracks(chunk, doc),
        line <= line_breaks(doc) + 1,
        chunk.offset <= line_offset(doc, line as int) <= chunk.end(),
        offset_found(source, chunk, line, after, result),
    ensures
        after == chunk,
        result matches Ok(offset) && offset == line_offset(doc, line as int),
{
    cached_offset_is_place_of_line(chunk, doc, line as int);
}

/// Whatever the source, a lookup of the offset of a line that the document can have, whose start
/// the chunk does not show, gives the place of the line in what the source gives for the line, or
/// the error that the source answers, and the chunk is then what the source gave, or as it was.
pub proof fn missing_offset_is_fetched<DS: DataSource>(
    source: &DS,
    chunk: Chunk,
    line: usize,
    after: Chunk,
    result: Result<usize, Error>,
)
    requires
        line <= chunk.num_lines,
        forall|o: int| !shows_line(chunk, line as int, o),
        offset_found(source, chunk, line, after, result),
    ensures
        match result {
            Ok(offset) => {
                &&& after.rev == chunk.rev
                &&& after.buf_size == chunk.buf_size
                &&& after.num_lines == chunk.num_lines
                &&& shows_line(after, line as int, offset - after.offset)
                &&& exists|data: GetDataResponse| #[trigger]
                    gives(source, line, TextUnit::Line, chunk.rev, data) && after.offset
                        == data.offset && after.text == encode_utf8(data.chunk@)
                        && after.first_line == data.first_line && after.first_line_offset
                        == data.first_line_offset
            },
            Err(e) => refuses(source, line, TextUnit::Line, chunk.rev, e) && after == chunk,
        },
{
    cached_offset_is_shown(chunk, line as int);
    if chunk.cached_offset(line as int) is Some {
        assert(shows_line(chunk, line as int, chunk.cached_offset(line as int)->0));
    }
    if result is Ok {
        let data = choose|data: GetDataResponse| #[trigger]
            may_answer(source, line, TextUnit::Line, chunk.rev, Ok(data)) && after == chunk.reset(
                data,
            );
        assert(gives(source, line, TextUnit::Line, chunk.rev, data));
        cached_offset_is_shown(after, line as int);
    }
}

/// By a source that serves the document, a lookup of the offset of a line fails only with the
/// answer to the request for the line, and only where the line does not start in the chunk; if
/// the source answers that request, the lookup gives the offset of the line in the document. The
/// chunk is then as it was, or starts with the line.
pub proof fn offset_lookup_succeeds<DS: DataSource>(
    source: &DS,
    doc: Seq<u8>,
    chunk: Chunk,
    line: usize,
    after: Chunk,
    result: Result<usize, Error>,
)
    requires
        valid_utf8(doc),
        doc.len() <= usize::MAX,
        tracks(chunk, doc),
        serves(source, doc, chunk.rev),
        line <= line_breaks(doc) + 1,
        offset_found(source, chunk, line, after, result),
    ensures
        tracks(after, doc),
        after.rev == chunk.rev,
        after == chunk || after.offset == line_offset(doc, line as int),
        match result {
            Ok(offset) => offset == line_offset(doc, line as int),
            Err(e) => {
                &&& refuses(source, line, TextUnit::Line, chunk.rev, e)
                &&& after == chunk
                &&& !(chunk.offset <= line_offset(doc, line as int) <= chunk.end())
            },
        },
{
    offset_lookup_gives_offset(source, doc, chunk, line, after, result);
    cached_offset_is_place_of_line(chunk, doc, line as int);
    if result is Ok && chunk.cached_offset(line as int) is None {
        let data = choose|data: GetDataResponse| #[trigger]
            may_answer(source, line, TextUnit::Line, chunk.rev, Ok(data)) && after == chunk.reset(
                data,
            );
        assert(gives(source, line, TextUnit::Line, chunk.rev, data));
    }
}

/// Where a lookup gives a line and another the offset of the same line, the line stands at that
/// offset in the document.
pub proof fn line_stands_at_its_offset<DS: DataSource>(
    source: &DS,
    doc: Seq<u8>,
    chunk: Chunk,
    line: usize,
    between: Chunk,
    bytes: Seq<u8>,
    after: Chunk,
    offset: usize,
)
    requires
        valid_utf8(doc),
        doc.len() <= usize::MAX,
        tracks(chunk, doc),
        serves(source, doc, chunk.rev),
        line_found(source, chunk, line, between, Ok(bytes)),
        offset_found(source, between, line, after, Ok(offset)),
    ensures
        offset + bytes.len() <= doc.len(),
        bytes == doc.subrange(offset as int, offset + bytes.len()),
        after == between,
{
    line_lookup_gives_line(source, doc, chunk, line, between, Ok(bytes));
    line_lookup_leaves(source, doc, chunk, line, between, Ok(bytes));
    lemma_line_order(doc, line as int);
    held_offset_is_given(source, doc, between, line, after, Ok(offset));
}

} // verus!
