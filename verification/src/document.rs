//! A cache and the document that it tracks.

use crate::chunk::Chunk;
use crate::encoding::{
    lemma_boundary_after_newline, lemma_boundary_after_valid, lemma_boundary_in_longer,
    lemma_boundary_in_prefix, lemma_boundary_in_range, lemma_boundary_in_suffix,
};
use crate::source::{DataSource, Error, GetDataResponse, TextUnit};
use crate::text::{
    column, lemma_column_bound, lemma_column_concat, lemma_line_starts, lemma_split_lines,
    line_breaks, line_offset, line_starts,
};
use vstd::prelude::*;
use vstd::utf8::*;

verus! {

/// Whether `chunk` is a piece of the document `doc`, at its place in it.
pub open spec fn tracks(chunk: Chunk, doc: Seq<u8>) -> bool {
    &&& chunk.consistent()
    &&& 0 <= chunk.offset
    &&& chunk.end() <= doc.len()
    &&& is_char_boundary(doc, chunk.offset)
    &&& chunk.text == doc.subrange(chunk.offset, chunk.end())
    &&& valid_utf8(chunk.text)
    &&& chunk.first_line == line_breaks(doc.take(chunk.offset))
    &&& chunk.first_line_offset == column(doc.take(chunk.offset))
    &&& chunk.buf_size == doc.len()
    &&& chunk.num_lines == line_breaks(doc) + 1
}

/// Whether `data` is a piece of the document `doc` from position `start` in `unit` on, at its
/// place in it; some text of it, unless the document ends there.
pub open spec fn is_piece(doc: Seq<u8>, start: int, unit: TextUnit, data: GetDataResponse) -> bool {
    let offset = data.offset as int;
    let bytes = encode_utf8(data.chunk@);
    &&& match unit {
        TextUnit::Line => offset == line_offset(doc, start),
        TextUnit::Utf8 => is_char_boundary(doc, start) ==> offset == start,
    }
    &&& offset + bytes.len() <= doc.len()
    &&& bytes == doc.subrange(offset, offset + bytes.len())
    &&& data.first_line == line_breaks(doc.take(offset))
    &&& data.first_line_offset == column(doc.take(offset))
    &&& offset < doc.len() ==> bytes.len() > 0
}

/// Whether all that `source` hands out for revision `rev` is out of the document `doc`. It is
/// asked for up to a mebibyte at a time.
pub open spec fn serves<DS: DataSource>(source: &DS, doc: Seq<u8>, rev: u64) -> bool {
    forall|start: usize, unit: TextUnit, data: GetDataResponse|
        #![trigger call_ensures(DS::get_data, (source, start, unit, 0x10_0000usize, rev), Ok(data))]
        call_ensures(DS::get_data, (source, start, unit, 0x10_0000usize, rev), Ok(data))
            ==> is_piece(doc, start as int, unit, data)
}

/// Whether `source` can answer with the error `e` to a request for up to a mebibyte of revision
/// `rev` from position `start` in `unit` on.
pub open spec fn refuses<DS: DataSource>(
    source: &DS,
    start: usize,
    unit: TextUnit,
    rev: u64,
    e: Error,
) -> bool {
    call_ensures(DS::get_data, (source, start, unit, 0x10_0000usize, rev), Err(e))
}

/// Whether `source` can answer with `data` to a request for up to a mebibyte of revision `rev`
/// from position `start` in `unit` on.
pub open spec fn gives<DS: DataSource>(
    source: &DS,
    start: usize,
    unit: TextUnit,
    rev: u64,
    data: GetDataResponse,
) -> bool {
    call_ensures(DS::get_data, (source, start, unit, 0x10_0000usize, rev), Ok(data))
}

/// What lies before the start of a line: as many line breaks as its number, and nothing after
/// the last of them.
pub(crate) proof fn lemma_line_offset(doc: Seq<u8>, line: int)
    requires
        valid_utf8(doc),
        0 <= line <= line_breaks(doc) + 1,
    ensures
        0 <= line_offset(doc, line) <= doc.len(),
        is_char_boundary(doc, line_offset(doc, line)),
        line <= line_breaks(doc) ==> line_breaks(doc.take(line_offset(doc, line))) == line
            && column(doc.take(line_offset(doc, line))) == 0,
{
    lemma_line_starts(doc);
    is_char_boundary_start_end_of_seq(doc);
    let at = line_offset(doc, line);
    if 0 < line <= line_breaks(doc) {
        assert(at == line_starts(doc)[line - 1]);
        lemma_boundary_after_newline(doc, at - 1);
        lemma_split_lines(doc, at);
        let k = line_breaks(doc.take(at));
        assert(line - 1 < k);
        if line < k {
            assert(line_starts(doc)[line] <= at);
        }
        assert(line_starts(doc)[k - 1] == line_starts(doc.take(at))[k - 1]);
    } else if line == 0 {
        lemma_column_bound(doc.take(0));
    } else {
        assert(doc.take(at) == doc);
    }
}

/// A tracked chunk of a document whose length fits in a machine word is in range.
pub(crate) proof fn lemma_tracks_in_range(chunk: Chunk, doc: Seq<u8>)
    requires
        tracks(chunk, doc),
        doc.len() <= usize::MAX,
    ensures
        chunk.in_range(),
{
    lemma_column_bound(doc.take(chunk.offset));
    lemma_column_bound(chunk.text);
}

/// The end of a tracked chunk is a character boundary of the document.
pub(crate) proof fn lemma_tracks_end(chunk: Chunk, doc: Seq<u8>)
    requires
        tracks(chunk, doc),
        valid_utf8(doc),
    ensures
        is_char_boundary(doc, chunk.end()),
{
    lemma_boundary_in_suffix(doc, chunk.offset, chunk.text.len() as int);
    let suffix = doc.skip(chunk.offset);
    assert(suffix.take(chunk.text.len() as int) == chunk.text);
    lemma_boundary_after_valid(suffix, chunk.text.len() as int);
}

/// A character boundary of the document is one of a tracked chunk, where it lies in the chunk.
pub(crate) proof fn lemma_boundary_in_chunk(chunk: Chunk, doc: Seq<u8>, pos: int)
    requires
        tracks(chunk, doc),
        valid_utf8(doc),
        is_char_boundary(doc, pos),
    ensures
        0 <= chunk.within(pos) <= chunk.text.len(),
        is_char_boundary(chunk.text, chunk.within(pos)),
{
    is_char_boundary_start_end_of_seq(chunk.text);
    if chunk.offset <= pos <= chunk.end() {
        let suffix = doc.skip(chunk.offset);
        lemma_tracks_end(chunk, doc);
        lemma_boundary_in_suffix(doc, chunk.offset, pos - chunk.offset);
        lemma_boundary_in_suffix(doc, chunk.offset, chunk.text.len() as int);
        lemma_boundary_in_prefix(suffix, pos - chunk.offset, chunk.text.len() as int);
        assert(suffix.take(chunk.text.len() as int) == chunk.text);
    }
}

/// The offset that a tracked chunk gives for a line is that of the line in the document.
pub(crate) proof fn lemma_cached_is_line_offset(chunk: Chunk, doc: Seq<u8>, line: int)
    requires
        tracks(chunk, doc),
        0 <= line,
        chunk.cached_offset(line) is Some,
    ensures
        chunk.offset + chunk.cached_offset(line)->0 == line_offset(doc, line),
{
    let before = doc.take(chunk.offset);
    let later = doc.skip(chunk.offset);
    lemma_split_lines(doc, chunk.offset);
    lemma_split_lines(later, chunk.text.len() as int);
    assert(later.take(chunk.text.len() as int) == chunk.text);
    lemma_line_starts(before);
    let rel = line - chunk.first_line;
    if rel == 0 {
        if line > 0 {
            assert(line_starts(doc)[line - 1] == line_starts(before)[line - 1]);
        }
    } else if rel <= chunk.line_offsets.len() {
        assert(line_starts(doc)[line - 1] == line_starts(later)[rel - 1] + chunk.offset);
        assert(line_starts(later)[rel - 1] == chunk.line_offsets[rel - 1]);
    }
}

/// A chunk that reaches the end of the document holds the start of every line past its first
/// one, and of the end of the document after the last line.
pub(crate) proof fn lemma_end_is_cached(chunk: Chunk, doc: Seq<u8>, line: int)
    requires
        tracks(chunk, doc),
        chunk.first_line < line <= chunk.num_lines,
        chunk.end() == doc.len(),
    ensures
        chunk.cached_offset(line) is Some,
{
    lemma_split_lines(doc, chunk.offset);
    assert(doc.skip(chunk.offset) == chunk.text);
}

/// A tracked chunk gives an offset for a line just where the start of the line lies in the chunk
/// or at its end, and it gives the place of that start.
pub proof fn cached_offset_is_place_of_line(chunk: Chunk, doc: Seq<u8>, line: int)
    requires
        tracks(chunk, doc),
        0 <= line <= chunk.num_lines,
    ensures
        chunk.cached_offset(line) is Some <==> chunk.offset <= line_offset(doc, line)
            <= chunk.end(),
        chunk.cached_offset(line) matches Some(o) ==> chunk.offset + o == line_offset(doc, line),
{
    let before = doc.take(chunk.offset);
    let later = doc.skip(chunk.offset);
    let at = line_offset(doc, line);
    if chunk.cached_offset(line) is Some {
        lemma_cached_is_line_offset(chunk, doc, line);
        chunk.lemma_cached_boundary(line);
    } else if chunk.offset <= at <= chunk.end() {
        lemma_split_lines(doc, chunk.offset);
        lemma_split_lines(later, chunk.text.len() as int);
        assert(later.take(chunk.text.len() as int) == chunk.text);
        lemma_line_starts(before);
        if line == 0 {
            assert(before == Seq::<u8>::empty());
        } else if line <= line_breaks(doc) {
            assert(at == line_starts(doc)[line - 1]);
            if line <= chunk.first_line {
                assert(at == line_starts(before)[line - 1]);
                assert(line == chunk.first_line) by {
                    if line < chunk.first_line {
                        assert(line_starts(before)[line - 1] < line_starts(before)[line]);
                    }
                }
            } else {
                assert(at == line_starts(later)[line - chunk.first_line - 1] + chunk.offset);
            }
        } else {
            lemma_end_is_cached(chunk, doc, line);
        }
    }
}

/// A tracked chunk holds the start of no line past the one after the last.
pub(crate) proof fn lemma_no_line_past_end(chunk: Chunk, doc: Seq<u8>, line: int)
    requires
        tracks(chunk, doc),
        line > chunk.num_lines,
    ensures
        chunk.cached_offset(line) is None,
{
    lemma_split_lines(doc, chunk.offset);
    let later = doc.skip(chunk.offset);
    lemma_split_lines(later, chunk.text.len() as int);
    assert(later.take(chunk.text.len() as int) == chunk.text);
}

/// Clearing a chunk leaves a piece of every document of the size and line count that the chunk
/// knows: an empty one at its start.
pub proof fn clearing_tracks(chunk: Chunk, doc: Seq<u8>)
    requires
        valid_utf8(doc),
        chunk.buf_size == doc.len(),
        chunk.num_lines == line_breaks(doc) + 1,
    ensures
        tracks(chunk.cleared(), doc),
{
    is_char_boundary_start_end_of_seq(doc);
    assert(doc.take(0) == Seq::<u8>::empty());
}

/// A chunk that is reset with a piece of the document tracks the document.
pub proof fn resetting_tracks(
    chunk: Chunk,
    doc: Seq<u8>,
    start: int,
    unit: TextUnit,
    data: GetDataResponse,
)
    requires
        valid_utf8(doc),
        chunk.buf_size == doc.len(),
        chunk.num_lines == line_breaks(doc) + 1,
        is_piece(doc, start, unit, data),
        is_char_boundary(doc, data.offset as int),
    ensures
        tracks(chunk.reset(data), doc),
{
    encode_utf8_valid_utf8(data.chunk@);
}

/// A chunk that is extended with the text that follows it in the document still tracks the
/// document.
pub proof fn appending_tracks(chunk: Chunk, doc: Seq<u8>, more: Seq<u8>)
    requires
        tracks(chunk, doc),
        valid_utf8(more),
        chunk.end() + more.len() <= doc.len(),
        more == doc.subrange(chunk.end(), chunk.end() + more.len()),
    ensures
        tracks(chunk.appended(more), doc),
{
    valid_utf8_concat(chunk.text, more);
    assert(chunk.text + more == doc.subrange(chunk.offset, chunk.end() + more.len()));
}

/// A chunk whose first bytes are discarded still tracks the document.
pub proof fn trimming_tracks(chunk: Chunk, doc: Seq<u8>, n: int)
    requires
        tracks(chunk, doc),
        valid_utf8(doc),
        is_char_boundary(chunk.text, n),
    ensures
        tracks(chunk.trimmed(n), doc),
{
    lemma_boundary_in_range(chunk.text, n);
    let dropped = chunk.text.take(n);
    let before = doc.take(chunk.offset);
    assert(before + dropped == doc.take(chunk.offset + n));
    lemma_column_concat(before, dropped);
    assert(chunk.text.skip(n) == doc.subrange(chunk.offset + n, chunk.end()));
    assert(chunk.text.skip(n) == chunk.text.subrange(n, chunk.text.len() as int));
    valid_utf8_split(chunk.text, n);
    // the cut is a character boundary of the document
    lemma_boundary_in_suffix(doc, chunk.offset, n);
    let suffix = doc.skip(chunk.offset);
    assert(suffix.take(chunk.text.len() as int) == chunk.text);
    lemma_boundary_in_longer(chunk.text, suffix, n);
}

/// Discarding bytes twice is discarding them at once.
pub proof fn trimming_adds_up(chunk: Chunk, m: int, n: int)
    requires
        chunk.consistent(),
        0 <= m,
        0 <= n,
        m + n <= chunk.text.len(),
    ensures
        chunk.trimmed(m).trimmed(n) == chunk.trimmed(m + n),
{
    let first = chunk.text.take(m);
    let second = chunk.text.skip(m).take(n);
    assert(first + second == chunk.text.take(m + n));
    lemma_column_concat(first, second);
    assert(chunk.text.skip(m).skip(n) == chunk.text.skip(m + n));
}

} // verus!
