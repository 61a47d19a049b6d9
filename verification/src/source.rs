//! Where a cache gets the text that it does not hold.

use vstd::prelude::*;

verus! {

/// The unit in which a position in a document is given.
#[derive(Debug, Clone, Copy, PartialEq, Eq)]
pub enum TextUnit {
    /// A byte offset.
    Utf8,
    /// A line number, counted from zero.
    Line,
}

/// Why a request was not answered.
#[derive(Debug, Clone)]
pub enum Error {
    /// The request is for something that the document does not have.
    BadRequest,
    /// The source failed, for the reason given.
    Other(String),
}

/// A piece of a document.
#[derive(Debug, Clone)]
pub struct GetDataResponse {
    /// The text.
    pub chunk: String,
    /// The byte offset of the text in the document.
    pub offset: usize,
    /// The number of the line in which the text starts, counted from zero.
    pub first_line: usize,
    /// The byte offset of the text from the start of that line.
    pub first_line_offset: usize,
}

/// Something that hands out pieces of a document.
pub trait DataSource {
    /// A piece of at most `max_size` bytes of revision `rev` of the document, from position
    /// `start` in `unit` on.
    fn get_data(&self, start: usize, unit: TextUnit, max_size: usize, rev: u64) -> Result<
        GetDataResponse,
        Error,
    >;
}

/// The number of bytes that a cache asks for at a time.
pub const CHUNK_SIZE: usize = 1024 * 1024;

/// Whether `source` can give `answer` to a cache that asks for revision `rev` of the document
/// from position `start` in `unit` on.
pub open spec fn may_answer<DS: DataSource>(
    source: &DS,
    start: usize,
    unit: TextUnit,
    rev: u64,
    answer: Result<GetDataResponse, Error>,
) -> bool {
    call_ensures(DS::get_data, (source, start, unit, CHUNK_SIZE, rev), answer)
}

} // verus!
