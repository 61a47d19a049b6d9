//! What a cache asks of its source to find a line, and what comes of the answers.

use crate::chunk::{joined, Chunk};
use crate::source::{may_answer, DataSource, Error, GetDataResponse, TextUnit};
use vstd::prelude::*;
use vstd::utf8::*;

verus! {

/// The chunk that is searched for the end of line `line`: `chunk` itself, or what `source` gave
/// in its place where it lacks the start of the line.
pub open spec fn opened<DS: DataSource>(
    source: &DS,
    chunk: Chunk,
    line: usize,
    base: Chunk,
) -> bool {
    if chunk.lacks_start(line as int) {
        exists|data: GetDataResponse|
            #![auto]
            may_answer(source, line, TextUnit::Line, chunk.rev, Ok(data)) && base == chunk.reset(
                data,
            )
    } else {
        base == chunk
    }
}

/// The position that is asked for after `answers` to requests that began at the end of `base`.
pub open spec fn next_request(base: Chunk, answers: Seq<GetDataResponse>) -> usize {
    (base.end() + joined(answers).len()) as usize
}

/// Whether after `answers` the end of line `line` is still missing, and `next` is what `source`
/// can then give.
pub open spec fn asked_for<DS: DataSource>(
    source: &DS,
    chunk: Chunk,
    line: usize,
    base: Chunk,
    answers: Seq<GetDataResponse>,
    next: GetDataResponse,
) -> bool {
    &&& base.grown(base.cached_offset(line as int)->0, answers).cached_offset(line + 1) is None
    &&& may_answer(source, next_request(base, answers), TextUnit::Utf8, chunk.rev, Ok(next))
}

/// Whether the search for line `line` can start from `base` and get `answers` in turn, each to a
/// request for what follows the text so far, because that text does not hold the end of the line.
pub open spec fn searched<DS: DataSource>(
    source: &DS,
    chunk: Chunk,
    line: usize,
    base: Chunk,
    answers: Seq<GetDataResponse>,
) -> bool {
    &&& opened(source, chunk, line, base)
    &&& base.cached_offset(line as int) is Some
    &&& forall|i: int|
        0 <= i < answers.len() ==> asked_for(
            source,
            chunk,
            line,
            base,
            answers.take(i),
            #[trigger] answers[i],
        )
}

/// No answer that `source` can give to the search for line `line` leads astray: where the start
/// of the line has to be fetched, what comes holds it; where the rest of the line has to be
/// fetched, some text comes; and all of it can be counted in machine words.
pub open spec fn can_search<DS: DataSource>(source: &DS, chunk: Chunk, line: usize) -> bool {
    line <= chunk.num_lines ==> {
        &&& line < usize::MAX
        &&& chunk.lacks_start(line as int) ==> forall|data: GetDataResponse|
            #[trigger] may_answer(source, line, TextUnit::Line, chunk.rev, Ok(data)) ==> {
                &&& chunk.reset(data).in_range()
                &&& chunk.reset(data).cached_offset(line as int) is Some
            }
        &&& forall|base: Chunk, answers: Seq<GetDataResponse>, more: GetDataResponse|
            #[trigger] searched(source, chunk, line, base, answers.push(more)) ==> {
                &&& encode_utf8(more.chunk@).len() > 0
                &&& base.grown(
                    base.cached_offset(line as int)->0,
                    answers.push(more),
                ).in_range()
            }
    }
}

/// Whether looking up line `line` in `chunk`, with the help of `source`, can leave `after` and
/// return `result`, the bytes of the line or an error.
pub open spec fn line_found<DS: DataSource>(
    source: &DS,
    chunk: Chunk,
    line: usize,
    after: Chunk,
    result: Result<Seq<u8>, Error>,
) -> bool {
    if line > chunk.num_lines {
        result == Err::<Seq<u8>, Error>(Error::BadRequest) && after == chunk
    } else {
        match result {
            Ok(bytes) => exists|base: Chunk, answers: Seq<GetDataResponse>| #[trigger]
                searched(source, chunk, line, base, answers) && line_ends(
                    line,
                    base,
                    answers,
                    after,
                    bytes,
                ),
            Err(e) => {
                ||| chunk.lacks_start(line as int) && may_answer(
                    source,
                    line,
                    TextUnit::Line,
                    chunk.rev,
                    Err(e),
                ) && after == chunk
                ||| exists|base: Chunk, answers: Seq<GetDataResponse>| #[trigger]
                    searched(source, chunk, line, base, answers) && search_breaks_off(
                        source,
                        line,
                        base,
                        answers,
                        after,
                        e,
                    )
            },
        }
    }
}

/// Whether the search for line `line` from `base` on ends with `answers`: the chunk is then
/// `after`, and `bytes` are those from the start of the line up to that of the next.
pub open spec fn line_ends(
    line: usize,
    base: Chunk,
    answers: Seq<GetDataResponse>,
    after: Chunk,
    bytes: Seq<u8>,
) -> bool {
    let start = base.cached_offset(line as int)->0;
    &&& after == base.grown(start, answers)
    &&& after.cached_offset(line + 1) matches Some(end) && bytes == after.text.subrange(
        if answers.len() == 0 {
            start
        } else {
            0
        },
        end,
    )
}

/// Whether the search for line `line` from `base` on meets the error `e` after `answers`: what
/// came before the line is then gone from the chunk.
pub open spec fn search_breaks_off<DS: DataSource>(
    source: &DS,
    line: usize,
    base: Chunk,
    answers: Seq<GetDataResponse>,
    after: Chunk,
    e: Error,
) -> bool {
    let start = base.cached_offset(line as int)->0;
    &&& base.grown(start, answers).cached_offset(line + 1) is None
    &&& after == base.trimmed(start).appended(joined(answers))
    &&& may_answer(source, next_request(base, answers), TextUnit::Utf8, base.rev, Err(e))
}

/// Where the start of line `line` has to be fetched, what `source` can answer holds it and can be
/// counted in machine words.
pub open spec fn can_locate<DS: DataSource>(source: &DS, chunk: Chunk, line: usize) -> bool {
    line <= chunk.num_lines && chunk.cached_offset(line as int) is None ==> forall|
        data: GetDataResponse,
    | #[trigger]
        may_answer(source, line, TextUnit::Line, chunk.rev, Ok(data)) ==> {
            &&& chunk.reset(data).in_range()
            &&& chunk.reset(data).cached_offset(line as int) is Some
        }
}

/// Whether looking up the offset of line `line` in `chunk`, with the help of `source`, can leave
/// `after` and return `result`.
pub open spec fn offset_found<DS: DataSource>(
    source: &DS,
    chunk: Chunk,
    line: usize,
    after: Chunk,
    result: Result<usize, Error>,
) -> bool {
    if line > chunk.num_lines {
        result == Err::<usize, Error>(Error::BadRequest) && after == chunk
    } else if chunk.cached_offset(line as int) is Some {
        &&& after == chunk
        &&& result matches Ok(offset) && offset == chunk.offset + chunk.cached_offset(
            line as int,
        )->0
    } else {
        match result {
            Ok(offset) => exists|data: GetDataResponse| #[trigger]
                may_answer(source, line, TextUnit::Line, chunk.rev, Ok(data)) && after
                    == chunk.reset(data) && (after.cached_offset(line as int) matches Some(o)
                    && offset == after.offset + o),
            Err(e) => may_answer(source, line, TextUnit::Line, chunk.rev, Err(e)) && after == chunk,
        }
    }
}

/// One more answer, to the request that the search makes next.
pub(crate) proof fn lemma_searched_push<DS: DataSource>(
    source: &DS,
    chunk: Chunk,
    line: usize,
    base: Chunk,
    answers: Seq<GetDataResponse>,
    more: GetDataResponse,
)
    requires
        searched(source, chunk, line, base, answers),
        asked_for(source, chunk, line, base, answers, more),
    ensures
        searched(source, chunk, line, base, answers.push(more)),
        base.grown(base.cached_offset(line as int)->0, answers.push(more)) == base.trimmed(
            base.cached_offset(line as int)->0,
        ).appended(joined(answers)).appended(encode_utf8(more.chunk@)),
{
    let start = base.cached_offset(line as int)->0;
    let seen = answers.push(more);
    assert forall|i: int| 0 <= i < seen.len() implies asked_for(
        source,
        chunk,
        line,
        base,
        seen.take(i),
        #[trigger] seen[i],
    ) by {
        assert(seen.take(i) == answers.take(i));
        if i < answers.len() {
            assert(seen[i] == answers[i]);
        } else {
            assert(answers.take(i) == answers);
        }
    }
    assert(seen.drop_last() == answers);
    let trimmed = base.trimmed(start);
    assert(trimmed.text + joined(seen) == trimmed.text + joined(answers) + encode_utf8(
        more.chunk@,
    ));
}

/// All answers but the last, and the request that the last one answers.
pub(crate) proof fn lemma_searched_init<DS: DataSource>(
    source: &DS,
    chunk: Chunk,
    line: usize,
    base: Chunk,
    answers: Seq<GetDataResponse>,
)
    requires
        searched(source, chunk, line, base, answers),
        answers.len() > 0,
    ensures
        searched(source, chunk, line, base, answers.drop_last()),
        asked_for(source, chunk, line, base, answers.drop_last(), answers.last()),
{
    let init = answers.drop_last();
    assert forall|i: int| 0 <= i < init.len() implies asked_for(
        source,
        chunk,
        line,
        base,
        init.take(i),
        #[trigger] init[i],
    ) by {
        assert(init.take(i) == answers.take(i));
        assert(init[i] == answers[i]);
    }
    assert(answers.take(answers.len() - 1) == init);
    assert(answers[answers.len() - 1] == answers.last());
}

} // verus!
