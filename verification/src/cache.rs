//! The cache.

use crate::chunk::{joined, Chunk};
use crate::delta::{copied_to, lemma_ordered_prefix, Delta, DeltaElement};
use crate::encoding::{byte_len, lemma_boundary_in_range, lemma_encode_concat, slice};
use crate::lookup::{
    can_locate, can_search, lemma_searched_push, line_ends, line_found, next_request,
    offset_found, search_breaks_off, searched,
};
use crate::offsets::{
    as_ints, cut_out, lemma_remaining, search, shift_after, shift_back, shifted, splice,
};
use crate::source::{may_answer, DataSource, Error, GetDataResponse, TextUnit, CHUNK_SIZE};
use crate::text::{
    lemma_deleted_lines, lemma_inserted_lines, lemma_line_starts, lemma_no_line_break,
    lemma_split_lines, line_breaks, line_starts, line_starts_list_lines, lists_lines,
    newline_offsets, NEWLINE,
};
use vstd::prelude::*;
use vstd::slice::slice_subrange;
use vstd::utf8::*;

verus! {

/// A simple cache, holding a single contiguous chunk of the document.
#[derive(Debug, Clone)]
pub struct ChunkCache {
    /// The position of this chunk relative to the tracked document.
    /// All offsets are guaranteed to be valid UTF-8 character boundaries.
    pub offset: usize,
    /// A chunk of the remote buffer.
    pub contents: String,
    /// The (zero-based) line number of the line containing the start of the chunk.
    pub first_line: usize,
    /// The byte offset of the start of the chunk from the start of `first_line`.
    /// If this chunk starts at a line break, this will be 0.
    pub first_line_offset: usize,
    /// The offset in this chunk of the start of every line that starts behind a line break of
    /// the chunk.
    pub line_offsets: Vec<usize>,
    /// The total size of the tracked document.
    pub buf_size: usize,
    /// The number of lines in the tracked document.
    pub num_lines: usize,
    /// The revision of the tracked document.
    pub rev: u64,
}

impl View for ChunkCache {
    type V = Chunk;

    open spec fn view(&self) -> Chunk {
        Chunk {
            offset: self.offset as int,
            text: encode_utf8(self.contents@),
            first_line: self.first_line as int,
            first_line_offset: self.first_line_offset as int,
            line_offsets: as_ints(self.line_offsets@),
            buf_size: self.buf_size as int,
            num_lines: self.num_lines as int,
            rev: self.rev,
        }
    }
}

/// The view of a cache shows every field of it.
pub proof fn view_shows_the_fields(cache: ChunkCache)
    ensures
        cache@.offset == cache.offset,
        cache@.text == encode_utf8(cache.contents@),
        cache@.first_line == cache.first_line,
        cache@.first_line_offset == cache.first_line_offset,
        cache@.line_offsets.len() == cache.line_offsets@.len(),
        forall|i: int|
            0 <= i < cache.line_offsets@.len() ==> #[trigger] cache@.line_offsets[i]
                == cache.line_offsets@[i],
        cache@.buf_size == cache.buf_size,
        cache@.num_lines == cache.num_lines,
        cache@.rev == cache.rev,
{
}

/// The line offsets of a well-formed cache are one past each line break of its contents, in
/// ascending order.
pub proof fn line_offsets_list_the_lines(cache: ChunkCache)
    requires
        cache.well_formed(),
    ensures
        lists_lines(cache@.line_offsets, encode_utf8(cache.contents@)),
{
    line_starts_list_lines(cache@.text);
}

impl Default for ChunkCache {
    /// A cache that holds nothing and knows of no document.
    fn default() -> (cache: Self)
        ensures
            cache.well_formed(),
            cache.offset == 0,
            cache.contents@ == Seq::<char>::empty(),
            cache.first_line == 0,
            cache.first_line_offset == 0,
            cache.line_offsets@ == Seq::<usize>::empty(),
            cache.buf_size == 0,
            cache.num_lines == 0,
            cache.rev == 0,
    {
        let cache = ChunkCache {
            offset: 0,
            contents: String::new(),
            first_line: 0,
            first_line_offset: 0,
            line_offsets: Vec::new(),
            buf_size: 0,
            num_lines: 0,
            rev: 0,
        };
        assert(cache@.line_offsets == line_starts(cache@.text));
        cache
    }
}

impl ChunkCache {
    /// The line offsets are those of the contents, and every position fits in a machine word.
    pub open spec fn well_formed(&self) -> bool {
        self@.consistent() && self@.in_range()
    }

    /// Returns the text of the line at `line_num`, zero-indexed, fetching
    /// data from `source` if needed.
    ///
    /// # Errors
    ///
    /// Returns an error if `line_num` is greater than the total number of lines
    /// in the document, or if there is a problem communicating with `source`.
    pub fn get_line<DS: DataSource>(&mut self, source: &DS, line_num: usize) -> (line: Result<
        &str,
        Error,
    >)
        requires
            old(self).well_formed(),
            can_search(source, old(self)@, line_num),
        ensures
            line_found(
                source,
                old(self)@,
                line_num,
                final(self)@,
                match line {
                    Ok(s) => Ok(encode_utf8(s@)),
                    Err(e) => Err(e),
                },
            ),
            final(self).well_formed(),
    {
        if line_num > self.num_lines {
            return Err(Error::BadRequest);
        }
        let ghost before = self@;
        // if chunk does not include the start of this line, fetch and reset everything
        if byte_len(self.contents.as_str()) == 0 || self.cached_offset_of_line(line_num).is_none() {
            match source.get_data(line_num, TextUnit::Line, CHUNK_SIZE, self.rev) {
                Ok(resp) => {
                    assert(may_answer(source, line_num, TextUnit::Line, before.rev, Ok(resp)));
                    self.reset_chunk(resp);
                },
                Err(e) => {
                    assert(may_answer(source, line_num, TextUnit::Line, before.rev, Err(e)));
                    return Err(e);
                },
            }
        }
        let ghost base = self@;
        // We now know that the start of this line is contained in self.contents.
        let mut start_off: usize = self.cached_offset_of_line(line_num).unwrap();
        let ghost start = start_off as int;
        proof {
            encode_utf8_valid_utf8(self.contents@);
            base.lemma_cached_boundary(line_num as int);
        }
        let ghost mut answers: Seq<GetDataResponse> = seq![];
        // Now we make sure we also contain the end of the line, fetching more
        // of the document as necessary.
        loop
            invariant
                before == old(self)@,
                line_num < usize::MAX,
                line_num <= before.num_lines,
                can_search(source, before, line_num),
                searched(source, before, line_num, base, answers),
                base.cached_offset(line_num as int) == Some(start),
                0 <= start <= base.text.len(),
                base.consistent(),
                base.in_range(),
                base.rev == before.rev,
                self@ == base.grown(start, answers),
                self.well_formed(),
                start_off == if answers.len() == 0 {
                    start
                } else {
                    0
                },
            decreases usize::MAX - self@.end(),
        {
            proof {
                encode_utf8_valid_utf8(self.contents@);
            }
            if let Some(end_off) = self.cached_offset_of_line(line_num + 1) {
                proof {
                    self@.lemma_cached_boundary(line_num + 1);
                    if answers.len() == 0 {
                        self@.lemma_cached_boundary(line_num as int);
                        self@.lemma_cached_order(line_num as int);
                    } else {
                        is_char_boundary_start_end_of_seq(self@.text);
                    }
                }
                let line = slice(self.contents.as_str(), start_off, end_off);
                assert(line_ends(line_num, base, answers, self@, encode_utf8(line@)));
                return Ok(line);
            }
            // if we have a chunk and we're fetching more, discard unnecessary
            // portion of our chunk.
            if start_off != 0 {
                proof {
                    self@.lemma_cached_boundary(line_num as int);
                }
                self.clear_up_to(start_off);
                start_off = 0;
            }
            proof {
                base.lemma_nothing_changed();
                base.trimmed(start).lemma_nothing_changed();
            }
            assert(self@ == base.trimmed(start).appended(joined(answers)));
            let chunk_end: usize = self.offset + byte_len(self.contents.as_str());
            assert(chunk_end == next_request(base, answers));
            match source.get_data(chunk_end, TextUnit::Utf8, CHUNK_SIZE, self.rev) {
                Ok(resp) => {
                    proof {
                        lemma_searched_push(source, before, line_num, base, answers, resp);
                        answers = answers.push(resp);
                    }
                    self.append_chunk(resp);
                },
                Err(e) => {
                    assert(search_breaks_off(source, line_num, base, answers, self@, e));
                    return Err(e);
                },
            }
        }
    }

    /// Returns the offset of the line at `line_num`, zero-indexed, fetching
    /// data from `source` if needed.
    ///
    /// # Errors
    ///
    /// Returns an error if `line_num` is greater than the total number of lines
    /// in the document, or if there is a problem communicating with `source`.
    pub fn offset_of_line<DS: DataSource>(&mut self, source: &DS, line_num: usize) -> (offset:
        Result<usize, Error>)
        requires
            old(self).well_formed(),
            can_locate(source, old(self)@, line_num),
        ensures
            offset_found(source, old(self)@, line_num, final(self)@, offset),
            final(self).well_formed(),
        decreases
            if old(self)@.cached_offset(line_num as int) is None {
                1int
            } else {
                0int
            },
    {
        if line_num > self.num_lines {
            return Err(Error::BadRequest);
        }
        proof {
            encode_utf8_valid_utf8(self.contents@);
        }
        match self.cached_offset_of_line(line_num) {
            Some(offset) => {
                proof {
                    self@.lemma_cached_boundary(line_num as int);
                }
                Ok(offset + self.offset)
            },
            None => {
                match source.get_data(line_num, TextUnit::Line, CHUNK_SIZE, self.rev) {
                    Ok(resp) => {
                        assert(may_answer(source, line_num, TextUnit::Line, self.rev, Ok(resp)));
                        self.reset_chunk(resp);
                        self.offset_of_line(source, line_num)
                    },
                    Err(e) => {
                        assert(may_answer(source, line_num, TextUnit::Line, self.rev, Err(e)));
                        Err(e)
                    },
                }
            },
        }
    }

    /// Returns the offset of the provided `line_num` in `self.contents` if
    /// it is present in the chunk.
    pub fn cached_offset_of_line(&self, line_num: usize) -> (offset: Option<usize>)
        requires
            line_num == self.num_lines ==> self@.end() <= usize::MAX,
        ensures
            match offset {
                Some(o) => self@.cached_offset(line_num as int) == Some(o as int),
                None => self@.cached_offset(line_num as int) is None,
            },
    {
        if line_num < self.first_line {
            return None;
        }
        let rel_line_num: usize = line_num - self.first_line;
        if rel_line_num == 0 {
            return if self.first_line_offset == 0 {
                Some(0)
            } else {
                None
            };
        }
        if rel_line_num <= self.line_offsets.len() {
            return Some(self.line_offsets[rel_line_num - 1]);
        }
        // EOF
        let len: usize = byte_len(self.contents.as_str());
        if line_num == self.num_lines && self.offset + len == self.buf_size {
            return Some(len);
        }
        None
    }

    /// Clears anything in the cache up to `offset`, which is indexed relative
    /// to `self.contents`.
    pub fn clear_up_to(&mut self, offset: usize)
        requires
            old(self).well_formed(),
            is_char_boundary(old(self)@.text, offset as int),
        ensures
            final(self)@ == old(self)@.trimmed(offset as int),
            final(self).well_formed(),
    {
        let ghost before = self@;
        let ghost dropped = before.text.take(offset as int);
        let ghost rest = before.text.skip(offset as int);
        let ghost k = line_breaks(dropped);
        proof {
            encode_utf8_valid_utf8(self.contents@);
            lemma_boundary_in_range(before.text, offset as int);
            lemma_split_lines(before.text, offset as int);
            lemma_line_starts(before.text);
            lemma_line_starts(dropped);
            lemma_line_starts(rest);
            assert forall|i: int, j: int|
                0 <= i < j < self.line_offsets@.len() implies self.line_offsets@[i]
                < self.line_offsets@[j] by {
                assert(before.line_offsets[i] < before.line_offsets[j]);
            }
        }
        let new_contents = self.contents.as_str().split_at(offset).1.to_owned();
        self.contents = new_contents;
        self.offset = self.offset + offset;
        assert(self@.text == rest);
        // first find out if offset is a line offset, and set first_line / first_line_offset
        let found = search(&self.line_offsets, offset);
        proof {
            let i = match found {
                Ok(i) => i + 1,
                Err(i) => i as int,
            };
            assert(0 < i ==> before.line_offsets[i - 1] <= offset);
            assert(i < before.line_offsets.len() ==> before.line_offsets[i] > offset);
            assert(i == k);
            assert(0 < k ==> before.line_offsets[k - 1] == line_starts(dropped).last());
        }
        let (new_line, new_line_off): (usize, usize) = match found {
            Ok(idx) => (self.first_line + idx + 1, 0),
            Err(idx) => if idx == 0 {
                (self.first_line, self.first_line_offset + offset)
            } else {
                (self.first_line + idx, offset - self.line_offsets[idx - 1])
            },
        };
        // then clear line_offsets up to and including offset
        let mut later: Vec<usize> = Vec::new();
        let mut i: usize = 0;
        while i < self.line_offsets.len()
            invariant
                i <= self.line_offsets@.len(),
                as_ints(self.line_offsets@) == before.line_offsets,
                0 <= k <= before.line_offsets.len(),
                before.line_offsets.len() == k + line_starts(rest).len(),
                forall|j: int| 0 <= j < k ==> #[trigger] before.line_offsets[j] <= offset,
                forall|j: int|
                    k <= j < before.line_offsets.len() ==> #[trigger] before.line_offsets[j]
                        == line_starts(rest)[j - k] + offset > offset,
                later@.len() == if i < k { 0 } else { i - k },
                forall|j: int| 0 <= j < later@.len() ==> later@[j] == line_starts(rest)[j],
            decreases self.line_offsets@.len() - i,
        {
            let o: usize = self.line_offsets[i];
            assert(o == before.line_offsets[i as int]);
            if o > offset {
                later.push(o - offset);
            }
            i += 1;
        }
        assert(as_ints(later@) == line_starts(rest));
        self.line_offsets = later;
        self.first_line = new_line;
        self.first_line_offset = new_line_off;
        assert(self@ == before.trimmed(offset as int));
    }

    /// Discards any existing cache, starting again with the new data.
    pub fn reset_chunk(&mut self, data: GetDataResponse)
        ensures
            final(self)@ == old(self)@.reset(data),
    {
        self.contents = data.chunk;
        self.offset = data.offset;
        self.first_line = data.first_line;
        self.first_line_offset = data.first_line_offset;
        self.recalculate_line_offsets();
    }

    /// Appends to the existing cache, leaving existing data in place.
    pub fn append_chunk(&mut self, data: GetDataResponse)
        ensures
            final(self)@ == old(self)@.appended(encode_utf8(data.chunk@)),
    {
        proof {
            lemma_encode_concat(self.contents@, data.chunk@);
        }
        self.contents.append(data.chunk.as_str());
        self.recalculate_line_offsets();
    }

    /// Finds the line offsets of the contents anew.
    pub fn recalculate_line_offsets(&mut self)
        ensures
            final(self)@ == old(self)@.with_text(old(self)@.text),
    {
        self.line_offsets.clear();
        newline_offsets(self.contents.as_str(), &mut self.line_offsets);
        assert(self@.line_offsets == line_starts(self@.text));
    }

    /// Updates the chunk to reflect changes in this delta. The cache stays well-formed where the
    /// edited chunk is in range, as that of a document whose length fits in a machine word is.
    pub fn apply_update(
        &mut self,
        new_len: usize,
        num_lines: usize,
        rev: u64,
        delta: Option<&Delta>,
    )
        requires
            old(self)@.consistent(),
            old(self)@.end() <= usize::MAX,
            delta matches Some(d) ==> old(self)@.accepts(*d),
        ensures
            final(self)@ == old(self)@.updated(new_len as int, num_lines as int, rev, delta),
            (delta matches Some(d) ==> old(self)@.lies_in_base(*d)) ==> final(self)@.consistent(),
    {
        let ghost before = self@;
        let is_empty = self.offset == 0 && byte_len(self.contents.as_str()) == 0;
        let should_clear = match delta {
            Some(delta) => if is_empty {
                // if no contents, clearing is a noop
                true
            } else {
                self.should_clear(delta)
            },
            // no delta means a very large edit
            None => true,
        };
        if should_clear {
            self.clear();
        } else {
            // only reached if delta exists
            let delta = delta.unwrap();
            proof {
                encode_utf8_valid_utf8(self.contents@);
                before.lemma_edit_stays(*delta);
                self@.lemma_edit_stays(*delta);
                if before.end() <= delta.base_len {
                    before.lemma_edited(*delta);
                }
                before.lemma_kept_text_only(self@, delta.els@);
            }
            self.update_chunk(delta);
        }
        self.buf_size = new_len;
        self.num_lines = num_lines;
        self.rev = rev;
    }

    /// Determine whether we should update our state with this delta,
    /// or if we should clear it. In the update case, also patches up
    /// offsets.
    pub fn should_clear(&mut self, delta: &Delta) -> (clear: bool)
        requires
            old(self)@.consistent(),
            old(self)@.end() <= usize::MAX,
            old(self)@.is_edited_by(*delta) ==> old(self)@.edited_text(*delta).len() <= usize::MAX,
        ensures
            clear == !old(self)@.is_edited_by(*delta),
            final(self)@ == if clear {
                old(self)@
            } else {
                old(self)@.relined(old(self)@.edited_text(*delta))
            },
    {
        let (start, end): (usize, usize) = delta.interval();
        let chunk_end: usize = self.offset + byte_len(self.contents.as_str());
        // we only apply the delta if it is a simple edit, which
        // begins in the interior of our chunk.
        // - If it begins _before_ our chunk, we are likely going to
        // want to fetch the edited region, which will reset our state;
        // - If it begins _after_ our chunk, it has no effect on our state;
        // - If it's a complex edit the logic is tricky, and this should
        // be rare enough we can afford to discard.
        if start < self.offset || start >= chunk_end {
            true
        } else if delta.is_simple_delete() {
            // what is deleted past the chunk is none of its text
            let end: usize = if end < chunk_end {
                end
            } else {
                chunk_end
            };
            proof {
                let head = self@.text.take(self@.within(start as int));
                assert(head + Seq::<u8>::empty() == head);
            }
            self.simple_delete(start, end);
            false
        } else {
            match delta.as_simple_insert() {
                Some(text) => {
                    self.simple_insert(text.as_str(), start);
                    false
                },
                None => true,
            }
        }
    }

    /// Patches up `self.line_offsets` in the simple insert case.
    pub fn simple_insert(&mut self, text: &str, ins_offset: usize)
        requires
            old(self)@.consistent(),
            old(self)@.offset <= ins_offset <= old(self)@.end(),
            old(self)@.text.len() + encode_utf8(text@).len() <= usize::MAX,
        ensures
            final(self)@ == old(self)@.relined(
                old(self)@.text.take(ins_offset - old(self)@.offset) + encode_utf8(text@) + old(
                    self,
                )@.text.skip(ins_offset - old(self)@.offset),
            ),
    {
        let ghost before = self@;
        let ins_pos: usize = ins_offset - self.offset;
        let text_len: usize = byte_len(text);
        let ghost head = line_starts(before.text.take(ins_pos as int));
        let ghost added = line_starts(encode_utf8(text@));
        let ghost tail = line_starts(before.text.skip(ins_pos as int));
        let ghost later = shifted(tail, ins_pos + text_len);
        proof {
            lemma_inserted_lines(before.text, ins_pos as int, encode_utf8(text@));
            lemma_line_starts(before.text.take(ins_pos as int));
            lemma_line_starts(encode_utf8(text@));
            lemma_line_starts(before.text.skip(ins_pos as int));
        }
        let has_newline = memchr::memchr(NEWLINE, text.as_bytes()).is_some();
        // regardless of if we are inserting newlines we adjust offsets
        assert(before.line_offsets.len() == self.line_offsets@.len());
        assert forall|j: int|
            0 <= j < self.line_offsets@.len() implies #[trigger] self.line_offsets@[j] + text_len
            <= usize::MAX by {
            assert(before.line_offsets[j] == (head + shifted(tail, ins_pos as int))[j]);
        }
        shift_after(&mut self.line_offsets, ins_pos, text_len);
        assert(as_ints(self.line_offsets@) == head + later) by {
            assert forall|j: int|
                0 <= j < self.line_offsets@.len() implies #[trigger] self.line_offsets@[j] == (head
                + later)[j] by {
                assert(before.line_offsets[j] == (head + shifted(tail, ins_pos as int))[j]);
            }
        }
        // calculate and insert new newlines if necessary
        if has_newline {
            let mut new_offsets: Vec<usize> = Vec::new();
            newline_offsets(text, &mut new_offsets);
            let ghost fresh = new_offsets@;
            assert(as_ints(fresh) == added);
            assert forall|j: int| 0 <= j < fresh.len() implies 0 < #[trigger] fresh[j]
                <= text_len by {
                assert(as_ints(fresh)[j] == added[j]);
            }
            shift_after(&mut new_offsets, 0, ins_pos);
            assert(as_ints(new_offsets@) == shifted(added, ins_pos as int)) by {
                assert forall|j: int| 0 <= j < fresh.len() implies #[trigger] new_offsets@[j]
                    == added[j] + ins_pos by {
                    assert(as_ints(fresh)[j] == added[j]);
                }
            }
            proof {
                let at = choose|at: int|
                    0 <= at < encode_utf8(text@).len() && encode_utf8(text@)[at] == NEWLINE;
                assert(added.contains(at + 1));
                assert(new_offsets@[0] == shifted(added, ins_pos as int)[0]);
                assert forall|j: int|
                    0 <= j < self.line_offsets@.len() implies #[trigger] self.line_offsets@[j] == (
                head + later)[j] by {
                    assert(as_ints(self.line_offsets@)[j] == (head + later)[j]);
                }
            }
            let ghost moved = self.line_offsets@;
            splice(&mut self.line_offsets, new_offsets, Ghost(head.len() as int));
            assert(as_ints(moved.take(head.len() as int)) == head);
            assert(as_ints(moved.skip(head.len() as int)) == later);
            assert(self@.line_offsets == head + shifted(added, ins_pos as int) + later);
        } else {
            proof {
                lemma_no_line_break(encode_utf8(text@));
                assert(head + shifted(added, ins_pos as int) + later == head + later);
            }
        }
    }

    /// Patches up `self.line_offsets` in the simple delete case.
    pub fn simple_delete(&mut self, start: usize, end: usize)
        requires
            old(self)@.consistent(),
            old(self)@.offset <= start <= end <= old(self)@.end(),
        ensures
            final(self)@ == old(self)@.relined(
                old(self)@.text.take(start - old(self)@.offset) + old(self)@.text.skip(
                    end - old(self)@.offset,
                ),
            ),
    {
        let ghost before = self@;
        let start: usize = start - self.offset;
        let end: usize = end - self.offset;
        let del_size: usize = end - start;
        let ghost head = line_starts(before.text.take(start as int));
        let ghost gone = line_starts(before.text.subrange(start as int, end as int));
        let ghost tail = line_starts(before.text.skip(end as int));
        proof {
            lemma_deleted_lines(before.text, start as int, end as int);
            lemma_line_starts(before.text.take(start as int));
            lemma_line_starts(before.text.subrange(start as int, end as int));
            lemma_line_starts(before.text.skip(end as int));
        }
        let deleted = slice_subrange(self.contents.as_str().as_bytes(), start, end);
        let has_newline = memchr::memchr(NEWLINE, deleted).is_some();
        // a bit too fancy: only reallocate if we need to remove an item
        if has_newline {
            self.line_offsets = cut_out(&self.line_offsets, start, end);
            proof {
                lemma_remaining(
                    head,
                    shifted(gone, start as int),
                    shifted(tail, end as int),
                    start as int,
                    end as int,
                );
                assert(shifted(shifted(tail, end as int), start - end) == shifted(
                    tail,
                    start as int,
                ));
            }
        } else {
            proof {
                lemma_no_line_break(deleted@);
                assert(before.line_offsets == head + shifted(tail, end as int));
            }
            shift_back(&mut self.line_offsets, end, del_size);
            assert(as_ints(self.line_offsets@) == head + shifted(tail, start as int)) by {
                assert forall|j: int|
                    0 <= j < self.line_offsets@.len() implies #[trigger] self.line_offsets@[j] == (
                head + shifted(tail, start as int))[j] by {
                    assert(old(self).line_offsets@[j] == (head + shifted(tail, end as int))[j]);
                }
            }
        }
    }

    /// Updates `self.contents` with the given delta.
    pub fn update_chunk(&mut self, delta: &Delta)
        requires
            old(self)@.end() <= usize::MAX,
            delta.well_formed(),
            old(self)@.splits_at_chars(delta.els@),
            old(self)@.merged(delta.els@).offset <= usize::MAX,
        ensures
            final(self)@ == old(self)@.merged(delta.els@),
    {
        let ghost before = self@;
        let ghost els = delta.els@;
        proof {
            encode_utf8_valid_utf8(self.contents@);
            is_char_boundary_start_end_of_seq(before.text);
            before.lemma_removed_before(els, delta.base_len as int);
        }
        let len: usize = byte_len(self.contents.as_str());
        let chunk_start: usize = self.offset;
        let chunk_end: usize = chunk_start + len;
        let mut new_state: String = String::new();
        let mut prev_copy_end: usize = 0;
        let mut del_before: usize = 0;
        let mut ins_before: usize = 0;
        assert(encode_utf8(new_state@) == before.kept(els.take(0)));
        let mut i: usize = 0;
        while i < delta.els.len()
            invariant
                i <= els.len(),
                els == delta.els@,
                delta.well_formed(),
                self@ == before,
                valid_utf8(before.text),
                len == before.text.len(),
                chunk_start == before.offset,
                chunk_end == before.end(),
                before.splits_at_chars(els),
                before.inserted_before(els) <= usize::MAX,
                prev_copy_end == copied_to(els.take(i as int)),
                del_before == before.removed_before(els.take(i as int)),
                ins_before == before.inserted_before(els.take(i as int)),
                encode_utf8(new_state@) == before.kept(els.take(i as int)),
            decreases els.len() - i,
        {
            let ghost seen = els.take(i + 1);
            proof {
                assert(seen.drop_last() == els.take(i as int));
                assert(seen.last() == els[i as int]);
                lemma_ordered_prefix(els, delta.base_len as int, i + 1);
                before.lemma_removed_before(seen, delta.base_len as int);
                before.lemma_inserted_before(els, i + 1);
            }
            match &delta.els[i] {
                DeltaElement::Copy(start, end) => {
                    let start: usize = *start;
                    let end: usize = *end;
                    if start < chunk_start {
                        del_before = del_before + (start - prev_copy_end);
                        if end >= chunk_start {
                            let cp_end: usize = if end - chunk_start < len {
                                end - chunk_start
                            } else {
                                len
                            };
                            let copied = slice(self.contents.as_str(), 0, cp_end);
                            proof {
                                lemma_encode_concat(new_state@, copied@);
                            }
                            new_state.append(copied);
                        }
                    } else if start <= chunk_end {
                        if prev_copy_end < chunk_start {
                            del_before = del_before + (chunk_start - prev_copy_end);
                        }
                        let cp_start: usize = start - chunk_start;
                        let cp_end: usize = if end - chunk_start < len {
                            end - chunk_start
                        } else {
                            len
                        };
                        let copied = slice(self.contents.as_str(), cp_start, cp_end);
                        proof {
                            lemma_encode_concat(new_state@, copied@);
                        }
                        new_state.append(copied);
                    }
                    prev_copy_end = end;
                },
                DeltaElement::Insert(s) => {
                    if prev_copy_end < chunk_start {
                        ins_before = ins_before + byte_len(s.as_str());
                    } else if prev_copy_end <= chunk_end {
                        proof {
                            lemma_encode_concat(new_state@, s@);
                        }
                        new_state.append(s.as_str());
                    }
                },
            }
            assert(encode_utf8(new_state@) == before.kept(seen));
            i += 1;
        }
        proof {
            assert(els.take(i as int) == els);
            before.lemma_removed_before(els, delta.base_len as int);
        }
        self.offset = self.offset - del_before;
        self.offset = self.offset + ins_before;
        self.contents = new_state;
    }

    /// Forgets the chunk, but not the size, line count and revision of the document.
    pub fn clear(&mut self)
        ensures
            final(self)@ == old(self)@.cleared(),
            final(self).well_formed(),
    {
        self.contents = String::new();
        self.offset = 0;
        self.line_offsets.clear();
        self.first_line = 0;
        self.first_line_offset = 0;
        assert(self@ == old(self)@.cleared());
    }
}

} // verus!
