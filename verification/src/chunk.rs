//! What a cache holds, and what becomes of it.

use crate::delta::{copied_to, ordered, Delta, DeltaElement};
use crate::encoding::lemma_boundary_after_newline;
use crate::source::GetDataResponse;
use crate::text::{column, lemma_line_starts, line_breaks, line_starts};
use vstd::prelude::*;
use vstd::utf8::*;

verus! {

/// The state of a cache.
#[verifier::ext_equal]
pub struct Chunk {
    /// The offset of the chunk in the document.
    pub offset: int,
    /// The bytes of the chunk.
    pub text: Seq<u8>,
    /// The number of the line in which the chunk starts.
    pub first_line: int,
    /// The offset of the chunk from the start of that line.
    pub first_line_offset: int,
    /// The offset in the chunk of the start of every further line.
    pub line_offsets: Seq<int>,
    /// The length of the document.
    pub buf_size: int,
    /// The number of lines in the document.
    pub num_lines: int,
    /// The revision of the document.
    pub rev: u64,
}

/// The text of `answers`, one after another.
pub open spec fn joined(answers: Seq<GetDataResponse>) -> Seq<u8>
    decreases answers.len(),
{
    if answers.len() == 0 {
        seq![]
    } else {
        joined(answers.drop_last()) + encode_utf8(answers.last().chunk@)
    }
}

impl Chunk {
    /// The offset in the document of the end of the chunk.
    pub open spec fn end(self) -> int {
        self.offset + self.text.len()
    }

    /// `line_offsets` are those of the text.
    pub open spec fn consistent(self) -> bool {
        self.line_offsets == line_starts(self.text)
    }

    /// Every position in the chunk, counted from the start of the document, and its line and
    /// its distance from the start of the first line, fit in a machine word.
    pub open spec fn in_range(self) -> bool {
        &&& 0 <= self.offset
        &&& self.offset + self.text.len() <= usize::MAX
        &&& 0 <= self.first_line
        &&& self.first_line + self.line_offsets.len() <= usize::MAX
        &&& 0 <= self.first_line_offset
        &&& self.first_line_offset + self.text.len() <= usize::MAX
    }

    /// The offset in the chunk of the start of line `line` of the document, if the chunk holds
    /// it. The line after the last one starts at the end of the document.
    pub open spec fn cached_offset(self, line: int) -> Option<int> {
        if line < self.first_line {
            None
        } else if line == self.first_line {
            if self.first_line_offset == 0 {
                Some(0)
            } else {
                None
            }
        } else if line - self.first_line <= self.line_offsets.len() {
            Some(self.line_offsets[line - self.first_line - 1])
        } else if line == self.num_lines && self.end() == self.buf_size {
            Some(self.text.len() as int)
        } else {
            None
        }
    }

    /// The chunk with the line offsets of `text`, its own text kept.
    pub open spec fn relined(self, text: Seq<u8>) -> Chunk {
        Chunk { line_offsets: line_starts(text), ..self }
    }

    /// The chunk with `text` for its text.
    pub open spec fn with_text(self, text: Seq<u8>) -> Chunk {
        Chunk { text, line_offsets: line_starts(text), ..self }
    }

    /// Nothing but what is known of the whole document.
    pub open spec fn cleared(self) -> Chunk {
        Chunk { offset: 0, first_line: 0, first_line_offset: 0, ..self.with_text(seq![]) }
    }

    /// The piece `data` of the document in place of the chunk.
    pub open spec fn reset(self, data: GetDataResponse) -> Chunk {
        Chunk {
            offset: data.offset as int,
            first_line: data.first_line as int,
            first_line_offset: data.first_line_offset as int,
            ..self.with_text(encode_utf8(data.chunk@))
        }
    }

    /// The chunk with `more` behind it.
    pub open spec fn appended(self, more: Seq<u8>) -> Chunk {
        self.with_text(self.text + more)
    }

    /// The chunk without its first `n` bytes.
    pub open spec fn trimmed(self, n: int) -> Chunk {
        let dropped = self.text.take(n);
        Chunk {
            offset: self.offset + n,
            first_line: self.first_line + line_breaks(dropped),
            first_line_offset: if line_breaks(dropped) == 0 {
                self.first_line_offset + n
            } else {
                column(dropped)
            },
            ..self.with_text(self.text.skip(n))
        }
    }

    /// Whether the start of line `line` has to be fetched.
    pub open spec fn lacks_start(self, line: int) -> bool {
        self.text.len() == 0 || self.cached_offset(line) is None
    }

    /// The chunk once `answers` have been appended to what follows its first `start` bytes; the
    /// whole chunk where there are none.
    pub open spec fn grown(self, start: int, answers: Seq<GetDataResponse>) -> Chunk {
        if answers.len() == 0 {
            self
        } else {
            self.trimmed(start).appended(joined(answers))
        }
    }

    /// The offset in the chunk that is nearest to offset `pos` of the document.
    pub open spec fn within(self, pos: int) -> int {
        if pos < self.offset {
            0
        } else if pos > self.end() {
            self.text.len() as int
        } else {
            pos - self.offset
        }
    }

    /// What `els` make of the chunk: what they copy from it, and what they insert where the last
    /// range that they copied ends in it.
    pub open spec fn kept(self, els: Seq<DeltaElement>) -> Seq<u8>
        decreases els.len(),
    {
        if els.len() == 0 {
            seq![]
        } else {
            self.kept(els.drop_last()) + match els.last() {
                DeltaElement::Copy(beg, end) => self.text.subrange(
                    self.within(beg as int),
                    self.within(end as int),
                ),
                DeltaElement::Insert(s) => if self.offset <= copied_to(els.drop_last())
                    <= self.end() {
                    encode_utf8(s@)
                } else {
                    seq![]
                },
            }
        }
    }

    /// The number of bytes that `els` insert before the chunk.
    pub open spec fn inserted_before(self, els: Seq<DeltaElement>) -> int
        decreases els.len(),
    {
        if els.len() == 0 {
            0
        } else {
            self.inserted_before(els.drop_last()) + match els.last() {
                DeltaElement::Insert(s) if copied_to(els.drop_last()) < self.offset => encode_utf8(
                    s@,
                ).len() as int,
                _ => 0,
            }
        }
    }

    /// The number of bytes before the chunk that `els` leave out, up to the last range that they
    /// copy from no later than the end of the chunk.
    pub open spec fn removed_before(self, els: Seq<DeltaElement>) -> int
        decreases els.len(),
    {
        if els.len() == 0 {
            0
        } else {
            self.removed_before(els.drop_last()) + match els.last() {
                DeltaElement::Copy(beg, _) if beg <= self.end() => self.up_to_chunk(beg as int)
                    - self.up_to_chunk(copied_to(els.drop_last())),
                _ => 0,
            }
        }
    }

    /// The position `pos`, or the start of the chunk where that comes first.
    pub open spec fn up_to_chunk(self, pos: int) -> int {
        if pos < self.offset {
            pos
        } else {
            self.offset
        }
    }

    /// The chunk with its text and offset as `els` make them; the rest as it is.
    pub open spec fn merged(self, els: Seq<DeltaElement>) -> Chunk {
        Chunk {
            offset: self.offset + self.inserted_before(els) - self.removed_before(els),
            text: self.kept(els),
            ..self
        }
    }

    /// Every range that `els` copy starts and ends between characters of the chunk, where it
    /// starts or ends inside the chunk.
    pub open spec fn splits_at_chars(self, els: Seq<DeltaElement>) -> bool {
        forall|i: int|
            0 <= i < els.len() ==> (#[trigger] els[i] matches DeltaElement::Copy(beg, end) ==> {
                &&& is_char_boundary(self.text, self.within(beg as int))
                &&& is_char_boundary(self.text, self.within(end as int))
            })
    }

    /// Whether `delta` is a single insertion or deletion that begins in the chunk.
    pub open spec fn is_edited_by(self, delta: Delta) -> bool {
        &&& self.offset <= delta.edit_start() < self.end()
        &&& delta.deletes_one_range() || delta.one_insertion() is Some
    }

    /// The text after `delta`, which begins in the chunk.
    pub open spec fn edited_text(self, delta: Delta) -> Seq<u8> {
        self.text.take(self.within(delta.edit_start())) + delta.inserted() + self.text.skip(
            self.within(delta.edit_end()),
        )
    }

    /// Where `delta` is a single insertion or deletion that begins in the chunk, its ranges are
    /// in order, it cuts the chunk between characters, and the chunk with it fits in memory.
    pub open spec fn accepts(self, delta: Delta) -> bool {
        self.is_edited_by(delta) ==> {
            &&& delta.well_formed()
            &&& is_char_boundary(self.text, self.within(delta.edit_start()))
            &&& is_char_boundary(self.text, self.within(delta.edit_end()))
            &&& is_char_boundary(self.text, self.within(delta.base_len as int))
            &&& self.edited_text(delta).len() <= usize::MAX
        }
    }

    /// Whether `delta`, where it is a single insertion or deletion that begins in the chunk, is
    /// one of a document in which the whole chunk lies.
    pub open spec fn lies_in_base(self, delta: Delta) -> bool {
        self.is_edited_by(delta) ==> self.end() <= delta.base_len
    }

    /// The chunk after an edit that leaves a document of `new_len` bytes, `num_lines` lines and
    /// revision `rev`: the same chunk with the edit in it where `delta` is a single insertion or
    /// deletion that begins in the chunk, else nothing.
    pub open spec fn updated(
        self,
        new_len: int,
        num_lines: int,
        rev: u64,
        delta: Option<&Delta>,
    ) -> Chunk {
        let kept = match delta {
            Some(d) if self.is_edited_by(*d) => Chunk {
                text: self.kept(d.els@),
                ..self.relined(self.edited_text(*d))
            },
            _ => self.cleared(),
        };
        Chunk { buf_size: new_len, num_lines, rev, ..kept }
    }

    /// What ordered ranges leave out before the chunk lies before the end of the last one, and
    /// before the chunk.
    pub(crate) proof fn lemma_removed_before(self, els: Seq<DeltaElement>, base_len: int)
        requires
            ordered(els, base_len),
            self.offset >= 0,
        ensures
            0 <= copied_to(els),
            0 <= self.removed_before(els) <= self.up_to_chunk(copied_to(els)),
        decreases els.len(),
    {
        if els.len() > 0 {
            self.lemma_removed_before(els.drop_last(), base_len);
        }
    }

    /// What the first elements insert before the chunk is no more than what all of them do.
    pub(crate) proof fn lemma_inserted_before(self, els: Seq<DeltaElement>, n: int)
        requires
            0 <= n <= els.len(),
        ensures
            0 <= self.inserted_before(els.take(n)) <= self.inserted_before(els),
        decreases els.len(),
    {
        if n < els.len() {
            self.lemma_inserted_before(els.drop_last(), n);
            assert(els.drop_last().take(n) == els.take(n));
        } else if n > 0 {
            self.lemma_inserted_before(els.drop_last(), n - 1);
            assert(els.drop_last().take(n - 1) == els.drop_last());
            assert(els.take(n) == els);
        }
    }

    /// A single insertion or deletion that begins in the chunk leaves the chunk where it is.
    pub(crate) proof fn lemma_edit_stays(self, delta: Delta)
        requires
            self.is_edited_by(delta),
            self.offset >= 0,
        ensures
            self.inserted_before(delta.els@) == 0,
            self.removed_before(delta.els@) == 0,
            delta.edit_start() <= delta.edit_end() || delta.one_insertion() is Some,
            valid_utf8(self.text) && is_char_boundary(self.text, self.within(delta.edit_start()))
                && is_char_boundary(self.text, self.within(delta.edit_end())) && is_char_boundary(
                self.text,
                self.within(delta.base_len as int),
            ) ==> self.splits_at_chars(delta.els@),
    {
        reveal_with_fuel(copied_to, 4);
        reveal_with_fuel(Chunk::inserted_before, 4);
        reveal_with_fuel(Chunk::removed_before, 4);
        if valid_utf8(self.text) {
            is_char_boundary_start_end_of_seq(self.text);
        }
    }

    /// What a single insertion or deletion that begins in the chunk makes of the chunk, where the
    /// chunk lies in the document that is edited.
    pub(crate) proof fn lemma_edited(self, delta: Delta)
        requires
            self.is_edited_by(delta),
            self.offset >= 0,
            self.end() <= delta.base_len,
        ensures
            self.kept(delta.els@) == self.edited_text(delta),
    {
        let els = delta.els@;
        reveal_with_fuel(copied_to, 4);
        reveal_with_fuel(Chunk::kept, 4);
        assert(self.kept(els) == self.edited_text(delta));
    }

    /// What elements make of a chunk depends on its text and offset alone.
    pub(crate) proof fn lemma_kept_text_only(self, other: Chunk, els: Seq<DeltaElement>)
        requires
            self.offset == other.offset,
            self.text == other.text,
        ensures
            self.kept(els) == other.kept(els),
        decreases els.len(),
    {
        if els.len() > 0 {
            self.lemma_kept_text_only(other, els.drop_last());
        }
    }

    /// A line starts at a character boundary of the chunk.
    pub(crate) proof fn lemma_cached_boundary(self, line: int)
        requires
            self.consistent(),
            valid_utf8(self.text),
            self.cached_offset(line) is Some,
        ensures
            is_char_boundary(self.text, self.cached_offset(line)->0),
            0 <= self.cached_offset(line)->0 <= self.text.len(),
    {
        lemma_line_starts(self.text);
        is_char_boundary_start_end_of_seq(self.text);
        let rel = line - self.first_line;
        if 0 < rel <= self.line_offsets.len() {
            lemma_boundary_after_newline(self.text, self.line_offsets[rel - 1] - 1);
        }
    }

    /// A line starts no later than the next one.
    pub(crate) proof fn lemma_cached_order(self, line: int)
        requires
            self.consistent(),
            self.cached_offset(line) is Some,
            self.cached_offset(line + 1) is Some,
        ensures
            self.cached_offset(line)->0 <= self.cached_offset(line + 1)->0,
    {
        lemma_line_starts(self.text);
    }

    /// Nothing trimmed off, and nothing appended.
    pub(crate) proof fn lemma_nothing_changed(self)
        requires
            self.consistent(),
        ensures
            self.trimmed(0) == self,
            self.appended(seq![]) == self,
    {
        assert(self.text.take(0) == Seq::<u8>::empty());
        assert(self.text.skip(0) == self.text);
        assert(self.text + Seq::<u8>::empty() == self.text);
    }
}

} // verus!
