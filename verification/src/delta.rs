//! Edits of a document, as what they copy from it and what they insert.

use vstd::prelude::*;
use vstd::utf8::*;

verus! {

/// A piece of an edited document.
#[derive(Debug, Clone)]
pub enum DeltaElement {
    /// The bytes of the base document from the first offset up to the second.
    Copy(usize, usize),
    /// New text.
    Insert(String),
}

/// An edit of a document of `base_len` bytes. The edited document is its elements in order;
/// what no element copies is deleted.
#[derive(Debug, Clone)]
pub struct Delta {
    pub els: Vec<DeltaElement>,
    pub base_len: usize,
}

/// The end of the last range that `els` copies, or 0 where they copy none.
pub open spec fn copied_to(els: Seq<DeltaElement>) -> int
    decreases els.len(),
{
    if els.len() == 0 {
        0
    } else {
        match els.last() {
            DeltaElement::Copy(_, end) => end as int,
            DeltaElement::Insert(_) => copied_to(els.drop_last()),
        }
    }
}

/// The ranges that `els` copies lie in a document of `base_len` bytes and follow one another.
pub open spec fn ordered(els: Seq<DeltaElement>, base_len: int) -> bool
    decreases els.len(),
{
    els.len() > 0 ==> {
        &&& ordered(els.drop_last(), base_len)
        &&& els.last() matches DeltaElement::Copy(beg, end) ==> copied_to(els.drop_last()) <= beg
            <= end <= base_len
    }
}

/// The text that `els` make of the document `base`.
pub open spec fn assembled(els: Seq<DeltaElement>, base: Seq<u8>) -> Seq<u8>
    decreases els.len(),
{
    if els.len() == 0 {
        seq![]
    } else {
        assembled(els.drop_last(), base) + match els.last() {
            DeltaElement::Copy(beg, end) => base.subrange(beg as int, end as int),
            DeltaElement::Insert(s) => encode_utf8(s@),
        }
    }
}

/// The first of ordered ranges are ordered.
pub(crate) proof fn lemma_ordered_prefix(els: Seq<DeltaElement>, base_len: int, n: int)
    requires
        ordered(els, base_len),
        0 <= n <= els.len(),
    ensures
        ordered(els.take(n), base_len),
    decreases els.len(),
{
    if n < els.len() {
        lemma_ordered_prefix(els.drop_last(), base_len, n);
        assert(els.drop_last().take(n) == els.take(n));
    } else {
        assert(els.take(n) == els);
    }
}

impl Delta {
    /// The copied ranges lie in the base document and follow one another.
    pub open spec fn well_formed(&self) -> bool {
        ordered(self.els@, self.base_len as int)
    }

    /// The edited document.
    pub open spec fn apply(&self, base: Seq<u8>) -> Seq<u8> {
        assembled(self.els@, base)
    }

    /// Whether the delta begins with a copy of the start of the base document.
    pub open spec fn keeps_start(&self) -> bool {
        self.els@.len() > 0 && (self.els@[0] matches DeltaElement::Copy(beg, _) && beg == 0)
    }

    /// Whether the delta ends with a copy, other than that of the start, of the end of the base
    /// document.
    pub open spec fn keeps_end(&self) -> bool {
        &&& self.els@.len() > if self.keeps_start() { 1int } else { 0int }
        &&& self.els@.last() matches DeltaElement::Copy(_, end) && end == self.base_len
    }

    /// The offset in the base document up to which nothing changes.
    pub open spec fn edit_start(&self) -> int {
        if self.keeps_start() {
            self.els@[0]->Copy_1 as int
        } else {
            0
        }
    }

    /// The offset in the base document from which on nothing changes.
    pub open spec fn edit_end(&self) -> int {
        if self.keeps_end() {
            self.els@.last()->Copy_0 as int
        } else {
            self.base_len as int
        }
    }

    /// Whether the delta deletes one range and does nothing else.
    pub open spec fn deletes_one_range(&self) -> bool {
        let els = self.els@;
        if els.len() == 0 {
            self.base_len > 0
        } else if els.len() == 1 {
            els[0] matches DeltaElement::Copy(beg, end) && (if beg == 0 {
                end < self.base_len
            } else {
                end == self.base_len
            })
        } else {
            &&& els.len() == 2
            &&& els[0] matches DeltaElement::Copy(b0, e0) && b0 == 0 && (
            els[1] matches DeltaElement::Copy(b1, e1) && e0 < b1 && e1 == self.base_len)
        }
    }

    /// The text that the delta inserts, where it inserts one text and does nothing else.
    pub open spec fn one_insertion(&self) -> Option<String> {
        let els = self.els@;
        let at = if self.keeps_start() { 1int } else { 0int };
        if at < els.len() && (els[at] matches DeltaElement::Insert(_)) && (if els.len() == at + 1 {
            self.edit_start() == self.base_len
        } else {
            &&& els.len() == at + 2
            &&& els[at + 1] matches DeltaElement::Copy(beg, end) && beg == self.edit_start() && end
                == self.base_len
        }) {
            Some(els[at]->Insert_0)
        } else {
            None
        }
    }

    /// The bytes of the one text that the delta inserts, if it does.
    pub open spec fn inserted(&self) -> Seq<u8> {
        match self.one_insertion() {
            Some(s) => encode_utf8(s@),
            None => seq![],
        }
    }

    /// The interval of the base document outside of which nothing changes.
    pub fn interval(&self) -> (iv: (usize, usize))
        ensures
            iv.0 == self.edit_start(),
            iv.1 == self.edit_end(),
    {
        let len: usize = self.els.len();
        let mut first: usize = 0;
        let mut start: usize = 0;
        if len > 0 {
            match &self.els[0] {
                DeltaElement::Copy(beg, end) => {
                    if *beg == 0 {
                        start = *end;
                        first = 1;
                    }
                },
                DeltaElement::Insert(_) => {},
            }
        }
        let mut stop: usize = self.base_len;
        if len > first {
            match &self.els[len - 1] {
                DeltaElement::Copy(beg, end) => {
                    if *end == stop {
                        stop = *beg;
                    }
                },
                DeltaElement::Insert(_) => {},
            }
        }
        (start, stop)
    }

    /// Whether the delta is a single deletion without any insertion.
    pub fn is_simple_delete(&self) -> (b: bool)
        ensures
            b == self.deletes_one_range(),
    {
        let len: usize = self.els.len();
        if len == 0 {
            return self.base_len > 0;
        }
        match &self.els[0] {
            DeltaElement::Copy(beg, end) => {
                if len == 1 {
                    if *beg == 0 {
                        *end < self.base_len
                    } else {
                        *end == self.base_len
                    }
                } else if *beg != 0 || len != 2 {
                    false
                } else {
                    match &self.els[1] {
                        DeltaElement::Copy(b1, e1) => *end < *b1 && *e1 == self.base_len,
                        DeltaElement::Insert(_) => false,
                    }
                }
            },
            DeltaElement::Insert(_) => false,
        }
    }

    /// The inserted text, if the delta is a single insertion without any deletion.
    pub fn as_simple_insert(&self) -> (text: Option<&String>)
        ensures
            match text {
                Some(s) => self.one_insertion() == Some(*s),
                None => self.one_insertion() is None,
            },
    {
        let len: usize = self.els.len();
        let mut at: usize = 0;
        let mut pos: usize = 0;
        if len > 0 {
            match &self.els[0] {
                DeltaElement::Copy(beg, end) => {
                    if *beg != 0 {
                        return None;
                    }
                    pos = *end;
                    at = 1;
                },
                DeltaElement::Insert(_) => {},
            }
        }
        if at >= len {
            return None;
        }
        match &self.els[at] {
            DeltaElement::Insert(s) => {
                let rest: usize = len - at - 1;
                if rest == 0 {
                    if pos == self.base_len {
                        return Some(s);
                    }
                } else if rest == 1 {
                    match &self.els[at + 1] {
                        DeltaElement::Copy(beg, end) => {
                            if *beg == pos && *end == self.base_len {
                                return Some(s);
                            }
                        },
                        DeltaElement::Insert(_) => {},
                    }
                }
                None
            },
            DeltaElement::Copy(_, _) => None,
        }
    }
}

} // verus!
