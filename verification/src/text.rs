//! Offsets and ranges in a text, counted in bytes.

use vstd::prelude::*;

verus! {

/// An offset into a text, or a length, in bytes.
#[derive(Debug, Clone, Copy, PartialEq, Eq, Structural, Hash)]
pub struct TextUnit(pub u32);

/// The part of a text from `start` up to, not including, `end`.
#[derive(Debug, Clone, Copy, PartialEq, Eq, Structural, Hash)]
pub struct TextRange {
    start: u32,
    end: u32,
}

impl TextRange {
    /// Where the range starts.
    pub closed spec fn start_spec(self) -> int {
        self.start as int
    }

    /// Where the range ends.
    pub closed spec fn end_spec(self) -> int {
        self.end as int
    }

    /// A range never ends before it starts.
    pub closed spec fn wf(self) -> bool {
        self.start <= self.end
    }

    /// The range between two offsets.
    pub fn from_to(start: TextUnit, end: TextUnit) -> (r: TextRange)
        requires
            start.0 <= end.0,
        ensures
            r.wf(),
            r.start_spec() == start.0,
            r.end_spec() == end.0,
    {
        TextRange { start: start.0, end: end.0 }
    }

    /// The range of the given length from an offset.
    pub fn from_len(start: TextUnit, len: TextUnit) -> (r: TextRange)
        requires
            start.0 + len.0 <= u32::MAX,
        ensures
            r.wf(),
            r.start_spec() == start.0,
            r.end_spec() == start.0 + len.0,
    {
        TextRange { start: start.0, end: start.0 + len.0 }
    }

    /// Where the range starts.
    pub fn start(&self) -> (at: TextUnit)
        ensures
            at.0 == self.start_spec(),
    {
        TextUnit(self.start)
    }

    /// Where the range ends.
    pub fn end(&self) -> (at: TextUnit)
        ensures
            at.0 == self.end_spec(),
    {
        TextUnit(self.end)
    }

    /// The length of the range.
    pub fn len(&self) -> (n: TextUnit)
        requires
            self.wf(),
        ensures
            n.0 == self.end_spec() - self.start_spec(),
    {
        TextUnit(self.end - self.start)
    }
}

} // verus!
