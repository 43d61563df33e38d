//! Byte offsets and ranges into source text.
use vstd::prelude::*;

verus! {

/// A range of byte offsets `[start, end)` into a source file.
#[derive(Debug, Clone, Copy, PartialEq, Eq, Hash, Default, Structural)]
pub struct TextRange {
    pub start: u32,
    pub end: u32,
}

impl TextRange {
    /// Whether the range is well formed: it does not end before it starts.
    pub open spec fn wf(self) -> bool {
        self.start <= self.end
    }

    /// Creates the range `[start, end)`.
    pub fn new(start: u32, end: u32) -> (r: Self)
        requires
            start <= end,
        ensures
            r.start == start,
            r.end == end,
    {
        TextRange { start, end }
    }

    /// The empty range at offset zero, which marks a diagnostic that applies to a whole file.
    pub fn file_level() -> (r: Self)
        ensures
            r.start == 0,
            r.end == 0,
    {
        TextRange { start: 0, end: 0 }
    }

    /// Returns the length of the range.
    pub fn len(&self) -> (n: u32)
        requires
            self.wf(),
        ensures
            n == self.end - self.start,
    {
        self.end - self.start
    }

    /// Returns whether `offset` lies in the range, its end excluded.
    pub fn contains(&self, offset: u32) -> (b: bool)
        ensures
            b == (self.start <= offset && offset < self.end),
    {
        self.start <= offset && offset < self.end
    }

    /// Returns whether `offset` lies in the range, its end included.
    pub fn contains_inclusive(&self, offset: u32) -> (b: bool)
        ensures
            b == (self.start <= offset && offset <= self.end),
    {
        self.start <= offset && offset <= self.end
    }

    /// Returns whether `other` lies within this range.
    pub fn contains_range(&self, other: TextRange) -> (b: bool)
        ensures
            b == (self.start <= other.start && other.end <= self.end),
    {
        self.start <= other.start && other.end <= self.end
    }
}

} // verus!
