//! Positions of tokens in the scanned text.

use vstd::prelude::*;

verus! {

/// A half-open range `[start, end)` of character indices, as a mathematical
/// value.
pub struct Span {
    pub start: int,
    pub end: int,
}

impl Span {
    /// A span is proper when it starts at an index and is not empty.
    pub open spec fn wf(self) -> bool {
        0 <= self.start < self.end
    }

    /// The number of characters in the range.
    pub open spec fn len(self) -> int {
        self.end - self.start
    }

    /// Whether index `i` lies in the range.
    pub open spec fn contains(self, i: int) -> bool {
        self.start <= i < self.end
    }

    /// The range of `size` characters that begins at `start`.
    pub open spec fn at(start: int, size: int) -> Span {
        Span { start, end: start + size }
    }
}

/// Where a token sits in the scanned text: a half-open range of character
/// indices.
#[derive(Debug, Clone, Copy, PartialEq, Eq)]
pub struct Location {
    start: usize,
    end: usize,
}

impl View for Location {
    type V = Span;

    closed spec fn view(&self) -> Span {
        Span { start: self.start as int, end: self.end as int }
    }
}

impl Location {
    /// The range of length one at `start`.
    pub fn new(start: usize) -> (loc: Location)
        requires
            start < usize::MAX,
        ensures
            loc@ == Span::at(start as int, 1),
            loc@.wf(),
    {
        Location { start, end: start + 1 }
    }

    /// The range that begins at `start` and ends where `self` ends. The end is
    /// not moved, so the result is a proper span only for a `start` before it.
    pub fn start(&self, start: usize) -> (loc: Location)
        ensures
            loc@ == (Span { start: start as int, end: self@.end }),
            loc@.wf() <==> start < self@.end,
    {
        Location { start, end: self.end }
    }

    /// The range of `size` characters that begins where `self` begins.
    pub fn with_size(&self, size: usize) -> (loc: Location)
        requires
            self@.start + size <= usize::MAX,
        ensures
            loc@ == Span::at(self@.start, size as int),
            loc@.wf() <==> size > 0,
    {
        Location { start: self.start, end: self.start + size }
    }

    /// Index of the first character of the range.
    pub fn start_index(&self) -> (i: usize)
        ensures
            i == self@.start,
    {
        self.start
    }

    /// Index just past the last character of the range.
    pub fn end_index(&self) -> (i: usize)
        ensures
            i == self@.end,
    {
        self.end
    }
}

/// Two locations over the same range are the same location.
pub proof fn lemma_location_determined(a: Location, b: Location)
    requires
        a@ == b@,
    ensures
        a == b,
{
}

} // verus!
