use vstd::prelude::*;

verus! {

/// A half-open interval `[start, end)` over an ordered integer domain.
/// A point `q` lies inside exactly when `start <= q < end`.
/// Callers are expected to supply `start <= end`; a zero-length span
/// (`start == end`) covers no point at all.
#[derive(Clone, Copy, PartialEq, Eq, Structural, Debug, Hash)]
pub struct SimpleSpan {
    pub start: i64,
    pub end: i64,
}

impl SimpleSpan {
    /// The span is well formed: its start does not exceed its end.
    pub open spec fn wf(self) -> bool {
        self.start <= self.end
    }

    /// The set of points the span covers.
    pub open spec fn covers(self, q: i64) -> bool {
        self.start <= q < self.end
    }

    /// Builds a span from its two endpoints.
    pub fn new(start: i64, end: i64) -> (r: SimpleSpan)
        ensures
            r.start == start,
            r.end == end,
    {
        SimpleSpan { start, end }
    }

    /// The first point of the span.
    pub fn start(&self) -> (r: i64)
        ensures
            r == self.start,
    {
        self.start
    }

    /// The first point past the span.
    pub fn end(&self) -> (r: i64)
        ensures
            r == self.end,
    {
        self.end
    }

    /// Whether `query` lies inside the half-open interval.
    pub fn contains(&self, query: i64) -> (r: bool)
        ensures
            r == self.covers(query),
    {
        self.start <= query && query < self.end
    }
}

} // verus!
