use vstd::prelude::*;

verus! {

/// A closed time interval `[start, end]`, in milliseconds since the Unix
/// epoch, used to filter a journal's events before aggregation.
#[derive(Clone, Copy, PartialEq, Eq, Structural, Debug)]
pub struct TimeSpan {
    pub start: i64,
    pub end: i64,
}

impl TimeSpan {
    /// Whether a point in time lies within the closed interval.
    pub open spec fn spec_contains(self, t: int) -> bool {
        self.start <= t && t <= self.end
    }

    pub fn new(start: i64, end: i64) -> (s: TimeSpan)
        ensures
            s.start == start,
            s.end == end,
    {
        TimeSpan { start, end }
    }

    pub fn contains(&self, t: i64) -> (b: bool)
        ensures
            b == self.spec_contains(t as int),
    {
        self.start <= t && t <= self.end
    }
}

} // verus!
