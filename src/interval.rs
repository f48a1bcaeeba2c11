//! Integer intervals, open or closed at either end, and their iteration in
//! increasing order.
use vstd::prelude::*;

verus! {

#[derive(Clone, Copy, Debug, PartialEq, Eq, Structural)]
pub enum IntervalType {
    /// `(a, b)`
    Open,
    /// `[a, b]`
    Closed,
    /// `[a, b)`
    Range,
    /// `(a, b]`
    OpenClosed,
}

/// An interval between `start <= end`.
#[derive(Clone, Copy, Debug, PartialEq, Eq, Structural)]
pub struct Interval {
    pub start: i64,
    pub end: i64,
    pub rtype: IntervalType,
}

/// The smaller and the larger of `a` and `b`.
fn minmax(a: i64, b: i64) -> (r: (i64, i64))
    ensures
        r.0 <= r.1,
        (r.0 == a && r.1 == b) || (r.0 == b && r.1 == a),
{
    if a < b {
        (a, b)
    } else {
        (b, a)
    }
}

/// `(a, b)`, with the ends put in order.
pub fn open(a: i64, b: i64) -> (r: Interval)
    ensures
        r.rtype == IntervalType::Open,
        r.start == if a < b { a } else { b },
        r.end == if a < b { b } else { a },
{
    let (min, max) = minmax(a, b);
    Interval { start: min, end: max, rtype: IntervalType::Open }
}

/// `[a, b]`, with the ends put in order.
pub fn closed(a: i64, b: i64) -> (r: Interval)
    ensures
        r.rtype == IntervalType::Closed,
        r.start == if a < b { a } else { b },
        r.end == if a < b { b } else { a },
{
    let (min, max) = minmax(a, b);
    Interval { start: min, end: max, rtype: IntervalType::Closed }
}

/// `[a, b)`, with the ends put in order.
pub fn range(a: i64, b: i64) -> (r: Interval)
    ensures
        r.rtype == IntervalType::Range,
        r.start == if a < b { a } else { b },
        r.end == if a < b { b } else { a },
{
    let (min, max) = minmax(a, b);
    Interval { start: min, end: max, rtype: IntervalType::Range }
}

/// `(a, b]`, with the ends put in order.
pub fn open_closed(a: i64, b: i64) -> (r: Interval)
    ensures
        r.rtype == IntervalType::OpenClosed,
        r.start == if a < b { a } else { b },
        r.end == if a < b { b } else { a },
{
    let (min, max) = minmax(a, b);
    Interval { start: min, end: max, rtype: IntervalType::OpenClosed }
}

impl Interval {
    /// The interval holds its start.
    pub open spec fn has_start(&self) -> bool {
        self.rtype == IntervalType::Closed || self.rtype == IntervalType::Range
    }

    /// The interval holds its end.
    pub open spec fn has_end(&self) -> bool {
        self.rtype == IntervalType::Closed || self.rtype == IntervalType::OpenClosed
    }

    /// The interval holds `v`.
    pub open spec fn contains(&self, v: int) -> bool {
        &&& (if self.has_start() { self.start <= v } else { self.start < v })
        &&& (if self.has_end() { v <= self.end } else { v < self.end })
    }

    /// An iterator over the integers of the interval, in increasing order.
    pub fn iter(&self) -> (r: IntervalIter)
        requires
            self.start <= self.end,
            !self.has_start() ==> self.start < i64::MAX,
            self.has_end() ==> self.end < i64::MAX,
        ensures
            r.state == if self.has_start() { self.start as int } else { self.start + 1 },
            r.range == *self,
            r.wf(),
    {
        match self.rtype {
            IntervalType::Range | IntervalType::Closed => IntervalIter { state: self.start, range: *self },
            IntervalType::Open | IntervalType::OpenClosed => IntervalIter {
                state: self.start + 1,
                range: *self,
            },
        }
    }
}

/// The iteration of an interval: `state` is the next value to hand out.
pub struct IntervalIter {
    pub state: i64,
    pub range: Interval,
}

impl IntervalIter {
    pub open spec fn wf(&self) -> bool {
        &&& self.range.has_end() ==> self.range.end < i64::MAX
        &&& self.range.start <= self.state
        &&& !self.range.has_start() ==> self.range.start < self.state
        &&& self.state <= self.range.end + 1
    }

    /// The next integer of the interval, if any is left.
    pub fn next(&mut self) -> (r: Option<i64>)
        requires
            old(self).wf(),
        ensures
            final(self).wf(),
            final(self).range == old(self).range,
            old(self).range.contains(old(self).state as int) ==> r == Some(old(self).state)
                && final(self).state == old(self).state + 1,
            !old(self).range.contains(old(self).state as int) ==> r.is_none() && final(self).state
                == old(self).state,
    {
        match self.range.rtype {
            IntervalType::Range | IntervalType::Open => {
                if self.state < self.range.end {
                    let result = self.state;
                    self.state = self.state + 1;
                    Some(result)
                } else {
                    None
                }
            },
            IntervalType::Closed | IntervalType::OpenClosed => {
                if self.state <= self.range.end {
                    let result = self.state;
                    self.state = self.state + 1;
                    Some(result)
                } else {
                    None
                }
            },
        }
    }
}

} // verus!
