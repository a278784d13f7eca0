//! Points in time and closed intervals of time.
//!
//! A timestamp counts nanoseconds on the time axis of the data; the axis may
//! start anywhere, so timestamps may be negative.

use vstd::prelude::*;

verus! {

/// Number of nanoseconds in one second.
pub const NANOS_PER_SECOND: i64 = 1_000_000_000;

/// Number of nanoseconds in one millisecond.
pub const NANOS_PER_MILLI: i64 = 1_000_000;

/// A point in time, counted in nanoseconds.
#[derive(Clone, Copy, Debug, PartialEq, Eq, Structural)]
pub struct TimeStamp {
    pub nanos: i64,
}

impl TimeStamp {
    /// Create a timestamp from a number of nanoseconds.
    pub fn new(nanos: i64) -> (r: Self)
        ensures
            r.nanos == nanos,
    {
        TimeStamp { nanos }
    }

    /// Create a timestamp at a whole number of seconds.
    pub fn from_seconds(seconds: i64) -> (r: Self)
        requires
            i64::MIN <= seconds * NANOS_PER_SECOND <= i64::MAX,
        ensures
            r.nanos == seconds * NANOS_PER_SECOND,
    {
        TimeStamp { nanos: seconds * NANOS_PER_SECOND }
    }

    /// This timestamp moved by a (possibly negative) number of milliseconds.
    pub fn add_millis(&self, millis: i64) -> (r: Self)
        requires
            i64::MIN <= millis * NANOS_PER_MILLI <= i64::MAX,
            i64::MIN <= self.nanos + millis * NANOS_PER_MILLI <= i64::MAX,
        ensures
            r.nanos == self.nanos + millis * NANOS_PER_MILLI,
    {
        TimeStamp { nanos: self.nanos + millis * NANOS_PER_MILLI }
    }

    /// Whether this timestamp lies strictly before `other`.
    pub fn is_before(&self, other: &TimeStamp) -> (r: bool)
        ensures
            r == (self.nanos < other.nanos),
    {
        self.nanos < other.nanos
    }
}

/// The resolution at which a query asks for data.
#[derive(Clone, Copy, Debug, PartialEq, Eq, Structural)]
pub enum Resolution {
    NanoSeconds,
}

/// The smaller of two timestamps.
pub open spec fn ts_min(a: TimeStamp, b: TimeStamp) -> TimeStamp {
    if a.nanos <= b.nanos { a } else { b }
}

/// The larger of two timestamps.
pub open spec fn ts_max(a: TimeStamp, b: TimeStamp) -> TimeStamp {
    if b.nanos <= a.nanos { a } else { b }
}

/// A closed interval of time, from `start` up to and including `end`.
#[derive(Clone, Copy, Debug, PartialEq, Eq, Structural)]
pub struct TimeSpan {
    pub start: TimeStamp,
    pub end: TimeStamp,
}

impl TimeSpan {
    /// The interval that holds exactly one point in time.
    pub open spec fn point(ts: TimeStamp) -> TimeSpan {
        TimeSpan { start: ts, end: ts }
    }

    /// Whether `ts` lies in this interval.
    pub open spec fn spec_contains(self, ts: TimeStamp) -> bool {
        self.start.nanos <= ts.nanos && ts.nanos <= self.end.nanos
    }

    /// Whether this interval and `other` share a point in time.
    pub open spec fn spec_overlap(self, other: TimeSpan) -> bool {
        self.start.nanos <= other.end.nanos && other.start.nanos <= self.end.nanos
    }

    /// Whether `other` lies entirely within this interval.
    pub open spec fn spec_covers(self, other: TimeSpan) -> bool {
        self.start.nanos <= other.start.nanos && other.end.nanos <= self.end.nanos
    }

    /// The smallest interval that holds this interval and `ts`.
    pub open spec fn spec_including(self, ts: TimeStamp) -> TimeSpan {
        TimeSpan { start: ts_min(self.start, ts), end: ts_max(self.end, ts) }
    }

    /// The smallest interval that holds this interval and `other`.
    pub open spec fn spec_including_span(self, other: TimeSpan) -> TimeSpan {
        TimeSpan { start: ts_min(self.start, other.start), end: ts_max(self.end, other.end) }
    }

    /// Create an interval from its two ends.
    pub fn new(start: TimeStamp, end: TimeStamp) -> (r: Self)
        ensures
            r.start == start,
            r.end == end,
    {
        TimeSpan { start, end }
    }

    /// The interval between two whole numbers of seconds.
    pub fn from_seconds(start: i64, end: i64) -> (r: Self)
        requires
            i64::MIN <= start * NANOS_PER_SECOND <= i64::MAX,
            i64::MIN <= end * NANOS_PER_SECOND <= i64::MAX,
        ensures
            r.start.nanos == start * NANOS_PER_SECOND,
            r.end.nanos == end * NANOS_PER_SECOND,
    {
        TimeSpan { start: TimeStamp::from_seconds(start), end: TimeStamp::from_seconds(end) }
    }

    /// Test whether the given timestamp lies in this interval.
    pub fn contains(&self, ts: &TimeStamp) -> (r: bool)
        ensures
            r == self.spec_contains(*ts),
    {
        self.start.nanos <= ts.nanos && ts.nanos <= self.end.nanos
    }

    /// Test whether this interval and `other` share a point in time.
    pub fn overlap(&self, other: &TimeSpan) -> (r: bool)
        ensures
            r == self.spec_overlap(*other),
    {
        self.start.nanos <= other.end.nanos && other.start.nanos <= self.end.nanos
    }

    /// Test whether `other` lies entirely within this interval.
    pub fn covers(&self, other: &TimeSpan) -> (r: bool)
        ensures
            r == self.spec_covers(*other),
    {
        self.start.nanos <= other.start.nanos && other.end.nanos <= self.end.nanos
    }

    /// Grow this interval, if needed, so that it holds `ts`.
    pub fn extend_to_include(&mut self, ts: &TimeStamp)
        ensures
            *final(self) == old(self).spec_including(*ts),
    {
        if ts.nanos < self.start.nanos {
            self.start = *ts;
        }
        if self.end.nanos < ts.nanos {
            self.end = *ts;
        }
    }

    /// Grow this interval, if needed, so that it holds `other`.
    pub fn extend_to_include_span(&mut self, other: &TimeSpan)
        ensures
            *final(self) == old(self).spec_including_span(*other),
    {
        if other.start.nanos < self.start.nanos {
            self.start = other.start;
        }
        if self.end.nanos < other.end.nanos {
            self.end = other.end;
        }
    }
}

/// `t` is the smallest interval that holds every timestamp of the non-empty
/// sequence `s`: all of them lie in `t`, and both ends of `t` occur in `s`.
pub open spec fn is_hull(t: TimeSpan, s: Seq<TimeStamp>) -> bool {
    &&& s.len() > 0
    &&& forall|i: int| 0 <= i < s.len() ==> t.spec_contains(#[trigger] s[i])
    &&& exists|i: int| 0 <= i < s.len() && s[i] == t.start
    &&& exists|j: int| 0 <= j < s.len() && s[j] == t.end
}

/// The interval around a single timestamp is its hull.
pub proof fn lemma_hull_point(ts: TimeStamp)
    ensures
        is_hull(TimeSpan::point(ts), seq![ts]),
{
    let s = seq![ts];
    assert(s[0] == ts);
}

/// Growing the hull of `s` to include `ts` gives the hull of `s` with `ts` appended.
pub proof fn lemma_hull_push(t: TimeSpan, s: Seq<TimeStamp>, ts: TimeStamp)
    requires
        is_hull(t, s),
    ensures
        is_hull(t.spec_including(ts), s.push(ts)),
{
    let u = t.spec_including(ts);
    let s2 = s.push(ts);
    assert forall|i: int| 0 <= i < s2.len() implies u.spec_contains(#[trigger] s2[i]) by {
        if i < s.len() {
            assert(s2[i] == s[i]);
            assert(t.spec_contains(s[i]));
        }
    }
    let i0 = choose|i: int| 0 <= i < s.len() && s[i] == t.start;
    let j0 = choose|j: int| 0 <= j < s.len() && s[j] == t.end;
    let n = s.len() as int;
    assert(s2[n] == ts);
    assert(s2[i0] == s[i0]);
    assert(s2[j0] == s[j0]);
    if ts.nanos < t.start.nanos {
        assert(s2[n] == u.start);
    } else {
        assert(s2[i0] == u.start);
    }
    if t.end.nanos < ts.nanos {
        assert(s2[n] == u.end);
    } else {
        assert(s2[j0] == u.end);
    }
}

/// Merging the hulls of two sequences gives the hull of their concatenation.
pub proof fn lemma_hull_concat(t1: TimeSpan, s1: Seq<TimeStamp>, t2: TimeSpan, s2: Seq<TimeStamp>)
    requires
        is_hull(t1, s1),
        is_hull(t2, s2),
    ensures
        is_hull(t1.spec_including_span(t2), s1 + s2),
{
    let u = t1.spec_including_span(t2);
    let s = s1 + s2;
    assert forall|i: int| 0 <= i < s.len() implies u.spec_contains(#[trigger] s[i]) by {
        if i < s1.len() {
            assert(s[i] == s1[i]);
            assert(t1.spec_contains(s1[i]));
        } else {
            assert(s[i] == s2[i - s1.len()]);
            assert(t2.spec_contains(s2[i - s1.len()]));
        }
    }
    let a1 = choose|i: int| 0 <= i < s1.len() && s1[i] == t1.start;
    let b1 = choose|j: int| 0 <= j < s1.len() && s1[j] == t1.end;
    let a2 = choose|i: int| 0 <= i < s2.len() && s2[i] == t2.start;
    let b2 = choose|j: int| 0 <= j < s2.len() && s2[j] == t2.end;
    assert(s[a1] == s1[a1]);
    assert(s[b1] == s1[b1]);
    assert(s[s1.len() + a2] == s2[a2]);
    assert(s[s1.len() + b2] == s2[b2]);
    if t1.start.nanos <= t2.start.nanos {
        assert(s[a1] == u.start);
    } else {
        assert(s[s1.len() + a2] == u.start);
    }
    if t2.end.nanos <= t1.end.nanos {
        assert(s[b1] == u.end);
    } else {
        assert(s[s1.len() + b2] == u.end);
    }
}

/// A sequence has at most one hull.
pub proof fn lemma_hull_unique(t1: TimeSpan, t2: TimeSpan, s: Seq<TimeStamp>)
    requires
        is_hull(t1, s),
        is_hull(t2, s),
    ensures
        t1 == t2,
{
    let a1 = choose|i: int| 0 <= i < s.len() && s[i] == t1.start;
    let b1 = choose|j: int| 0 <= j < s.len() && s[j] == t1.end;
    let a2 = choose|i: int| 0 <= i < s.len() && s[i] == t2.start;
    let b2 = choose|j: int| 0 <= j < s.len() && s[j] == t2.end;
    assert(t2.spec_contains(s[a1]));
    assert(t1.spec_contains(s[a2]));
    assert(t2.spec_contains(s[b1]));
    assert(t1.spec_contains(s[b2]));
}

/// Two sequences with the same timestamps, in any order, have the same hull.
pub proof fn lemma_hull_same_bag(t: TimeSpan, s1: Seq<TimeStamp>, s2: Seq<TimeStamp>)
    requires
        is_hull(t, s1),
        s1.to_multiset() == s2.to_multiset(),
    ensures
        is_hull(t, s2),
        s1.len() == s2.len(),
{
    broadcast use vstd::seq_lib::group_to_multiset_ensures;

    assert forall|i: int| 0 <= i < s2.len() implies t.spec_contains(#[trigger] s2[i]) by {
        assert(s2.contains(s2[i]));
        assert(s2.to_multiset().count(s2[i]) > 0);
        assert(s1.to_multiset().count(s2[i]) > 0);
        assert(s1.contains(s2[i]));
        let j = choose|j: int| 0 <= j < s1.len() && s1[j] == s2[i];
        assert(t.spec_contains(s1[j]));
    }
    let a = choose|i: int| 0 <= i < s1.len() && s1[i] == t.start;
    let b = choose|j: int| 0 <= j < s1.len() && s1[j] == t.end;
    assert(s1.contains(s1[a]));
    assert(s1.to_multiset().count(t.start) > 0);
    assert(s2.contains(t.start));
    assert(s1.contains(s1[b]));
    assert(s1.to_multiset().count(t.end) > 0);
    assert(s2.contains(t.end));
    assert(s1.len() == s1.to_multiset().len());
    assert(s2.len() == s2.to_multiset().len());
}

/// Growing a span to hold a timestamp gives a span that holds it and covers
/// the span it grew from.
pub proof fn lemma_including_holds(span: TimeSpan, ts: TimeStamp)
    ensures
        span.spec_including(ts).spec_contains(ts),
        span.spec_including(ts).spec_covers(span),
{
}

/// Growing a span to hold another gives a span that covers both.
pub proof fn lemma_including_span_covers(span: TimeSpan, other: TimeSpan)
    ensures
        span.spec_including_span(other).spec_covers(span),
        span.spec_including_span(other).spec_covers(other),
{
}

} // verus!
