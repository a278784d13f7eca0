use crate::time::{TimeStamp, TimeSpan};
use vstd::multiset::Multiset;
use vstd::prelude::*;

verus! {

/// A single observation at some point in time.
#[derive(Debug)]
pub struct Observation<V> {
    /// The timestamp when the observation was made.
    pub timestamp: TimeStamp,
    /// The observed value.
    pub value: V,
}

impl<V> Observation<V> {
    /// Create a new observation at a given time.
    pub fn new(timestamp: TimeStamp, value: V) -> (r: Self)
        ensures
            r.timestamp == timestamp,
            r.value == value,
    {
        Observation { timestamp, value }
    }
}

impl<V: Clone> Clone for Observation<V> {
    fn clone(&self) -> (r: Self)
        ensures
            r.timestamp == self.timestamp,
            cloned(self.value, r.value),
    {
        Observation { timestamp: self.timestamp, value: self.value.clone() }
    }
}

/// `b` is a copy of observation `a`: same timestamp, and a clone of its value.
pub open spec fn is_copy_of<V: Clone>(a: Observation<V>, b: Observation<V>) -> bool {
    a.timestamp == b.timestamp && cloned(a.value, b.value)
}

/// `c` is a copy of a copy of observation `a`.
pub open spec fn is_copy_of_copy<V: Clone>(a: Observation<V>, c: Observation<V>) -> bool {
    exists|b: Observation<V>| is_copy_of(a, b) && is_copy_of(b, c)
}

/// `t` is elementwise a copy of `s`.
pub open spec fn are_copies_of<V: Clone>(s: Seq<Observation<V>>, t: Seq<Observation<V>>) -> bool {
    s.len() == t.len() && forall|i: int| 0 <= i < s.len() ==> is_copy_of(#[trigger] s[i], t[i])
}

/// The timestamps of a sequence of observations, in order.
pub open spec fn timestamps_of<V>(s: Seq<Observation<V>>) -> Seq<TimeStamp> {
    s.map_values(|o: Observation<V>| o.timestamp)
}

/// The observations of `s` whose timestamp lies in `span`, in order.
pub open spec fn in_span<V>(s: Seq<Observation<V>>, span: TimeSpan) -> Seq<Observation<V>>
    decreases s.len(),
{
    if s.len() == 0 {
        s
    } else if span.spec_contains(s.last().timestamp) {
        in_span(s.drop_last(), span).push(s.last())
    } else {
        in_span(s.drop_last(), span)
    }
}

/// The observations are in time order.
pub open spec fn sorted<V>(s: Seq<Observation<V>>) -> bool {
    forall|i: int, j: int| 0 <= i <= j < s.len() ==> (#[trigger] s[i]).timestamp.nanos <= (#[trigger] s[j]).timestamp.nanos
}

/// Every observation of `s` lies in `span`.
pub open spec fn all_in_span<V>(s: Seq<Observation<V>>, span: TimeSpan) -> bool {
    forall|i: int| 0 <= i < s.len() ==> span.spec_contains(#[trigger] s[i].timestamp)
}

/// Selecting the observations in a span commutes with concatenation.
pub proof fn lemma_in_span_concat<V>(s: Seq<Observation<V>>, t: Seq<Observation<V>>, span: TimeSpan)
    ensures
        in_span(s + t, span) == in_span(s, span) + in_span(t, span),
    decreases t.len(),
{
    if t.len() == 0 {
        assert(s + t =~= s);
        assert(in_span(s, span) + in_span(t, span) =~= in_span(s, span));
    } else {
        lemma_in_span_concat(s, t.drop_last(), span);
        assert((s + t).drop_last() =~= s + t.drop_last());
        assert((s + t).last() == t.last());
        if span.spec_contains(t.last().timestamp) {
            assert(in_span(s, span) + in_span(t.drop_last(), span).push(t.last())
                =~= (in_span(s, span) + in_span(t.drop_last(), span)).push(t.last()));
        }
    }
}

/// Taking the timestamps commutes with appending.
pub proof fn lemma_timestamps_push<V>(s: Seq<Observation<V>>, o: Observation<V>)
    ensures
        timestamps_of(s.push(o)) == timestamps_of(s).push(o.timestamp),
{
    assert(timestamps_of(s.push(o)) =~= timestamps_of(s).push(o.timestamp));
}

/// Taking the timestamps commutes with concatenation.
pub proof fn lemma_timestamps_concat<V>(s: Seq<Observation<V>>, t: Seq<Observation<V>>)
    ensures
        timestamps_of(s + t) == timestamps_of(s) + timestamps_of(t),
{
    assert(timestamps_of(s + t) =~= timestamps_of(s) + timestamps_of(t));
}

/// Copies of a sequence have the same timestamps.
pub proof fn lemma_copies_timestamps<V: Clone>(s: Seq<Observation<V>>, t: Seq<Observation<V>>)
    requires
        are_copies_of(s, t),
    ensures
        timestamps_of(s) == timestamps_of(t),
{
    assert forall|i: int| 0 <= i < s.len() implies #[trigger] timestamps_of(s)[i] == timestamps_of(t)[i] by {
        assert(is_copy_of(s[i], t[i]));
    }
    assert(timestamps_of(s) =~= timestamps_of(t));
}

/// The timestamps of a sequence of observations, regardless of order.
pub open spec fn timestamp_bag<V>(s: Seq<Observation<V>>) -> Multiset<TimeStamp> {
    timestamps_of(s).to_multiset()
}

/// The timestamps of a concatenation are those of both parts.
pub proof fn lemma_bag_concat<V>(a: Seq<Observation<V>>, b: Seq<Observation<V>>)
    ensures
        timestamp_bag(a + b) == timestamp_bag(a).add(timestamp_bag(b)),
{
    lemma_timestamps_concat(a, b);
    vstd::seq_lib::lemma_multiset_commutative(timestamps_of(a), timestamps_of(b));
}

/// There are never more observations in a span than observations.
pub proof fn lemma_in_span_len<V>(s: Seq<Observation<V>>, t: TimeSpan)
    ensures
        in_span(s, t).len() <= s.len(),
    decreases s.len(),
{
    if s.len() > 0 {
        lemma_in_span_len(s.drop_last(), t);
    }
}

/// When a span holds every observation, selecting that span selects all of
/// them.
pub proof fn lemma_covering_span<V>(s: Seq<Observation<V>>, span: TimeSpan)
    requires
        all_in_span(s, span),
    ensures
        in_span(s, span) == s,
    decreases s.len(),
{
    if s.len() > 0 {
        assert(span.spec_contains(s[s.len() - 1].timestamp));
        lemma_covering_span(s.drop_last(), span);
        assert(s.drop_last().push(s.last()) =~= s);
    }
}

/// Two adjacent spans, the second starting right after the first ends, hold
/// between them as many observations as the span from the start of the
/// first to the end of the second.
pub proof fn lemma_adjacent_spans<V>(s: Seq<Observation<V>>, first: TimeSpan, second: TimeSpan)
    requires
        first.start.nanos <= first.end.nanos,
        second.start.nanos <= second.end.nanos,
        first.end.nanos + 1 == second.start.nanos,
    ensures
        in_span(s, TimeSpan { start: first.start, end: second.end }).len()
            == in_span(s, first).len() + in_span(s, second).len(),
    decreases s.len(),
{
    if s.len() > 0 {
        lemma_adjacent_spans(s.drop_last(), first, second);
    }
}

} // verus!
