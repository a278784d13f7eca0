//! Summaries of the tracks of the database.

use crate::observations::aggregation::Aggregation;
use crate::observations::metrics::{CountMetrics, Metrics};
use crate::observations::observation::Observation;
use crate::observations::profile::ProfileEvent;
use crate::observations::text::Text;
use crate::time::{TimeSpan, TimeStamp};
use vstd::prelude::*;

verus! {

/// Data summary
pub enum Summary<S, SM> where SM: Metrics<S> + From<S> {
    Value(Aggregation<S, SM>),
    Text(Aggregation<Text, CountMetrics>),
    Profile(Aggregation<ProfileEvent, CountMetrics>),
}

impl<S, SM> Summary<S, SM> where SM: Metrics<S> + From<S> {
    /// The number of observations summarised.
    pub open spec fn spec_count(self) -> usize {
        match self {
            Summary::Value(summary) => summary.count,
            Summary::Text(summary) => summary.count,
            Summary::Profile(summary) => summary.count,
        }
    }

    /// The time span of the observations summarised.
    pub open spec fn spec_timespan(self) -> TimeSpan {
        match self {
            Summary::Value(summary) => summary.timespan,
            Summary::Text(summary) => summary.timespan,
            Summary::Profile(summary) => summary.timespan,
        }
    }

    pub fn count(&self) -> (r: usize)
        ensures
            r == self.spec_count(),
    {
        match self {
            Summary::Value(summary) => summary.count,
            Summary::Text(summary) => summary.count,
            Summary::Profile(summary) => summary.count,
        }
    }

    pub fn timespan(&self) -> (r: &TimeSpan)
        ensures
            *r == self.spec_timespan(),
    {
        match self {
            Summary::Value(summary) => &summary.timespan,
            Summary::Text(summary) => &summary.timespan,
            Summary::Profile(summary) => &summary.timespan,
        }
    }
}

/// The last observation of a track.
#[derive(Debug, Clone)]
pub enum LastValue<S> {
    Value(Observation<S>),
    Text(Observation<Text>),
    Profile(Observation<ProfileEvent>),
}

impl<S> LastValue<S> {
    /// The time of the last observation.
    pub open spec fn spec_timestamp(self) -> TimeStamp {
        match self {
            LastValue::Value(last) => last.timestamp,
            LastValue::Text(last) => last.timestamp,
            LastValue::Profile(last) => last.timestamp,
        }
    }
}

/// Less detailed summary, but easier to keep track of.
#[derive(Debug, Clone)]
pub struct QuickSummary<S> {
    pub count: usize,
    pub last: LastValue<S>,
}

impl<S> QuickSummary<S> {
    pub fn new_value(count: usize, last: Observation<S>) -> (r: Self)
        ensures
            r.count == count,
            r.last == LastValue::Value(last),
    {
        QuickSummary { count, last: LastValue::Value(last) }
    }

    pub fn new_text(count: usize, last: Observation<Text>) -> (r: Self)
        ensures
            r.count == count,
            r.last == LastValue::<S>::Text(last),
    {
        QuickSummary { count, last: LastValue::Text(last) }
    }

    pub fn new_profile(count: usize, last: Observation<ProfileEvent>) -> (r: Self)
        ensures
            r.count == count,
            r.last == LastValue::<S>::Profile(last),
    {
        QuickSummary { count, last: LastValue::Profile(last) }
    }

    pub fn last_timestamp(&self) -> (r: &TimeStamp)
        ensures
            *r == self.last.spec_timestamp(),
    {
        match &self.last {
            LastValue::Value(last) => &last.timestamp,
            LastValue::Text(last) => &last.timestamp,
            LastValue::Profile(last) => &last.timestamp,
        }
    }
}

} // verus!
