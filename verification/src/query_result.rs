//! Results of range queries on a trace.

use crate::observations::aggregation::Aggregation;
use crate::observations::metrics::{CountMetrics, Metrics};
use crate::observations::observation::Observation;
use crate::observations::profile::ProfileEvent;
use crate::observations::text::Text;
use vstd::prelude::*;

verus! {

/// Inner results, can be either a series of single
/// observations, or a series of aggregate observations.
#[derive(Debug)]
pub enum RangeQueryResult<V, M> where M: Metrics<V> + From<V> {
    Observations(Vec<Observation<V>>),
    Aggregations(Vec<Aggregation<V, M>>),
}

impl<V, M> RangeQueryResult<V, M> where M: Metrics<V> + From<V> {
    /// The number of items in the result.
    pub open spec fn spec_len(self) -> nat {
        match self {
            RangeQueryResult::Observations(observations) => observations@.len(),
            RangeQueryResult::Aggregations(aggregations) => aggregations@.len(),
        }
    }

    pub fn len(&self) -> (r: usize)
        ensures
            r == self.spec_len(),
    {
        match self {
            RangeQueryResult::Observations(observations) => observations.len(),
            RangeQueryResult::Aggregations(aggregations) => aggregations.len(),
        }
    }
}

/// This holds the result of a query to the database.
/// The result can be several things, depending upon query type.
/// It can be min/max/mean slices, or single values, if the data is present at the
/// proper resolution.
#[derive(Debug)]
pub enum QueryResult<S, SM> where SM: Metrics<S> + From<S> {
    Value(RangeQueryResult<S, SM>),
    Text(RangeQueryResult<Text, CountMetrics>),
    Profile(RangeQueryResult<ProfileEvent, CountMetrics>),
}

impl<S, SM> QueryResult<S, SM> where SM: Metrics<S> + From<S> {
    /// The number of items in the result.
    pub open spec fn spec_len(self) -> nat {
        match self {
            QueryResult::Value(r) => r.spec_len(),
            QueryResult::Text(r) => r.spec_len(),
            QueryResult::Profile(r) => r.spec_len(),
        }
    }

    pub fn len(&self) -> (r: usize)
        ensures
            r == self.spec_len(),
    {
        match self {
            QueryResult::Value(r) => r.len(),
            QueryResult::Text(r) => r.len(),
            QueryResult::Profile(r) => r.len(),
        }
    }
}

} // verus!
