//! Query datatypes.
//!
//! The database can be queried, and will give a `QueryResult` back.

use crate::time::{Resolution, TimeSpan, TimeStamp};
use vstd::prelude::*;

verus! {

/// A request for the data of a trace in a time interval.
#[derive(Debug)]
pub struct Query {
    pub interval: TimeSpan,
    pub resolution: Resolution,
    /// The minimum number of items wanted in the result.
    pub amount: usize,
}

impl Query {
    pub fn create() -> (r: QueryBuilder)
        ensures
            r.spec_start() is None,
            r.spec_end() is None,
            r.spec_amount() == 10,
    {
        QueryBuilder::new()
    }

    pub fn new(interval: TimeSpan, resolution: Resolution, amount: usize) -> (r: Self)
        ensures
            r.interval == interval,
            r.resolution == resolution,
            r.amount == amount,
    {
        Query { interval, resolution, amount }
    }
}

/// Step by step construction of a `Query`.
pub struct QueryBuilder {
    start: Option<TimeStamp>,
    end: Option<TimeStamp>,
    amount: usize,
}

impl QueryBuilder {
    /// The start of the interval, once chosen.
    pub closed spec fn spec_start(&self) -> Option<TimeStamp> {
        self.start
    }

    /// The end of the interval, once chosen.
    pub closed spec fn spec_end(&self) -> Option<TimeStamp> {
        self.end
    }

    /// The minimum amount of results wanted.
    pub closed spec fn spec_amount(&self) -> usize {
        self.amount
    }

    fn new() -> (r: Self)
        ensures
            r.spec_start() is None,
            r.spec_end() is None,
            r.spec_amount() == 10,
    {
        QueryBuilder { start: None, end: None, amount: 10 }
    }

    /// Select the start point for this query!
    pub fn start(self, start: TimeStamp) -> (r: Self)
        ensures
            r.spec_start() == Some(start),
            r.spec_end() == self.spec_end(),
            r.spec_amount() == self.spec_amount(),
    {
        let mut b = self;
        b.start = Some(start);
        b
    }

    /// Select the end timestamp for this query!
    pub fn end(self, end: TimeStamp) -> (r: Self)
        ensures
            r.spec_start() == self.spec_start(),
            r.spec_end() == Some(end),
            r.spec_amount() == self.spec_amount(),
    {
        let mut b = self;
        b.end = Some(end);
        b
    }

    /// Select this time period for query.
    pub fn span(self, timespan: &TimeSpan) -> (r: Self)
        ensures
            r.spec_start() == Some(timespan.start),
            r.spec_end() == Some(timespan.end),
            r.spec_amount() == self.spec_amount(),
    {
        let mut b = self;
        b.start = Some(timespan.start);
        b.end = Some(timespan.end);
        b
    }

    /// Select the minimum amount of results we want.
    pub fn amount(self, amount: usize) -> (r: Self)
        ensures
            r.spec_start() == self.spec_start(),
            r.spec_end() == self.spec_end(),
            r.spec_amount() == amount,
    {
        let mut b = self;
        b.amount = amount;
        b
    }

    /// Finish building the query, and construct it!
    ///
    /// Both ends of the interval must have been chosen.
    pub fn build(self) -> (r: Query)
        requires
            (self.spec_start() is Some),
            (self.spec_end() is Some),
        ensures
            r.interval == (TimeSpan { start: self.spec_start()->0, end: self.spec_end()->0 }),
            r.resolution == Resolution::NanoSeconds,
            r.amount == self.spec_amount(),
    {
        let start = self.start.unwrap();
        let end = self.end.unwrap();
        let interval = TimeSpan::new(start, end);
        Query::new(interval, Resolution::NanoSeconds, self.amount)
    }
}

} // verus!
