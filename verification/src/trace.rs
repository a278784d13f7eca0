//! The core idea of the time series database:
//! split the sample sequence into batches.
//! This will result in a tree of chunks, each chunk having either sub chunks
//! or leaf chunks, with real data.
//! Also: keep track of certain metrics, such as min, max and sum.

use crate::btree::{is_window, Btree, ZoomAnswer, LEAVE_CHUNK_SIZE};
use crate::observations::aggregation::{lemma_summaries_agree, Aggregation};
use crate::observations::metrics::Metrics;
use crate::observations::observation::{
    all_in_span, are_copies_of, in_span, is_copy_of, is_copy_of_copy, lemma_covering_span, sorted, Observation,
};
use crate::query::Query;
use crate::query_result::RangeQueryResult;
use crate::time::TimeSpan;
use vstd::prelude::*;

verus! {

/// A trace is a single signal with a history in time.
pub struct Trace<V, M> where M: Metrics<V> + From<V> {
    tree: Btree<V, M>,
    count: usize,
    last: Option<Observation<V>>,
}

impl<V, M> View for Trace<V, M> where M: Metrics<V> + From<V> {
    type V = Seq<Observation<V>>;

    /// All observations of the trace, in the order in which they were added.
    closed spec fn view(&self) -> Seq<Observation<V>> {
        self.tree@
    }
}

impl<V: Clone, M> Trace<V, M> where M: Metrics<V> + From<V> + Clone {
    /// The trace is well formed.
    pub closed spec fn wf(&self) -> bool {
        &&& self.tree.wf()
        &&& self.count == self.tree@.len()
        &&& self.last is None <==> self.tree@.len() == 0
        &&& self.last matches Some(o) ==> is_copy_of(self.tree@.last(), o)
    }
}

/// `r` answers `query` on the observations `obs`: every observation in the
/// query interval is among the returned observations, or below exactly one of
/// the returned aggregations, of which there are at least as many as the
/// query asks for (or none). When the observations are in time order, the
/// returned observations are exactly those in the interval, and every
/// returned aggregation overlaps it and summarises a non-empty run of them,
/// the runs following each other without a gap, each but the last at least a
/// leave's worth; so the interval holds at least a leave's worth of
/// observations per aggregation between the first and the last. A trace of no more observations than a
/// leave of the tree holds answers with its observations in the interval.
pub open spec fn query_answers<V: Clone, M: Metrics<V> + From<V> + Clone>(
    obs: Seq<Observation<V>>,
    query: Query,
    r: RangeQueryResult<V, M>,
) -> bool {
    &&& r matches RangeQueryResult::Observations(os) ==> are_copies_of(
        in_span(obs, query.interval),
        in_span(os@, query.interval),
    )
    &&& r matches RangeQueryResult::Aggregations(aggs) ==> {
        &&& aggs@.len() >= query.amount || aggs@.len() == 0
        &&& exists|blocks: Seq<Seq<Observation<V>>>| {
            &&& blocks.len() == aggs@.len()
            &&& forall|i: int| 0 <= i < blocks.len() ==> (#[trigger] aggs@[i]).describes(blocks[i])
            &&& in_span(blocks.flatten(), query.interval) == in_span(obs, query.interval)
        }
    }
    &&& sorted(obs) ==> (r matches RangeQueryResult::Observations(os) ==> are_copies_of(
        in_span(obs, query.interval),
        os@,
    ))
    &&& sorted(obs) ==> (r matches RangeQueryResult::Aggregations(aggs) ==> forall|i: int|
        0 <= i < aggs@.len() ==> (#[trigger] aggs@[i]).timespan.spec_overlap(query.interval))
    &&& sorted(obs) ==> (r matches RangeQueryResult::Aggregations(aggs) ==> exists|blocks: Seq<Seq<Observation<V>>>| {
        &&& blocks.len() == aggs@.len()
        &&& forall|i: int| 0 <= i < blocks.len() ==> (#[trigger] aggs@[i]).describes(blocks[i])
        &&& forall|i: int| 0 <= i < blocks.len() ==> (#[trigger] blocks[i]).len() > 0
        &&& forall|i: int| 0 <= i < blocks.len() - 1 ==> (#[trigger] blocks[i]).len() >= LEAVE_CHUNK_SIZE
        &&& is_window(blocks.flatten(), obs)
        &&& in_span(blocks.flatten(), query.interval) == in_span(obs, query.interval)
    })
    &&& sorted(obs) ==> (r matches RangeQueryResult::Aggregations(aggs) ==> (aggs@.len() >= 2
        ==> in_span(obs, query.interval).len() >= (aggs@.len() - 2) * LEAVE_CHUNK_SIZE))
    &&& r is Observations ==> obs.len() <= LEAVE_CHUNK_SIZE || in_span(obs, query.interval).len() < query.amount
        * LEAVE_CHUNK_SIZE
    &&& obs.len() <= LEAVE_CHUNK_SIZE ==> (r matches RangeQueryResult::Observations(os) && are_copies_of(
        in_span(obs, query.interval),
        os@,
    ))
}

/// `r` is the answer `z` of the tree: an aggregation describing each block,
/// or copies of the observations.
pub open spec fn answers_at_zoom<V: Clone, M: Metrics<V> + From<V> + Clone>(
    z: ZoomAnswer<V>,
    r: RangeQueryResult<V, M>,
) -> bool {
    &&& z matches ZoomAnswer::Blocks(bs) ==> (r matches RangeQueryResult::Aggregations(aggs) && aggs@.len()
        == bs.len() && forall|i: int| 0 <= i < bs.len() ==> (#[trigger] aggs@[i]).describes(bs[i]))
    &&& z matches ZoomAnswer::Observations(os) ==> (r matches RangeQueryResult::Observations(ros)
        && are_copies_of(os, ros@))
}

/// A query over a span that holds observations, at least a leave's worth per
/// item that the query asks for, is answered with aggregations, at least as
/// many as asked for, once the observations fill more than one leave: the
/// answer goes no deeper than the amount asks.
pub proof fn lemma_query_aggregates<V: Clone, M: Metrics<V> + From<V> + Clone>(
    obs: Seq<Observation<V>>,
    query: Query,
    r: RangeQueryResult<V, M>,
)
    requires
        query_answers(obs, query, r),
        obs.len() > LEAVE_CHUNK_SIZE,
        in_span(obs, query.interval).len() > 0,
        in_span(obs, query.interval).len() >= query.amount * LEAVE_CHUNK_SIZE,
    ensures
        r matches RangeQueryResult::Aggregations(aggs) && aggs@.len() >= query.amount,
{
    if let RangeQueryResult::Aggregations(aggs) = r {
        if aggs@.len() == 0 {
            let blocks = choose|blocks: Seq<Seq<Observation<V>>>| {
                &&& blocks.len() == aggs@.len()
                &&& forall|i: int| 0 <= i < blocks.len() ==> (#[trigger] aggs@[i]).describes(blocks[i])
                &&& in_span(blocks.flatten(), query.interval) == in_span(obs, query.interval)
            };
            assert(blocks.flatten() =~= Seq::<Observation<V>>::empty());
        }
    }
}

impl<V, M> Trace<V, M> where V: Clone, M: Metrics<V> + From<V> + Clone {
    /// The answer to `query`, at the level of detail that its amount asks
    /// for (see `Btree::zoom_answer`).
    pub closed spec fn zoom_answer(&self, query: Query) -> ZoomAnswer<V> {
        self.tree.zoom_answer(query.interval, query.amount as nat)
    }

    /// An empty trace.
    pub fn new() -> (r: Self)
        ensures
            r.wf(),
            r@ == Seq::<Observation<V>>::empty(),
    {
        Trace { tree: Btree::new(), count: 0, last: None }
    }

    /// Add a vector of values to this trace.
    pub fn add_observations(&mut self, observations: Vec<Observation<V>>)
        requires
            old(self).wf(),
            old(self)@.len() + observations@.len() <= usize::MAX,
        ensures
            final(self).wf(),
            final(self)@ == old(self)@ + observations@,
    {
        if observations.len() > 0 {
            self.count += observations.len();
            let last = observations[observations.len() - 1].clone();
            self.last = Some(last);
            self.tree.append_samples(observations);
            assert((old(self)@ + observations@).last() == observations@.last());
        } else {
            assert(self@ + observations@ =~= self@);
        }
    }

    /// Add a single observation.
    pub fn add_observation(&mut self, observation: Observation<V>)
        requires
            old(self).wf(),
            old(self)@.len() < usize::MAX,
        ensures
            final(self).wf(),
            final(self)@ == old(self)@.push(observation),
    {
        self.count += 1;
        self.last = Some(observation.clone());
        self.tree.append_sample(observation);
    }

    /// Query this trace for some data.
    ///
    /// Every observation of the trace that lies in the query interval is
    /// among the returned observations, or below exactly one of the returned
    /// aggregations. When the observations were added in time order, the
    /// returned observations are exactly those in the interval, and every
    /// returned aggregation overlaps it.
    pub fn query(&self, query: Query) -> (r: RangeQueryResult<V, M>)
        requires
            self.wf(),
        ensures
            query_answers(self@, query, r),
            answers_at_zoom(self.zoom_answer(query), r),
            self.zoom_answer(query) matches ZoomAnswer::Blocks(bs) ==> (
                r matches RangeQueryResult::Aggregations(aggs)
                && aggs@.len() == bs.len()
                && forall|i: int| 0 <= i < bs.len() ==> (#[trigger] aggs@[i]).describes(bs[i])),
            self.zoom_answer(query) matches ZoomAnswer::Observations(os) ==> (
                r matches RangeQueryResult::Observations(ros) && are_copies_of(os, ros@)),
    {
        self.tree.query_range(&query.interval, query.amount)
    }

    /// The number of observations and (a copy of) the last one.
    pub fn quick_summary(&self) -> (r: Option<(usize, Observation<V>)>)
        requires
            self.wf(),
        ensures
            r is None <==> self@.len() == 0,
            r matches Some((count, last)) ==> count == self@.len() && is_copy_of_copy(self@.last(), last),
    {
        if let Some(last) = &self.last {
            Some((self.count, last.clone()))
        } else {
            None
        }
    }

    /// A summary of the observations in the given time span, or of all of them.
    pub fn summary(&self, timespan: Option<&TimeSpan>) -> (r: Option<Aggregation<V, M>>)
        requires
            self.wf(),
        ensures
            match timespan {
                Some(t) => {
                    &&& r is None <==> in_span(self@, *t).len() == 0
                    &&& r matches Some(a) ==> a.describes_unordered(in_span(self@, *t))
                },
                None => {
                    &&& r is None <==> self@.len() == 0
                    &&& r matches Some(a) ==> a.describes(self@)
                },
            },
    {
        if let Some(timespan) = timespan {
            self.tree.range_summary(timespan)
        } else {
            self.tree.summary()
        }
    }

    /// The number of observations in the trace.
    pub fn len(&self) -> (r: usize)
        requires
            self.wf(),
        ensures
            r == self@.len(),
    {
        self.count
    }

    /// All observations of the trace, in order.
    pub fn to_vec(&self) -> (r: Vec<Observation<V>>)
        requires
            self.wf(),
        ensures
            are_copies_of(self@, r@),
    {
        self.tree.to_vec()
    }
}

impl<V, M> Default for Trace<V, M> where V: Clone, M: Metrics<V> + From<V> + Clone {
    fn default() -> (r: Self)
        ensures
            r.wf(),
            r@ == Seq::<Observation<V>>::empty(),
    {
        Trace::new()
    }
}

/// A summary of a trace counts all of its observations, as `len` does.
pub proof fn lemma_summary_counts_all<V, M>(trace: Trace<V, M>, a: Aggregation<V, M>) where
    V: Clone,
    M: Metrics<V> + From<V> + Clone,

    requires
        trace.wf(),
        a.summarises(trace@),
    ensures
        a.count == trace@.len(),
{
}

/// The summary over a span that holds every observation of a trace has the
/// same count and time span as the summary of the whole trace.
pub proof fn lemma_covering_summary<V, M>(
    trace: Trace<V, M>,
    span: TimeSpan,
    in_range: Aggregation<V, M>,
    whole: Aggregation<V, M>,
) where V: Clone, M: Metrics<V> + From<V> + Clone
    requires
        trace.wf(),
        all_in_span(trace@, span),
        in_range.summarises(in_span(trace@, span)),
        whole.summarises(trace@),
    ensures
        in_range.count == whole.count,
        in_range.timespan == whole.timespan,
{
    lemma_covering_span(trace@, span);
    lemma_summaries_agree(in_range, whole, trace@);
}

/// A query that answers with exactly the observations in the interval, as it
/// does on a trace filled in time order, returns as many as the summary of
/// the interval counts.
pub proof fn lemma_query_matches_summary<V, M>(
    trace: Trace<V, M>,
    interval: TimeSpan,
    returned: Seq<Observation<V>>,
    summary: Aggregation<V, M>,
) where V: Clone, M: Metrics<V> + From<V> + Clone
    requires
        trace.wf(),
        are_copies_of(in_span(trace@, interval), returned),
        summary.summarises(in_span(trace@, interval)),
    ensures
        returned.len() == summary.count,
{
}

} // verus!
