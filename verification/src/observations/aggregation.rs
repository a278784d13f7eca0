use super::metrics::{CountMetrics, Metrics};
use super::observation::{
    are_copies_of, is_copy_of, lemma_copies_timestamps, lemma_timestamps_concat, timestamps_of,
    Observation,
};
use crate::time::{is_hull, lemma_hull_concat, lemma_hull_unique, TimeSpan};
use core::marker::PhantomData;
use vstd::prelude::*;
use vstd::std_specs::convert::{FromSpec, FromSpecImpl};

verus! {

/// An aggregation of observations of some type.
#[derive(Debug)]
pub struct Aggregation<V, M> where M: Metrics<V> + From<V> {
    /// The data summary
    pub metrics: M,
    /// Counter of the number of events.
    pub count: usize,
    /// The timespan this aggregation is about.
    /// This is some bucket of time which groups
    /// observed measurements.
    pub timespan: TimeSpan,
    /// Marks the kind of value that was aggregated.
    pub _phantom: PhantomData<V>,
}

/// The interval `t` grown to hold the intervals of all aggregations in `s`.
pub open spec fn fold_spans<V, M: Metrics<V> + From<V>>(t: TimeSpan, s: Seq<Aggregation<V, M>>) -> TimeSpan
    decreases s.len(),
{
    if s.len() == 0 {
        t
    } else {
        fold_spans(t, s.drop_last()).spec_including_span(s.last().timespan)
    }
}

/// The metrics `m` with the values of the observations `s` integrated, one
/// after the other.
pub open spec fn updated_with<V, M: Metrics<V>>(m: M, s: Seq<Observation<V>>) -> M
    decreases s.len(),
{
    if s.len() == 0 {
        m
    } else {
        updated_with(m, s.drop_last()).spec_update(s.last().value)
    }
}

/// The metrics `m` merged with the metrics of the aggregations `s`, one
/// after the other.
pub open spec fn merged_with<V, M: Metrics<V> + From<V>>(m: M, s: Seq<Aggregation<V, M>>) -> M
    decreases s.len(),
{
    if s.len() == 0 {
        m
    } else {
        merged_with(m, s.drop_last()).spec_merge(s.last().metrics)
    }
}

/// Cloning a value or metrics gives an equal one, as it does for plain data.
pub open spec fn exact_clones<V: Clone, M: Clone>() -> bool {
    &&& forall|a: V, b: V| #[trigger] cloned(a, b) ==> a == b
    &&& forall|a: M, b: M| #[trigger] cloned(a, b) ==> a == b
}

/// The metrics `m` were built up value by value from the non-empty
/// observations `s`: made from the first value, then updated with each later
/// value in turn.
pub open spec fn built_up<V, M: Metrics<V> + From<V>>(m: M, s: Seq<Observation<V>>) -> bool {
    &&& s.len() > 0
    &&& exists|first: M| {
        &&& #[trigger] updated_with(first, s.drop_first()) == m
        &&& M::obeys_from_spec() ==> first == M::from_spec(s[0].value)
    }
}

/// The metrics `m` are metrics of the non-empty observations `s`: built up
/// from them value by value, or the metrics of a first part of `s` merged with
/// the metrics of the rest.
pub open spec fn metrics_of<V, M: Metrics<V> + From<V>>(m: M, s: Seq<Observation<V>>) -> bool
    decreases s.len(),
{
    if s.len() == 0 {
        false
    } else {
        ||| built_up(m, s)
        ||| exists|k: int, a: M, b: M|
            #![trigger a.spec_merge(b), s.subrange(0, k)]
            {
                &&& 0 < k < s.len()
                &&& metrics_of(a, s.subrange(0, k))
                &&& metrics_of(b, s.subrange(k, s.len() as int))
                &&& m == a.spec_merge(b)
            }
    }
}

/// Metrics of two consecutive parts, merged, are metrics of both together.
pub proof fn lemma_metrics_merge<V, M: Metrics<V> + From<V>>(
    a: M,
    x: Seq<Observation<V>>,
    b: M,
    y: Seq<Observation<V>>,
)
    requires
        metrics_of(a, x),
        metrics_of(b, y),
    ensures
        metrics_of(a.spec_merge(b), x + y),
{
    let s = x + y;
    let k = x.len() as int;
    assert(s.subrange(0, k) =~= x);
    assert(s.subrange(k, s.len() as int) =~= y);
    assert(metrics_of(a, s.subrange(0, k)) && metrics_of(b, s.subrange(k, s.len() as int)));
    assert(0 < k < s.len()) by {
        assert(x.len() > 0 && y.len() > 0);
    }
}

/// Metrics built up value by value are metrics of the values.
pub proof fn lemma_built_up_metrics<V, M: Metrics<V> + From<V>>(m: M, s: Seq<Observation<V>>)
    requires
        built_up(m, s),
    ensures
        metrics_of(m, s),
{
}

/// Updating metrics built up from `s` with a value builds them up from `s`
/// followed by that value.
pub proof fn lemma_built_up_push<V, M: Metrics<V> + From<V>>(m: M, s: Seq<Observation<V>>, x: Observation<V>)
    requires
        built_up(m, s),
    ensures
        built_up(m.spec_update(x.value), s.push(x)),
{
    let first = choose|first: M| {
        &&& #[trigger] updated_with(first, s.drop_first()) == m
        &&& M::obeys_from_spec() ==> first == M::from_spec(s[0].value)
    };
    let t = s.push(x);
    assert(t.drop_first().drop_last() =~= s.drop_first());
    assert(t.drop_first().last() == x);
    assert(t[0] == s[0]);
    assert(updated_with(first, t.drop_first()) == m.spec_update(x.value));
}

/// Merging metrics of consecutive blocks, one after the other in the way
/// `from_aggregations` does, gives metrics of all the blocks together.
pub proof fn lemma_merged_metrics<V, M: Metrics<V> + From<V>>(
    aggregations: Seq<Aggregation<V, M>>,
    blocks: Seq<Seq<Observation<V>>>,
)
    requires
        aggregations.len() > 0,
        aggregations.len() == blocks.len(),
        forall|i: int| 0 <= i < blocks.len() ==> metrics_of(#[trigger] aggregations[i].metrics, blocks[i]),
    ensures
        metrics_of(
            merged_with(aggregations[0].metrics, aggregations.subrange(1, aggregations.len() as int)),
            blocks.flatten(),
        ),
    decreases aggregations.len(),
{
    let n = aggregations.len() as int;
    if n == 1 {
        assert(aggregations.subrange(1, 1) =~= Seq::<Aggregation<V, M>>::empty());
        blocks.lemma_flatten_one_element();
        assert(metrics_of(aggregations[0].metrics, blocks[0]));
    } else {
        let a = aggregations.drop_last();
        let b = blocks.drop_last();
        assert forall|i: int| 0 <= i < b.len() implies metrics_of(#[trigger] a[i].metrics, b[i]) by {
            assert(metrics_of(aggregations[i].metrics, blocks[i]));
        }
        lemma_merged_metrics(a, b);
        assert(a[0] == aggregations[0]);
        assert(aggregations.subrange(1, n).drop_last() =~= a.subrange(1, n - 1));
        assert(aggregations.subrange(1, n).last() == aggregations[n - 1]);
        assert(blocks =~= b.push(blocks[n - 1]));
        b.lemma_flatten_push(blocks[n - 1]);
        assert(metrics_of(aggregations[n - 1].metrics, blocks[n - 1]));
        lemma_metrics_merge(
            merged_with(a[0].metrics, a.subrange(1, n - 1)),
            b.flatten(),
            aggregations[n - 1].metrics,
            blocks[n - 1],
        );
    }
}

/// The sum of the counts of the aggregations in `s`.
pub open spec fn total_count<V, M: Metrics<V> + From<V>>(s: Seq<Aggregation<V, M>>) -> int
    decreases s.len(),
{
    if s.len() == 0 {
        0
    } else {
        total_count(s.drop_last()) + s.last().count
    }
}

/// The sum of counts over a prefix is at most the sum over the whole.
pub proof fn lemma_total_count_prefix<V, M: Metrics<V> + From<V>>(s: Seq<Aggregation<V, M>>, i: int)
    requires
        0 <= i <= s.len(),
    ensures
        0 <= total_count(s.subrange(0, i)) <= total_count(s),
    decreases s.len() - i,
{
    if i < s.len() {
        lemma_total_count_prefix(s, i + 1);
        lemma_total_count_nonneg(s.subrange(0, i));
        assert(s.subrange(0, i + 1).drop_last() =~= s.subrange(0, i));
        assert(s.subrange(0, i + 1).last() == s[i]);
    } else {
        assert(s.subrange(0, i) =~= s);
        lemma_total_count_nonneg(s);
    }
}

/// Counts are never negative.
pub proof fn lemma_total_count_nonneg<V, M: Metrics<V> + From<V>>(s: Seq<Aggregation<V, M>>)
    ensures
        total_count(s) >= 0,
    decreases s.len(),
{
    if s.len() > 0 {
        lemma_total_count_nonneg(s.drop_last());
    }
}

impl<V, M> Aggregation<V, M> where M: Metrics<V> + From<V> {
    /// The data summary.
    pub open spec fn spec_metrics(self) -> M {
        self.metrics
    }

    /// This aggregation counts the observations of the non-empty sequence `s`,
    /// and its interval is the hull of their timestamps.
    pub open spec fn summarises(self, s: Seq<Observation<V>>) -> bool {
        self.count == s.len() && is_hull(self.timespan, timestamps_of(s))
    }
}

impl<V, M> Aggregation<V, M> where M: Metrics<V> + From<V> + Clone, V: Clone {
    /// This aggregation summarises the non-empty observations `s`, and, where
    /// clones are exact, its metrics are metrics of `s`.
    pub open spec fn describes(self, s: Seq<Observation<V>>) -> bool {
        &&& self.summarises(s)
        &&& exact_clones::<V, M>() ==> metrics_of(self.metrics, s)
    }

    /// This aggregation summarises the non-empty observations `s`, and, where
    /// clones are exact, its metrics are metrics of the observations of `s`
    /// taken in some order.
    pub open spec fn describes_unordered(self, s: Seq<Observation<V>>) -> bool {
        &&& self.summarises(s)
        &&& exact_clones::<V, M>() ==> exists|p: Seq<Observation<V>>|
            #[trigger] metrics_of(self.metrics, p) && p.to_multiset() == s.to_multiset()
    }

    pub fn new(timespan: TimeSpan, metrics: M, count: usize) -> (r: Self)
        ensures
            r.timespan == timespan,
            r.spec_metrics() == metrics,
            r.count == count,
    {
        Aggregation { metrics, timespan, count, _phantom: PhantomData }
    }

    /// The aggregation of one observation.
    pub fn from_observation(sample: Observation<V>) -> (r: Self)
        ensures
            r.count == 1,
            r.timespan == TimeSpan::point(sample.timestamp),
            M::obeys_from_spec() ==> r.spec_metrics() == M::from_spec(sample.value),
    {
        let timespan = TimeSpan::new(sample.timestamp, sample.timestamp);
        let metrics = M::from(sample.value);
        Aggregation::new(timespan, metrics, 1)
    }

    /// A copy of this aggregation.
    pub fn duplicate(&self) -> (r: Self)
        ensures
            r.count == self.count,
            r.timespan == self.timespan,
            cloned(self.spec_metrics(), r.spec_metrics()),
    {
        Aggregation::new(self.timespan, self.metrics.clone(), self.count)
    }

    /// Merge given aggregations into a single aggregate
    pub fn from_aggregations(aggregations: &[Aggregation<V, M>]) -> (r: Option<Self>)
        requires
            total_count(aggregations@) <= usize::MAX,
        ensures
            r is None <==> aggregations@.len() == 0,
            r matches Some(a) ==> {
                let rest = aggregations@.subrange(1, aggregations@.len() as int);
                &&& a.count == total_count(aggregations@)
                &&& a.timespan == fold_spans(aggregations@[0].timespan, rest)
                &&& exists|first: M| {
                    &&& #[trigger] cloned(aggregations@[0].metrics, first)
                    &&& a.metrics == merged_with(first, rest)
                }
            },
    {
        if aggregations.len() == 0 {
            return None;
        }
        let n: usize = aggregations.len();
        let mut merged = aggregations[0].duplicate();
        let ghost first = merged.metrics;
        assert(merged_with(first, aggregations@.subrange(1, 1)) == first) by {
            assert(aggregations@.subrange(1, 1) =~= Seq::<Aggregation<V, M>>::empty());
        }
        assert(aggregations@.subrange(0, 1).drop_last() =~= Seq::<Aggregation<V, M>>::empty());
        assert(aggregations@.subrange(0, 1).last() == aggregations@[0]);
        assert(total_count(Seq::<Aggregation<V, M>>::empty()) == 0);
        assert(total_count(aggregations@.subrange(0, 1)) == aggregations@[0].count);
        assert(aggregations@.subrange(1, 1) =~= Seq::<Aggregation<V, M>>::empty());
        let mut i: usize = 1;
        while i < n
            invariant
                1 <= i <= n,
                n == aggregations@.len(),
                total_count(aggregations@) <= usize::MAX,
                merged.count == total_count(aggregations@.subrange(0, i as int)),
                merged.timespan == fold_spans(aggregations@[0].timespan, aggregations@.subrange(1, i as int)),
                cloned(aggregations@[0].metrics, first),
                merged.metrics == merged_with(first, aggregations@.subrange(1, i as int)),
            decreases n - i,
        {
            proof {
                lemma_total_count_prefix(aggregations@, i + 1);
                assert(aggregations@.subrange(0, i + 1).drop_last() =~= aggregations@.subrange(0, i as int));
                assert(aggregations@.subrange(1, i + 1).drop_last() =~= aggregations@.subrange(1, i as int));
                assert(aggregations@.subrange(0, i + 1).last() == aggregations@[i as int]);
                assert(aggregations@.subrange(1, i + 1).last() == aggregations@[i as int]);
            }
            merged.include_aggregation(&aggregations[i]);
            i = i + 1;
        }
        assert(aggregations@.subrange(0, n as int) =~= aggregations@);
        Some(merged)
    }

    pub fn from_observations(observations: &[Observation<V>]) -> (r: Option<Self>)
        ensures
            r is None <==> observations@.len() == 0,
            r matches Some(a) ==> a.summarises(observations@),
            r matches Some(a) ==> exists|first: M| {
                &&& a.metrics == updated_with(first, observations@.subrange(1, observations@.len() as int))
                &&& M::obeys_from_spec() ==> exists|v: V| #[trigger] cloned(observations@[0].value, v)
                    && first == M::from_spec(v)
            },
            r matches Some(a) ==> a.describes(observations@),
    {
        if observations.len() == 0 {
            return None;
        }
        let n: usize = observations.len();
        let first = observations[0].clone();
        let ghost first_value = first.value;
        let mut aggregation = Aggregation::from_observation(first);
        let ghost first_metrics = aggregation.metrics;
        proof {
            assert(observations@.subrange(1, 1) =~= Seq::<Observation<V>>::empty());
            if M::obeys_from_spec() {
                assert(cloned(observations@[0].value, first_value) && first_metrics == M::from_spec(first_value));
            }
        }
        proof {
            crate::time::lemma_hull_point(observations@[0].timestamp);
            assert(timestamps_of(observations@.subrange(0, 1)) =~= seq![observations@[0].timestamp]);
        }
        let mut i: usize = 1;
        while i < n
            invariant
                1 <= i <= n,
                n == observations@.len(),
                aggregation.count == i,
                is_hull(aggregation.timespan, timestamps_of(observations@.subrange(0, i as int))),
                aggregation.metrics == updated_with(first_metrics, observations@.subrange(1, i as int)),
            decreases n - i,
        {
            proof {
                crate::time::lemma_hull_push(
                    aggregation.timespan,
                    timestamps_of(observations@.subrange(0, i as int)),
                    observations@[i as int].timestamp,
                );
                assert(observations@.subrange(0, i + 1) =~= observations@.subrange(0, i as int).push(observations@[i as int]));
                assert(observations@.subrange(1, i + 1).drop_last() =~= observations@.subrange(1, i as int));
                assert(observations@.subrange(1, i + 1).last() == observations@[i as int]);
                crate::observations::observation::lemma_timestamps_push(observations@.subrange(0, i as int), observations@[i as int]);
            }
            aggregation.include_observation(&observations[i]);
            i = i + 1;
        }
        assert(observations@.subrange(0, n as int) =~= observations@);
        proof {
            if exact_clones::<V, M>() {
                assert(observations@.subrange(1, n as int) =~= observations@.drop_first());
                if M::obeys_from_spec() {
                    assert(cloned(observations@[0].value, first_value));
                }
                assert(built_up(aggregation.metrics, observations@));
                lemma_built_up_metrics(aggregation.metrics, observations@);
            }
        }
        Some(aggregation)
    }

    pub fn include_observation(&mut self, sample: &Observation<V>)
        requires
            old(self).count < usize::MAX,
        ensures
            final(self).count == old(self).count + 1,
            final(self).timespan == old(self).timespan.spec_including(sample.timestamp),
            final(self).metrics == old(self).metrics.spec_update(sample.value),
    {
        self.metrics.update(&sample.value);
        self.count += 1;
        // Adjust timespan:
        self.timespan.extend_to_include(&sample.timestamp);
    }

    /// Update aggregation with another aggregation
    pub fn include_aggregation(&mut self, aggregation: &Aggregation<V, M>)
        requires
            old(self).count + aggregation.count <= usize::MAX,
        ensures
            final(self).count == old(self).count + aggregation.count,
            final(self).timespan == old(self).timespan.spec_including_span(aggregation.timespan),
            final(self).metrics == old(self).metrics.spec_merge(aggregation.metrics),
    {
        self.metrics.merge(&aggregation.metrics);
        self.count += aggregation.count;
        // Adjust time span:
        self.timespan.extend_to_include_span(&aggregation.timespan);
    }

    pub fn metrics(&self) -> (r: &M)
        ensures
            *r == self.spec_metrics(),
    {
        &self.metrics
    }
}

impl<V, M> From<Observation<V>> for Aggregation<V, M> where M: Metrics<V> + From<V> + Clone, V: Clone {
    fn from(sample: Observation<V>) -> (r: Self) {
        Aggregation::from_observation(sample)
    }
}

impl<V, M> FromSpecImpl<Observation<V>> for Aggregation<V, M> where M: Metrics<V> + From<V> + Clone, V: Clone {
    open spec fn obeys_from_spec() -> bool {
        <M as FromSpec<V>>::obeys_from_spec()
    }

    open spec fn from_spec(v: Observation<V>) -> Self {
        Aggregation {
            metrics: <M as FromSpec<V>>::from_spec(v.value),
            count: 1,
            timespan: TimeSpan::point(v.timestamp),
            _phantom: PhantomData,
        }
    }
}

/// Merging the aggregations of consecutive non-empty blocks of observations,
/// in the way `from_aggregations` does, gives the count and the time span of
/// all the blocks together.
pub proof fn lemma_merge_summaries<V, M: Metrics<V> + From<V>>(
    aggregations: Seq<Aggregation<V, M>>,
    blocks: Seq<Seq<Observation<V>>>,
)
    requires
        aggregations.len() > 0,
        aggregations.len() == blocks.len(),
        forall|i: int| 0 <= i < blocks.len() ==> (#[trigger] aggregations[i]).summarises(blocks[i]),
    ensures
        total_count(aggregations) == blocks.flatten().len(),
        is_hull(
            fold_spans(aggregations[0].timespan, aggregations.subrange(1, aggregations.len() as int)),
            timestamps_of(blocks.flatten()),
        ),
    decreases aggregations.len(),
{
    let n = aggregations.len() as int;
    if n == 1 {
        assert(aggregations.subrange(1, 1) =~= Seq::<Aggregation<V, M>>::empty());
        assert(aggregations.drop_last() =~= Seq::<Aggregation<V, M>>::empty());
        assert(total_count(Seq::<Aggregation<V, M>>::empty()) == 0);
        blocks.lemma_flatten_one_element();
        assert(aggregations[0].summarises(blocks[0]));
    } else {
        let a = aggregations.drop_last();
        let b = blocks.drop_last();
        assert forall|i: int| 0 <= i < b.len() implies (#[trigger] a[i]).summarises(b[i]) by {
            assert(aggregations[i].summarises(blocks[i]));
        }
        lemma_merge_summaries(a, b);
        assert(a[0] == aggregations[0]);
        assert(aggregations.subrange(1, n).drop_last() =~= a.subrange(1, n - 1));
        assert(aggregations.subrange(1, n).last() == aggregations[n - 1]);
        assert(blocks =~= b.push(blocks[n - 1]));
        b.lemma_flatten_push(blocks[n - 1]);
        assert(aggregations[n - 1].summarises(blocks[n - 1]));
        lemma_timestamps_concat(b.flatten(), blocks[n - 1]);
        lemma_hull_concat(
            fold_spans(a[0].timespan, a.subrange(1, n - 1)),
            timestamps_of(b.flatten()),
            aggregations[n - 1].timespan,
            timestamps_of(blocks[n - 1]),
        );
    }
}

/// An aggregation of copies of observations summarises the observations copied.
pub proof fn lemma_summarises_copies<V: Clone, M: Metrics<V> + From<V>>(
    aggregation: Aggregation<V, M>,
    observations: Seq<Observation<V>>,
    copies: Seq<Observation<V>>,
)
    requires
        are_copies_of(observations, copies),
        aggregation.summarises(copies),
    ensures
        aggregation.summarises(observations),
{
    lemma_copies_timestamps(observations, copies);
}

/// Two aggregations that summarise the same observations agree on their
/// count and on their time span.
pub proof fn lemma_summaries_agree<V, M: Metrics<V> + From<V>>(
    a: Aggregation<V, M>,
    b: Aggregation<V, M>,
    s: Seq<Observation<V>>,
)
    requires
        a.summarises(s),
        b.summarises(s),
    ensures
        a.count == b.count,
        a.timespan == b.timespan,
{
    lemma_hull_unique(a.timespan, b.timespan, timestamps_of(s));
}

/// Metrics updated value by value from a count add one per value.
proof fn lemma_count_updates<V>(c: CountMetrics, s: Seq<Observation<V>>)
    requires
        c.count + s.len() <= usize::MAX,
    ensures
        updated_with(c, s).count == c.count + s.len(),
    decreases s.len(),
{
    if s.len() > 0 {
        lemma_count_updates(c, s.drop_last());
    }
}

/// Count metrics of observations count them.
pub proof fn lemma_count_metrics<V>(m: CountMetrics, s: Seq<Observation<V>>) where CountMetrics: From<V>
    requires
        metrics_of(m, s),
        s.len() <= usize::MAX,
        <CountMetrics as FromSpec<V>>::obeys_from_spec(),
        forall|v: V| #[trigger] <CountMetrics as FromSpec<V>>::from_spec(v) == (CountMetrics { count: 1 }),
    ensures
        m.count == s.len(),
    decreases s.len(),
{
    if built_up(m, s) {
        let first = choose|first: CountMetrics| {
            &&& #[trigger] updated_with(first, s.drop_first()) == m
            &&& <CountMetrics as FromSpec<V>>::obeys_from_spec() ==> first == <CountMetrics as FromSpec<V>>::from_spec(s[0].value)
        };
        lemma_count_updates(first, s.drop_first());
    } else {
        let (k, a, b) = choose|k: int, a: CountMetrics, b: CountMetrics|
            #![trigger <CountMetrics as Metrics<V>>::spec_merge(a, b), s.subrange(0, k)]
            {
                &&& 0 < k < s.len()
                &&& metrics_of(a, s.subrange(0, k))
                &&& metrics_of(b, s.subrange(k, s.len() as int))
                &&& m == <CountMetrics as Metrics<V>>::spec_merge(a, b)
            };
        lemma_count_metrics(a, s.subrange(0, k));
        lemma_count_metrics(b, s.subrange(k, s.len() as int));
    }
}

} // verus!
