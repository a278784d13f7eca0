use lognplot::btree::Btree;
use lognplot::observations::{Metrics, Observation};
use lognplot::query_result::RangeQueryResult;
use lognplot::time::{TimeSpan, TimeStamp};

/// A simple scalar value, as the database stores them.
#[derive(Clone, Debug)]
struct Sample {
    value: f64,
}

impl Sample {
    fn new(value: f64) -> Self {
        Sample { value }
    }
}

/// Minimum, maximum, first and last value, and the count.
#[derive(Clone, Debug)]
struct SampleMetrics {
    min: f64,
    max: f64,
    first: f64,
    last: f64,
    count: usize,
}

impl From<Sample> for SampleMetrics {
    fn from(sample: Sample) -> Self {
        SampleMetrics { min: sample.value, max: sample.value, first: sample.value, last: sample.value, count: 1 }
    }
}

impl Metrics<Sample> for SampleMetrics {
    fn spec_update(self, sample: Sample) -> Self {
        let mut metrics = self;
        metrics.update(&sample);
        metrics
    }

    fn spec_merge(self, other: Self) -> Self {
        let mut metrics = self;
        metrics.merge(&other);
        metrics
    }

    fn update(&mut self, sample: &Sample) {
        self.min = self.min.min(sample.value);
        self.max = self.max.max(sample.value);
        self.last = sample.value;
        self.count += 1;
    }

    fn merge(&mut self, metrics: &SampleMetrics) {
        self.min = self.min.min(metrics.min);
        self.max = self.max.max(metrics.max);
        self.last = metrics.last;
        self.count += metrics.count;
    }
}

#[test]
fn btree_single_insertion() {
    let mut tree = Btree::<Sample, SampleMetrics>::default();

    // Insert some samples:
    let t1 = TimeStamp::from_seconds(1);
    let sample1 = Sample::new(3.1415926);
    let observation = Observation::new(t1, sample1);
    tree.append_sample(observation);

    assert_eq!(tree.to_vec().len(), 1);

    // Check length:
    assert_eq!(tree.len(), 1);
}

#[test]
fn btree_mutliple_insertions() {
    let mut tree = Btree::<Sample, SampleMetrics>::default();

    // Insert some samples:
    for i in 0..1000 {
        let t1 = TimeStamp::from_seconds(i);
        let sample = Sample::new(i as f64);
        let observation = Observation::new(t1, sample);
        tree.append_sample(observation);
    }

    // Check plain to vector:
    assert_eq!(tree.to_vec().len(), 1000);

    // Check length:
    assert_eq!(tree.len(), 1000);

    // Check query
    let time_span = TimeSpan::from_seconds(3, 13);
    let result = tree.query_range(&time_span, 9);
    assert_eq!(result.len(), 11);
}

fn tree_of_seconds(n: i64) -> Btree<Sample, SampleMetrics> {
    let mut tree = Btree::<Sample, SampleMetrics>::default();
    for i in 0..n {
        tree.append_sample(Observation::new(TimeStamp::from_seconds(i), Sample::new(i as f64)));
    }
    tree
}

#[test]
fn btree_to_vec_keeps_order() {
    let tree = tree_of_seconds(300);
    let all = tree.to_vec();
    assert_eq!(all.len(), 300);
    for (i, o) in all.iter().enumerate() {
        assert_eq!(o.timestamp, TimeStamp::from_seconds(i as i64));
        assert_eq!(o.value.value, i as f64);
    }
}

#[test]
fn btree_summary_counts_everything() {
    let tree = tree_of_seconds(1000);
    let summary = tree.summary().unwrap();
    assert_eq!(summary.count, 1000);
    assert_eq!(summary.timespan, TimeSpan::from_seconds(0, 999));
    assert_eq!(summary.metrics().min, 0.0);
    assert_eq!(summary.metrics().max, 999.0);
}

#[test]
fn btree_empty_summary() {
    let tree = Btree::<Sample, SampleMetrics>::default();
    assert!(tree.summary().is_none());
    assert_eq!(tree.len(), 0);
    assert!(tree.range_summary(&TimeSpan::from_seconds(0, 10)).is_none());
}

#[test]
fn btree_range_summary_counts_in_span() {
    let tree = tree_of_seconds(1000);
    let summary = tree.range_summary(&TimeSpan::from_seconds(3, 13)).unwrap();
    assert_eq!(summary.count, 11);
    assert_eq!(summary.timespan, TimeSpan::from_seconds(3, 13));

    let summary = tree.range_summary(&TimeSpan::from_seconds(100, 899)).unwrap();
    assert_eq!(summary.count, 800);
    assert_eq!(summary.timespan, TimeSpan::from_seconds(100, 899));
    assert_eq!(summary.metrics().min, 100.0);
    assert_eq!(summary.metrics().max, 899.0);

    assert!(tree.range_summary(&TimeSpan::from_seconds(2000, 3000)).is_none());
}

#[test]
fn btree_query_small_amount_gives_aggregations() {
    let tree = tree_of_seconds(1000);
    let result = tree.query_range(&TimeSpan::from_seconds(0, 999), 1);
    match result {
        RangeQueryResult::Aggregations(aggs) => {
            assert!(aggs.len() >= 1);
            let total: usize = aggs.iter().map(|a| a.count).sum();
            assert_eq!(total, 1000);
        }
        RangeQueryResult::Observations(_) => panic!("expected aggregations"),
    }
}

#[test]
fn btree_query_large_amount_gives_observations() {
    let tree = tree_of_seconds(1000);
    let result = tree.query_range(&TimeSpan::from_seconds(500, 520), 1000);
    match result {
        RangeQueryResult::Observations(obs) => {
            assert_eq!(obs.len(), 21);
            assert_eq!(obs[0].timestamp, TimeStamp::from_seconds(500));
            assert_eq!(obs[20].timestamp, TimeStamp::from_seconds(520));
        }
        RangeQueryResult::Aggregations(_) => panic!("expected observations"),
    }
}

#[test]
fn btree_append_samples() {
    let mut tree = Btree::<Sample, SampleMetrics>::default();
    let batch: Vec<Observation<Sample>> =
        (0..50).map(|i| Observation::new(TimeStamp::from_seconds(i), Sample::new(i as f64))).collect();
    tree.append_samples(batch);
    assert_eq!(tree.len(), 50);
    let all = tree.to_vec();
    assert_eq!(all[49].timestamp, TimeStamp::from_seconds(49));
}

#[test]
fn btree_covering_span_summary_equals_summary() {
    let tree = tree_of_seconds(777);
    let whole = tree.summary().unwrap();
    let covering = tree.range_summary(&TimeSpan::from_seconds(-5, 5000)).unwrap();
    assert_eq!(covering.count, whole.count);
    assert_eq!(covering.timespan, whole.timespan);
}

#[test]
fn btree_adjacent_spans_add_up() {
    let tree = tree_of_seconds(500);
    let first = TimeSpan::new(TimeStamp::from_seconds(40), TimeStamp::new(TimeStamp::from_seconds(250).nanos - 1));
    let second = TimeSpan::from_seconds(250, 420);
    let joined = TimeSpan::from_seconds(40, 420);
    let a = tree.range_summary(&first).unwrap().count;
    let b = tree.range_summary(&second).unwrap().count;
    let c = tree.range_summary(&joined).unwrap().count;
    assert_eq!(a, 210);
    assert_eq!(b, 171);
    assert_eq!(a + b, c);
}

#[test]
fn btree_query_aggregations_overlap_span() {
    let tree = tree_of_seconds(1000);
    let span = TimeSpan::from_seconds(130, 870);
    match tree.query_range(&span, 3) {
        RangeQueryResult::Aggregations(aggs) => {
            assert!(aggs.len() >= 3);
            for a in aggs.iter() {
                assert!(a.timespan.overlap(&span));
            }
            let total: usize = aggs.iter().map(|a| a.count).sum();
            assert!(total >= 741);
        }
        RangeQueryResult::Observations(_) => panic!("expected aggregations"),
    }
}

#[test]
fn btree_query_aggregations_are_consecutive_runs() {
    let tree = tree_of_seconds(1000);
    let span = TimeSpan::from_seconds(130, 870);
    match tree.query_range(&span, 3) {
        RangeQueryResult::Aggregations(aggs) => {
            // Each run follows the previous one without a gap: the next run
            // starts one second after the previous ends.
            for k in 1..aggs.len() {
                let gap = aggs[k].timespan.start.nanos - aggs[k - 1].timespan.end.nanos;
                assert_eq!(gap, TimeStamp::from_seconds(1).nanos);
            }
            // Each run but the last holds at least a leave's worth.
            for a in aggs[..aggs.len() - 1].iter() {
                assert!(a.count >= 16);
            }
            // A run's count matches its time span on this data.
            for a in aggs.iter() {
                let seconds = (a.timespan.end.nanos - a.timespan.start.nanos) / TimeStamp::from_seconds(1).nanos;
                assert_eq!(a.count as i64, seconds + 1);
            }
            // The span holds a leave's worth per aggregation between the ends.
            assert!(741 >= (aggs.len() - 2) * 16);
        }
        RangeQueryResult::Observations(_) => panic!("expected aggregations"),
    }
}
