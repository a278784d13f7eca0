use lognplot::observations::aggregation::Aggregation;
use lognplot::observations::{CountMetrics, Metrics, Observation, ProfileEvent, Text};
use lognplot::observations::profile::{Call, CallTrack};
use lognplot::time::{TimeSpan, TimeStamp};

/// A simple scalar value, as the database stores them.
#[derive(Clone, Debug)]
struct Sample {
    value: f64,
}

impl Sample {
    fn new(value: f64) -> Self {
        Sample { value }
    }
}

/// Minimum and maximum of the values.
#[derive(Clone, Debug)]
struct SampleMetrics {
    min: f64,
    max: f64,
}

impl From<Sample> for SampleMetrics {
    fn from(sample: Sample) -> Self {
        SampleMetrics { min: sample.value, max: sample.value }
    }
}

impl Metrics<Sample> for SampleMetrics {
    fn spec_update(self, sample: Sample) -> Self {
        let mut metrics = self;
        metrics.update(&sample);
        metrics
    }

    fn spec_merge(self, other: Self) -> Self {
        let mut metrics = self;
        metrics.merge(&other);
        metrics
    }

    fn update(&mut self, sample: &Sample) {
        self.min = self.min.min(sample.value);
        self.max = self.max.max(sample.value);
    }

    fn merge(&mut self, metrics: &SampleMetrics) {
        self.min = self.min.min(metrics.min);
        self.max = self.max.max(metrics.max);
    }
}

#[test]
fn aggregation_metric_updates() {
    // Create test samples:
    let t1 = TimeStamp::from_seconds(3);
    let t2 = TimeStamp::from_seconds(8);
    let t3 = TimeStamp::from_seconds(18);

    let sample1 = Sample::new(2.2);
    let sample2 = Sample::new(5.2);
    let sample3 = Sample::new(-9.0);

    let observation1 = Observation::new(t1.clone(), sample1);
    let observation2 = Observation::new(t2.clone(), sample2);
    let observation3 = Observation::new(t3.clone(), sample3);

    let mut aggregation = Aggregation::<Sample, SampleMetrics>::from(observation1);
    aggregation.include_observation(&observation2);
    aggregation.include_observation(&observation3);
    assert_eq!(aggregation.count, 3);
    assert_eq!(aggregation.metrics().max, 5.2);
    assert_eq!(aggregation.metrics().min, -9.0);

    assert_eq!(aggregation.timespan, TimeSpan::new(t1, t3));
}

fn text_at(seconds: i64, text: &str) -> Observation<Text> {
    Observation::new(TimeStamp::from_seconds(seconds), Text::new(text.to_string()))
}

#[test]
fn aggregation_from_observations() {
    let observations = vec![text_at(5, "a"), text_at(2, "b"), text_at(9, "c"), text_at(7, "d")];
    let aggregation = Aggregation::<Text, CountMetrics>::from_observations(&observations).unwrap();
    assert_eq!(aggregation.count, 4);
    assert_eq!(aggregation.timespan, TimeSpan::from_seconds(2, 9));
    assert_eq!(aggregation.metrics().count, 4);

    assert!(Aggregation::<Text, CountMetrics>::from_observations(&[]).is_none());
}

#[test]
fn aggregation_from_aggregations_merges() {
    let first = Aggregation::<Text, CountMetrics>::from_observations(&[text_at(1, "a"), text_at(2, "b")]).unwrap();
    let second = Aggregation::<Text, CountMetrics>::from_observations(&[text_at(10, "c")]).unwrap();
    let third = Aggregation::<Text, CountMetrics>::from_observations(&[text_at(4, "d"), text_at(5, "e"), text_at(6, "f")]).unwrap();
    let merged = Aggregation::from_aggregations(&[first, second, third]).unwrap();
    assert_eq!(merged.count, 6);
    assert_eq!(merged.timespan, TimeSpan::from_seconds(1, 10));
    assert_eq!(merged.metrics().count, 6);

    assert!(Aggregation::<Text, CountMetrics>::from_aggregations(&[]).is_none());
}

#[test]
fn aggregation_include_aggregation() {
    let mut a = Aggregation::<Text, CountMetrics>::from(text_at(3, "x"));
    let b = Aggregation::<Text, CountMetrics>::new(TimeSpan::from_seconds(-4, 1), CountMetrics { count: 5 }, 5);
    a.include_aggregation(&b);
    assert_eq!(a.count, 6);
    assert_eq!(a.timespan, TimeSpan::from_seconds(-4, 3));
    assert_eq!(a.metrics().count, 6);
}

#[test]
fn count_metrics_counts() {
    let mut m = CountMetrics::from(Text::new("t".to_string()));
    assert_eq!(m.count, 1);
    Metrics::<Text>::update(&mut m, &Text::new("u".to_string()));
    assert_eq!(m.count, 2);
    let other = CountMetrics { count: 40 };
    Metrics::<Text>::merge(&mut m, &other);
    assert_eq!(m.count, 42);

    let mut full = CountMetrics { count: usize::MAX };
    Metrics::<Text>::update(&mut full, &Text::new("v".to_string()));
    assert_eq!(full.count, usize::MAX);

    let p = CountMetrics::from(ProfileEvent::FunctionExit);
    assert_eq!(p.count, 1);
}

#[test]
fn observation_clone_keeps_timestamp_and_value() {
    let o = text_at(12, "hello");
    let c = o.clone();
    assert_eq!(c.timestamp, TimeStamp::from_seconds(12));
    assert_eq!(c.value.text, "hello");
}

#[test]
fn call_track_records_enter_and_exit() {
    let mut track = CallTrack { root: Call::new(TimeStamp::from_seconds(0), "main".to_string()) };
    track.add_observation(Observation::new(
        TimeStamp::from_seconds(1),
        ProfileEvent::FunctionEnter { name: "f".to_string() },
    ));
    track.add_observation(Observation::new(
        TimeStamp::from_seconds(2),
        ProfileEvent::FunctionEnter { name: "g".to_string() },
    ));
    assert_eq!(track.root.child_calls.len(), 2);
    assert_eq!(track.root.child_calls[1].name, "g");
    assert_eq!(track.root.child_calls[1].start, Some(TimeStamp::from_seconds(2)));
    assert_eq!(track.root.child_calls[1].end, None);
    assert_eq!(track.root.end, None);

    track.add_observation(Observation::new(TimeStamp::from_seconds(3), ProfileEvent::FunctionExit));
    assert_eq!(track.root.end, Some(TimeStamp::from_seconds(3)));
    assert_eq!(track.root.child_calls.len(), 2);
    assert_eq!(track.root.name, "main");
}

#[test]
fn aggregation_metrics_follow_updates_and_merges() {
    let a = Aggregation::<Text, CountMetrics>::new(TimeSpan::from_seconds(0, 1), CountMetrics { count: 2 }, 2);
    let b = Aggregation::<Text, CountMetrics>::new(TimeSpan::from_seconds(5, 9), CountMetrics { count: 3 }, 3);
    let r = Aggregation::from_aggregations(&[a, b]).unwrap();
    assert_eq!(r.count, 5);
    assert_eq!(r.metrics().count, 5);
    assert_eq!(r.timespan, TimeSpan::from_seconds(0, 9));
}
