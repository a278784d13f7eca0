use lognplot::query::Query;
use lognplot::time::{Resolution, TimeSpan, TimeStamp};

#[test]
fn timestamp_units() {
    assert_eq!(TimeStamp::from_seconds(2).nanos, 2_000_000_000);
    assert_eq!(TimeStamp::from_seconds(-3).nanos, -3_000_000_000);
    assert_eq!(TimeStamp::from_seconds(0).add_millis(-1).nanos, -1_000_000);
    assert_eq!(TimeStamp::from_seconds(1).add_millis(250).nanos, 1_250_000_000);
    assert!(TimeStamp::new(5).is_before(&TimeStamp::new(6)));
    assert!(!TimeStamp::new(6).is_before(&TimeStamp::new(6)));
}

#[test]
fn timespan_contains_overlap_covers() {
    let span = TimeSpan::from_seconds(3, 13);
    assert!(span.contains(&TimeStamp::from_seconds(3)));
    assert!(span.contains(&TimeStamp::from_seconds(13)));
    assert!(!span.contains(&TimeStamp::from_seconds(14)));
    assert!(span.overlap(&TimeSpan::from_seconds(13, 20)));
    assert!(!span.overlap(&TimeSpan::from_seconds(14, 20)));
    assert!(span.covers(&TimeSpan::from_seconds(4, 13)));
    assert!(!span.covers(&TimeSpan::from_seconds(2, 5)));
}

#[test]
fn timespan_extend() {
    let mut span = TimeSpan::from_seconds(3, 5);
    span.extend_to_include(&TimeStamp::from_seconds(1));
    assert_eq!(span, TimeSpan::from_seconds(1, 5));
    span.extend_to_include(&TimeStamp::from_seconds(4));
    assert_eq!(span, TimeSpan::from_seconds(1, 5));
    span.extend_to_include_span(&TimeSpan::from_seconds(2, 9));
    assert_eq!(span, TimeSpan::from_seconds(1, 9));
}

#[test]
fn query_builder_builds() {
    let ts = TimeStamp::from_seconds(0);
    let query = Query::create().start(ts.add_millis(-1)).end(ts.add_millis(1)).build();
    assert_eq!(query.interval.start.nanos, -1_000_000);
    assert_eq!(query.interval.end.nanos, 1_000_000);
    assert_eq!(query.amount, 10);
    assert_eq!(query.resolution, Resolution::NanoSeconds);

    let query = Query::create().span(&TimeSpan::from_seconds(4, 8)).amount(33).build();
    assert_eq!(query.interval, TimeSpan::from_seconds(4, 8));
    assert_eq!(query.amount, 33);

    let query = Query::new(TimeSpan::from_seconds(1, 2), Resolution::NanoSeconds, 7);
    assert_eq!(query.amount, 7);
}
