use futures::channel::mpsc;
use lognplot::db::TsDb;
use lognplot::notify::{ChangeSubscriber, DataChangeEvent};
use lognplot::observations::{Metrics, Observation, ProfileEvent, Text};
use lognplot::query::Query;
use lognplot::query_result::{QueryResult, RangeQueryResult};
use lognplot::summary::{LastValue, Summary};
use lognplot::time::{TimeSpan, TimeStamp};

/// A simple scalar value, as the database stores them.
#[derive(Clone, Debug)]
struct Sample {
    value: f64,
}

impl Sample {
    fn new(value: f64) -> Self {
        Sample { value }
    }
}

/// Minimum and maximum value, and the count.
#[derive(Clone, Debug)]
struct SampleMetrics {
    min: f64,
    max: f64,
    count: usize,
}

impl From<Sample> for SampleMetrics {
    fn from(sample: Sample) -> Self {
        SampleMetrics { min: sample.value, max: sample.value, count: 1 }
    }
}

impl Metrics<Sample> for SampleMetrics {
    fn spec_update(self, sample: Sample) -> Self {
        let mut metrics = self;
        metrics.update(&sample);
        metrics
    }

    fn spec_merge(self, other: Self) -> Self {
        let mut metrics = self;
        metrics.merge(&other);
        metrics
    }

    fn update(&mut self, sample: &Sample) {
        self.min = self.min.min(sample.value);
        self.max = self.max.max(sample.value);
        self.count += 1;
    }

    fn merge(&mut self, metrics: &SampleMetrics) {
        self.min = self.min.min(metrics.min);
        self.max = self.max.max(metrics.max);
        self.count += metrics.count;
    }
}

type Db = TsDb<Sample, SampleMetrics>;

fn value_at(seconds: i64, value: f64) -> Observation<Sample> {
    Observation::new(TimeStamp::from_seconds(seconds), Sample::new(value))
}

fn text_at(seconds: i64, text: &str) -> Observation<Text> {
    Observation::new(TimeStamp::from_seconds(seconds), Text::new(text.to_string()))
}

fn sorted_names(db: &Db) -> Vec<String> {
    let mut names = db.get_signal_names();
    names.sort();
    names
}

#[test]
fn basic_usage() {
    let mut db = Db::default();
    let trace_name = "foo";

    // Insert data:
    let ts = TimeStamp::from_seconds(0);
    let sample = Sample::new(3.1415926);
    let observation = Observation::new(ts.clone(), sample);
    db.add_value(trace_name, observation);

    // Now onto the query part:
    let query = Query::create().start(ts.add_millis(-1)).end(ts.add_millis(1)).build();
    let result = db.query(trace_name, query).unwrap();
    assert_eq!(1, result.len());

    // Query empty range:
    let query = Query::create().start(ts.add_millis(1)).end(ts.add_millis(3)).build();
    let result = db.query(trace_name, query).unwrap();
    assert_eq!(0, result.len());

    // Summary info:
    let quick_summary = db.quick_summary(trace_name).unwrap();
    let summary = db.summary(trace_name, None).unwrap();
    assert_eq!(quick_summary.count, summary.count());
}

#[test]
fn db_unknown_signal() {
    let db = Db::new();
    assert!(db.get_signal_names().is_empty());
    assert!(db.query("nope", Query::create().span(&TimeSpan::from_seconds(0, 1)).build()).is_none());
    assert!(db.quick_summary("nope").is_none());
    assert!(db.summary("nope", None).is_none());
    assert!(db.get_raw_samples("nope").is_none());
}

#[test]
fn db_appends_in_time_order() {
    let mut db = Db::new();
    db.add_value("a", value_at(1, 1.0));
    db.add_values("a", vec![value_at(2, 2.0), value_at(3, 3.0)]);
    db.add_values("a", vec![]);
    db.add_value("a", value_at(3, 4.0));
    assert_eq!(sorted_names(&db), vec!["a"]);
    let raw = db.get_raw_samples("a").unwrap();
    let values: Vec<f64> = raw.iter().map(|o| o.value.value).collect();
    assert_eq!(values, vec![1.0, 2.0, 3.0, 4.0]);
    let quick = db.quick_summary("a").unwrap();
    assert_eq!(quick.count, 4);
    assert_eq!(*quick.last_timestamp(), TimeStamp::from_seconds(3));
    match quick.last {
        LastValue::Value(o) => assert_eq!(o.value.value, 4.0),
        _ => panic!("expected a value"),
    }
    match db.summary("a", Some(&TimeSpan::from_seconds(2, 10))).unwrap() {
        Summary::Value(a) => {
            assert_eq!(a.count, 3);
            assert_eq!(a.metrics().min, 2.0);
            assert_eq!(a.metrics().max, 4.0);
        }
        _ => panic!("expected a value summary"),
    }
    assert!(db.summary("a", Some(&TimeSpan::from_seconds(20, 30))).is_none());
}

#[test]
fn db_backs_up_older_data() {
    let mut db = Db::new();
    db.add_value("a", value_at(5, 1.0));
    db.add_value("a", value_at(6, 2.0));
    // An observation before the last one starts a new track.
    db.add_value("a", value_at(1, 3.0));
    let names = sorted_names(&db);
    assert_eq!(names.len(), 2);
    assert_eq!(names[0], "a");
    assert!(names[1].starts_with("a_BACKUP_"));
    assert_eq!(names[1].len(), "a_BACKUP_".len() + 15);
    assert_eq!(db.quick_summary("a").unwrap().count, 1);
    assert_eq!(db.quick_summary(&names[1]).unwrap().count, 2);
    let backup = db.get_raw_samples(&names[1]).unwrap();
    assert_eq!(backup[1].value.value, 2.0);

    // Once more, in the same second: the backup name gets a suffix.
    db.add_value("a", value_at(0, 4.0));
    let names = sorted_names(&db);
    assert_eq!(names.len(), 3);
    assert!(names[1].starts_with("a_BACKUP_"));
    assert!(names[2].starts_with("a_BACKUP_"));
}

#[test]
fn db_backs_up_other_kind() {
    let mut db = Db::new();
    db.add_value("s", value_at(1, 1.0));
    db.add_text("s", text_at(2, "hello"));
    let names = sorted_names(&db);
    assert_eq!(names.len(), 2);
    assert!(db.get_raw_samples("s").unwrap().is_empty());
    match db.quick_summary("s").unwrap().last {
        LastValue::Text(o) => assert_eq!(o.value.text, "hello"),
        _ => panic!("expected a text"),
    }
    assert_eq!(db.get_raw_samples(&names[1]).unwrap().len(), 1);

    db.add_profile_event("p", Observation::new(TimeStamp::from_seconds(1), ProfileEvent::FunctionExit));
    match db.query("p", Query::create().span(&TimeSpan::from_seconds(0, 5)).amount(100).build()).unwrap() {
        QueryResult::Profile(RangeQueryResult::Observations(obs)) => assert_eq!(obs.len(), 1),
        _ => panic!("expected profile observations"),
    }
}

#[test]
fn db_delete() {
    let mut db = Db::new();
    db.add_value("a", value_at(1, 1.0));
    db.add_value("b", value_at(1, 1.0));
    db.delete("a");
    db.delete("zzz");
    assert_eq!(sorted_names(&db), vec!["b"]);
    db.delete_all();
    assert!(db.get_signal_names().is_empty());
}

#[test]
fn db_notifies_subscribers() {
    let mut db = Db::new();
    db.add_value("a", value_at(1, 1.0));
    let (sender, mut receiver) = mpsc::channel::<DataChangeEvent>(10);
    db.register_notifier(ChangeSubscriber::new(sender));
    // The existing signal is announced at once.
    let event = receiver.try_next().unwrap().unwrap();
    assert_eq!(event.new_signals, vec!["a".to_string()]);
    assert_eq!(event.changed_signals, vec!["a".to_string()]);
    assert!(!event.delete_all);

    // The subscriber is ready again: the new signal goes out at once, the
    // change after it waits until the receiver polls.
    db.add_value("b", value_at(1, 1.0));
    let event = receiver.try_next().unwrap().unwrap();
    assert_eq!(event.new_signals, vec!["b".to_string()]);
    assert!(event.changed_signals.is_empty());
    assert!(receiver.try_next().is_err());
    db.poll_events();
    let event = receiver.try_next().unwrap().unwrap();
    assert!(event.new_signals.is_empty());
    assert_eq!(event.changed_signals, vec!["b".to_string()]);

    db.delete_all();
    db.poll_events();
    let event = receiver.try_next().unwrap().unwrap();
    assert!(event.delete_all);
    assert!(event.new_signals.is_empty());
}

#[test]
fn db_track_types() {
    let mut db = Db::new();
    db.add_text("t", text_at(1, "x"));
    match db.summary("t", None).unwrap() {
        Summary::Text(a) => assert_eq!(a.count, 1),
        _ => panic!("expected a text summary"),
    }
}

#[test]
fn db_notifies_backups() {
    let mut db = Db::new();
    db.add_value("a", value_at(5, 1.0));
    let (sender, mut receiver) = mpsc::channel::<DataChangeEvent>(10);
    db.register_notifier(ChangeSubscriber::new(sender));
    let _ = receiver.try_next().unwrap().unwrap();

    // An older observation moves the track aside: the backup is announced,
    // then its data, then the new data of the signal.
    db.add_value("a", value_at(1, 2.0));
    let event = receiver.try_next().unwrap().unwrap();
    assert_eq!(event.new_signals.len(), 1);
    let backup = event.new_signals[0].clone();
    assert!(backup.starts_with("a_BACKUP_"));
    assert!(receiver.try_next().is_err());
    db.poll_events();
    let event = receiver.try_next().unwrap().unwrap();
    assert!(event.new_signals.is_empty());
    assert_eq!(event.changed_signals, vec![backup.clone(), "a".to_string()]);
    assert_eq!(db.quick_summary(&backup).unwrap().count, 1);
}

#[test]
fn db_delete_all_goes_first() {
    let mut db = Db::new();
    db.add_value("a", value_at(1, 1.0));
    let (sender, mut receiver) = mpsc::channel::<DataChangeEvent>(10);
    db.register_notifier(ChangeSubscriber::new(sender));
    let _announced = receiver.try_next().unwrap().unwrap();
    // The subscriber is ready: the deletion goes out at once, before the
    // signal added after it.
    db.delete_all();
    db.add_value("c", value_at(2, 2.0));
    db.poll_events();
    let event = receiver.try_next().unwrap().unwrap();
    assert!(event.delete_all);
    assert!(event.new_signals.is_empty());
    let event = receiver.try_next().unwrap().unwrap();
    assert!(!event.delete_all);
    assert_eq!(event.new_signals, vec!["c".to_string()]);
}

#[test]
fn db_text_summary_metrics_count() {
    let mut db = Db::new();
    for i in 0..40 {
        db.add_text("t", text_at(i, "x"));
    }
    match db.summary("t", None).unwrap() {
        Summary::Text(a) => {
            assert_eq!(a.count, 40);
            assert_eq!(a.metrics().count, 40);
        }
        _ => panic!("expected a text summary"),
    }
    let span = TimeSpan::from_seconds(5, 24);
    match db.summary("t", Some(&span)).unwrap() {
        Summary::Text(a) => {
            assert_eq!(a.count, 20);
            assert_eq!(a.metrics().count, 20);
        }
        _ => panic!("expected a text summary"),
    }
}
