use futures::channel::mpsc;
use lognplot::colors::ColorWheel;
use lognplot::notify::{ChangeSubscriber, DataChangeEvent};
use lognplot::observations::{CountMetrics, Observation, ProfileEvent, Text};
use lognplot::query::Query;
use lognplot::query_result::RangeQueryResult;
use lognplot::session::{DashBoardItem, Session};
use lognplot::time::{TimeSpan, TimeStamp};
use lognplot::trace::Trace;
use lognplot::track_type::{trace_action, TraceAction, TrackType};

fn text_at(seconds: i64, text: &str) -> Observation<Text> {
    Observation::new(TimeStamp::from_seconds(seconds), Text::new(text.to_string()))
}

#[test]
fn trace_counts_and_last() {
    let mut trace = Trace::<Text, CountMetrics>::default();
    assert!(trace.quick_summary().is_none());
    assert!(trace.summary(None).is_none());
    trace.add_observation(text_at(1, "a"));
    trace.add_observations(vec![text_at(2, "b"), text_at(3, "c")]);
    trace.add_observations(vec![]);
    let (count, last) = trace.quick_summary().unwrap();
    assert_eq!(count, 3);
    assert_eq!(last.value.text, "c");
    assert_eq!(last.timestamp, TimeStamp::from_seconds(3));
    assert_eq!(trace.len(), 3);

    // The quick summary and the full summary agree on the count.
    let summary = trace.summary(None).unwrap();
    assert_eq!(summary.count, count);
    assert_eq!(summary.timespan, TimeSpan::from_seconds(1, 3));

    let texts: Vec<String> = trace.to_vec().into_iter().map(|o| o.value.text).collect();
    assert_eq!(texts, vec!["a", "b", "c"]);
}

#[test]
fn trace_range_summary_and_query() {
    let mut trace = Trace::<Text, CountMetrics>::default();
    for i in 0..100 {
        trace.add_observation(text_at(i, "x"));
    }
    let span = TimeSpan::from_seconds(10, 19);
    let summary = trace.summary(Some(&span)).unwrap();
    assert_eq!(summary.count, 10);
    assert_eq!(summary.timespan, span);
    assert!(trace.summary(Some(&TimeSpan::from_seconds(200, 300))).is_none());

    let query = Query::create().span(&span).amount(1000).build();
    match trace.query(query) {
        RangeQueryResult::Observations(obs) => assert_eq!(obs.len(), 10),
        RangeQueryResult::Aggregations(_) => panic!("expected observations"),
    }
}

#[test]
fn data_change_event_sets() {
    let mut event = DataChangeEvent::new();
    assert!(event.is_empty());
    event.add_new_signal("a");
    event.add_new_signal("a");
    event.add_changed_signal("b");
    event.add_changed_signal("a");
    event.add_changed_signal("b");
    assert!(!event.is_empty());
    assert_eq!(event.new_signals, vec!["a".to_string()]);
    assert_eq!(event.changed_signals, vec!["b".to_string(), "a".to_string()]);
    assert!(!event.delete_all);

    event.add_delete_all();
    assert!(event.new_signals.is_empty());
    assert!(event.changed_signals.is_empty());
    assert!(event.delete_all);
    assert!(!event.is_empty());

    let copy = event.clone();
    assert!(copy.delete_all);
}

#[test]
fn change_subscriber_waits_for_poll() {
    let (sender, mut receiver) = mpsc::channel::<DataChangeEvent>(0);
    let mut subscriber = ChangeSubscriber::new(sender);

    // Not ready yet: nothing is sent.
    subscriber.notify_signal_added("foo");
    subscriber.notify_signal_changed("foo");
    assert!(receiver.try_next().is_err());

    // Polling sends what accumulated.
    subscriber.poll_events();
    let event = receiver.try_next().unwrap().unwrap();
    assert_eq!(event.new_signals, vec!["foo".to_string()]);
    assert_eq!(event.changed_signals, vec!["foo".to_string()]);

    // After a send, the subscriber is no longer ready.
    subscriber.notify_signal_changed("bar");
    assert!(receiver.try_next().is_err());

    // Poll makes it ready; the pending change goes out.
    subscriber.poll_events();
    let event = receiver.try_next().unwrap().unwrap();
    assert_eq!(event.changed_signals, vec!["bar".to_string()]);
    assert!(event.new_signals.is_empty());

    // Ready with nothing pending: the next change goes out at once.
    subscriber.poll_events();
    subscriber.notify_delete_all();
    let event = receiver.try_next().unwrap().unwrap();
    assert!(event.delete_all);
}

#[test]
fn change_subscriber_delivery_record() {
    let (sender, _receiver) = mpsc::channel::<DataChangeEvent>(0);
    let mut subscriber = ChangeSubscriber::new(sender);
    subscriber.notify_signal_added("x");
    subscriber.record_delivery(false);
    subscriber.record_delivery(true);
    // Nothing pending any more: a poll sends nothing.
    subscriber.poll_events();
}

#[test]
fn color_wheel_assigns_and_keeps_colors() {
    let mut wheel = ColorWheel::new();
    assert_eq!(wheel.get_color_for_signal("a"), "#1F77B4");
    assert_eq!(wheel.get_color_for_signal("b"), "#FF7F0E");
    assert_eq!(wheel.get_color_for_signal("a"), "#1F77B4");
    for i in 0..8 {
        wheel.get_color_for_signal(&format!("s{}", i));
    }
    // The wheel went round: the next new signal gets the first color again.
    assert_eq!(wheel.get_color_for_signal("c"), "#1F77B4");
    assert_eq!(wheel.get_color_for_signal("b"), "#FF7F0E");
    assert_eq!(wheel.get_color_for_signal("s7"), "#17BECF");
}

#[test]
fn session_items() {
    let mut session = Session::new();
    assert!(session.dashboard.is_empty());
    session.add_item(DashBoardItem::Graph { curves: vec!["C3".to_owned(), "C5".to_owned()] });
    session.add_item(DashBoardItem::Empty);
    assert_eq!(session.dashboard.len(), 2);
    assert_eq!(DashBoardItem::Graph { curves: vec!["C3".to_owned(), "C5".to_owned()] }, session.dashboard[0]);
    assert_eq!(DashBoardItem::Empty, session.dashboard[1]);
}

#[test]
fn trace_actions() {
    let t5 = TimeStamp::from_seconds(5);
    let t6 = TimeStamp::from_seconds(6);
    assert_eq!(trace_action(None, None, TrackType::Value, t5), TraceAction::Create);
    assert_eq!(trace_action(Some(TrackType::Value), Some(t5), TrackType::Value, t6), TraceAction::Append);
    assert_eq!(trace_action(Some(TrackType::Value), Some(t5), TrackType::Value, t5), TraceAction::Append);
    assert_eq!(trace_action(Some(TrackType::Value), Some(t6), TrackType::Value, t5), TraceAction::BackupAndCreate);
    assert_eq!(trace_action(Some(TrackType::Text), Some(t5), TrackType::Value, t6), TraceAction::BackupAndCreate);
    assert_eq!(trace_action(Some(TrackType::Profile), None, TrackType::Profile, t6), TraceAction::Append);
}

#[test]
fn profile_trace() {
    let mut trace = Trace::<ProfileEvent, CountMetrics>::default();
    trace.add_observation(Observation::new(TimeStamp::from_seconds(1), ProfileEvent::FunctionEnter { name: "f".to_string() }));
    trace.add_observation(Observation::new(TimeStamp::from_seconds(2), ProfileEvent::FunctionExit));
    let summary = trace.summary(None).unwrap();
    assert_eq!(summary.count, 2);
    assert_eq!(summary.metrics().count, 2);
}
