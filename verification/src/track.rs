//! A named signal of the database: a trace of values, texts or profile events.

use crate::observations::aggregation::Aggregation;
use crate::observations::metrics::{CountMetrics, Metrics};
use crate::observations::observation::{are_copies_of, in_span, is_copy_of_copy, timestamps_of, Observation};
use crate::observations::profile::ProfileEvent;
use crate::observations::text::Text;
use crate::query::Query;
use crate::query_result::QueryResult;
use crate::summary::{LastValue, QuickSummary, Summary};
use crate::time::{is_hull, TimeSpan, TimeStamp};
use crate::trace::{answers_at_zoom, query_answers, Trace};
use crate::track_type::TrackType;
use vstd::prelude::*;

verus! {

/// The observations of a track, with the kind of track they belong to.
pub enum TrackView<S> {
    Value(Seq<Observation<S>>),
    Text(Seq<Observation<Text>>),
    Profile(Seq<Observation<ProfileEvent>>),
}

/// The observations of `s` in the span, or all of them.
pub open spec fn selected<V>(s: Seq<Observation<V>>, timespan: Option<TimeSpan>) -> Seq<Observation<V>> {
    match timespan {
        Some(t) => in_span(s, t),
        None => s,
    }
}

/// The time of the last observation of `s`, if it has any.
pub open spec fn last_time<V>(s: Seq<Observation<V>>) -> Option<TimeStamp> {
    if s.len() == 0 {
        None
    } else {
        Some(s.last().timestamp)
    }
}

impl<S> TrackView<S> {
    /// The kind of the track.
    pub open spec fn track_type(self) -> TrackType {
        match self {
            TrackView::Value(_) => TrackType::Value,
            TrackView::Text(_) => TrackType::Text,
            TrackView::Profile(_) => TrackType::Profile,
        }
    }

    /// The number of observations of the track.
    pub open spec fn spec_len(self) -> nat {
        match self {
            TrackView::Value(s) => s.len(),
            TrackView::Text(s) => s.len(),
            TrackView::Profile(s) => s.len(),
        }
    }

    /// The time of the last observation of the track, if it has any.
    pub open spec fn last_timestamp(self) -> Option<TimeStamp> {
        match self {
            TrackView::Value(s) => last_time(s),
            TrackView::Text(s) => last_time(s),
            TrackView::Profile(s) => last_time(s),
        }
    }

    /// The number of observations of the track in the span, or of all of them.
    pub open spec fn selected_len(self, timespan: Option<TimeSpan>) -> nat {
        match self {
            TrackView::Value(s) => selected(s, timespan).len(),
            TrackView::Text(s) => selected(s, timespan).len(),
            TrackView::Profile(s) => selected(s, timespan).len(),
        }
    }

    /// An empty track of the given kind.
    pub open spec fn empty_of(typ: TrackType) -> Self {
        match typ {
            TrackType::Value => TrackView::Value(Seq::empty()),
            TrackType::Text => TrackView::Text(Seq::empty()),
            TrackType::Profile => TrackView::Profile(Seq::empty()),
        }
    }
}

/// `q` gives the number of observations of the track `tv`, and a copy of its
/// last one.
pub open spec fn quick_summary_of<S: Clone>(q: QuickSummary<S>, tv: TrackView<S>) -> bool {
    &&& q.count == tv.spec_len()
    &&& match (tv, q.last) {
        (TrackView::Value(s), LastValue::Value(o)) => is_copy_of_copy(s.last(), o),
        (TrackView::Text(s), LastValue::Text(o)) => is_copy_of_copy(s.last(), o),
        (TrackView::Profile(s), LastValue::Profile(o)) => is_copy_of_copy(s.last(), o),
        _ => false,
    }
}

/// A quick summary of a track gives the time of its last observation.
pub proof fn lemma_quick_summary_time<S: Clone>(q: QuickSummary<S>, tv: TrackView<S>)
    requires
        quick_summary_of(q, tv),
        tv.spec_len() > 0,
    ensures
        tv.last_timestamp() == Some(q.last.spec_timestamp()),
{
}

/// `a` describes the observations `s` in the span, their metrics taken in
/// some order; or, without a span, all of `s`, their metrics in order.
pub open spec fn describes_selection<V: Clone, M: Metrics<V> + From<V> + Clone>(
    a: Aggregation<V, M>,
    s: Seq<Observation<V>>,
    timespan: Option<TimeSpan>,
) -> bool {
    match timespan {
        Some(t) => a.describes_unordered(in_span(s, t)),
        None => a.describes(s),
    }
}

/// `sm` summarises the observations of the track `tv` in the span, or all of
/// them, metrics included.
pub open spec fn summary_of<S: Clone, SM: Metrics<S> + From<S> + Clone>(
    sm: Summary<S, SM>,
    tv: TrackView<S>,
    timespan: Option<TimeSpan>,
) -> bool {
    match (tv, sm) {
        (TrackView::Value(s), Summary::Value(a)) => describes_selection(a, s, timespan),
        (TrackView::Text(s), Summary::Text(a)) => describes_selection(a, s, timespan),
        (TrackView::Profile(s), Summary::Profile(a)) => describes_selection(a, s, timespan),
        _ => false,
    }
}

/// The count of a summary of a track is the number of observations it
/// summarises, those in the span or all of them, whatever the kind of track;
/// its time span is the hull of their timestamps.
pub proof fn lemma_summary_count<S: Clone, SM: Metrics<S> + From<S> + Clone>(
    sm: Summary<S, SM>,
    tv: TrackView<S>,
    timespan: Option<TimeSpan>,
)
    requires
        summary_of(sm, tv, timespan),
    ensures
        sm.spec_count() == tv.selected_len(timespan),
        match tv {
            TrackView::Value(s) => is_hull(sm.spec_timespan(), timestamps_of(selected(s, timespan))),
            TrackView::Text(s) => is_hull(sm.spec_timespan(), timestamps_of(selected(s, timespan))),
            TrackView::Profile(s) => is_hull(sm.spec_timespan(), timestamps_of(selected(s, timespan))),
        },
{
}

/// `r` answers `query` on the track `tv`, as `Trace::query` does.
pub open spec fn track_query_answers<S: Clone, SM: Metrics<S> + From<S> + Clone>(
    tv: TrackView<S>,
    query: Query,
    r: QueryResult<S, SM>,
) -> bool {
    match (tv, r) {
        (TrackView::Value(s), QueryResult::Value(x)) => query_answers(s, query, x),
        (TrackView::Text(s), QueryResult::Text(x)) => query_answers(s, query, x),
        (TrackView::Profile(s), QueryResult::Profile(x)) => query_answers(s, query, x),
        _ => false,
    }
}

/// A track: a trace of values, texts or profile events.
pub enum Track<S, SM> where SM: Metrics<S> + From<S> {
    Value(Trace<S, SM>),
    Text(Trace<Text, CountMetrics>),
    Profile(Trace<ProfileEvent, CountMetrics>),
}

impl<S, SM> View for Track<S, SM> where SM: Metrics<S> + From<S> {
    type V = TrackView<S>;

    open spec fn view(&self) -> TrackView<S> {
        match self {
            Track::Value(trace) => TrackView::Value(trace@),
            Track::Text(trace) => TrackView::Text(trace@),
            Track::Profile(trace) => TrackView::Profile(trace@),
        }
    }
}

impl<S, SM> Track<S, SM> where S: Clone, SM: Metrics<S> + From<S> + Clone {
    /// The trace of the track is well formed.
    pub open spec fn wf(&self) -> bool {
        match self {
            Track::Value(trace) => trace.wf(),
            Track::Text(trace) => trace.wf(),
            Track::Profile(trace) => trace.wf(),
        }
    }

    /// An empty track of the given kind.
    pub fn new_with_type(typ: TrackType) -> (r: Self)
        ensures
            r.wf(),
            r@ == TrackView::<S>::empty_of(typ),
    {
        match typ {
            TrackType::Value => Track::Value(Trace::new()),
            TrackType::Text => Track::Text(Trace::new()),
            TrackType::Profile => Track::Profile(Trace::new()),
        }
    }

    pub fn get_type(&self) -> (r: TrackType)
        ensures
            r == self@.track_type(),
    {
        match self {
            Track::Value(..) => TrackType::Value,
            Track::Text(..) => TrackType::Text,
            Track::Profile(..) => TrackType::Profile,
        }
    }

    pub fn add_value_observation(&mut self, observation: Observation<S>)
        requires
            old(self).wf(),
            old(self)@ is Value,
            old(self)@.spec_len() < usize::MAX,
        ensures
            final(self).wf(),
            final(self)@ == TrackView::Value(old(self)@->Value_0.push(observation)),
    {
        if let Track::Value(trace) = self {
            trace.add_observation(observation)
        }
    }

    pub fn add_value_observations(&mut self, observations: Vec<Observation<S>>)
        requires
            old(self).wf(),
            old(self)@ is Value,
            old(self)@.spec_len() + observations@.len() <= usize::MAX,
        ensures
            final(self).wf(),
            final(self)@ == TrackView::Value(old(self)@->Value_0 + observations@),
    {
        if let Track::Value(trace) = self {
            trace.add_observations(observations)
        }
    }

    pub fn add_text_observation(&mut self, observation: Observation<Text>)
        requires
            old(self).wf(),
            old(self)@ is Text,
            old(self)@.spec_len() < usize::MAX,
        ensures
            final(self).wf(),
            final(self)@ == TrackView::<S>::Text(old(self)@->Text_0.push(observation)),
    {
        if let Track::Text(trace) = self {
            trace.add_observation(observation)
        }
    }

    pub fn add_profile_observation(&mut self, observation: Observation<ProfileEvent>)
        requires
            old(self).wf(),
            old(self)@ is Profile,
            old(self)@.spec_len() < usize::MAX,
        ensures
            final(self).wf(),
            final(self)@ == TrackView::<S>::Profile(old(self)@->Profile_0.push(observation)),
    {
        if let Track::Profile(trace) = self {
            trace.add_observation(observation)
        }
    }

    /// `r` is the answer of this track's tree to `query`, at the level of
    /// detail that the query's amount asks for.
    pub open spec fn answers_at_own_zoom(&self, query: Query, r: QueryResult<S, SM>) -> bool {
        match (*self, r) {
            (Track::Value(trace), QueryResult::Value(x)) => answers_at_zoom(trace.zoom_answer(query), x),
            (Track::Text(trace), QueryResult::Text(x)) => answers_at_zoom(trace.zoom_answer(query), x),
            (Track::Profile(trace), QueryResult::Profile(x)) => answers_at_zoom(trace.zoom_answer(query), x),
            _ => false,
        }
    }

    pub fn query(&self, query: Query) -> (r: QueryResult<S, SM>)
        requires
            self.wf(),
        ensures
            track_query_answers(self@, query, r),
            self.answers_at_own_zoom(query, r),
    {
        match self {
            Track::Value(trace) => QueryResult::Value(trace.query(query)),
            Track::Text(trace) => QueryResult::Text(trace.query(query)),
            Track::Profile(trace) => QueryResult::Profile(trace.query(query)),
        }
    }

    pub fn quick_summary(&self) -> (r: Option<QuickSummary<S>>)
        requires
            self.wf(),
        ensures
            r is None <==> self@.spec_len() == 0,
            r matches Some(q) ==> quick_summary_of(q, self@),
    {
        match self {
            Track::Value(trace) => {
                let (count, last) = trace.quick_summary()?;
                Some(QuickSummary::new_value(count, last))
            },
            Track::Text(trace) => {
                let (count, last) = trace.quick_summary()?;
                Some(QuickSummary::new_text(count, last))
            },
            Track::Profile(trace) => {
                let (count, last) = trace.quick_summary()?;
                Some(QuickSummary::new_profile(count, last))
            },
        }
    }

    pub fn summary(&self, timespan: Option<&TimeSpan>) -> (r: Option<Summary<S, SM>>)
        requires
            self.wf(),
        ensures
            r is None <==> self@.selected_len(match timespan { Some(t) => Some(*t), None => None }) == 0,
            r matches Some(sm) ==> summary_of(sm, self@, match timespan { Some(t) => Some(*t), None => None }),
    {
        match self {
            Track::Value(trace) => Some(Summary::Value(trace.summary(timespan)?)),
            Track::Text(trace) => Some(Summary::Text(trace.summary(timespan)?)),
            Track::Profile(trace) => Some(Summary::Profile(trace.summary(timespan)?)),
        }
    }

    /// The observations of a value track; none for other tracks.
    pub fn to_vec(&self) -> (r: Vec<Observation<S>>)
        requires
            self.wf(),
        ensures
            self@ matches TrackView::Value(s) ==> are_copies_of(s, r@),
            !(self@ is Value) ==> r@.len() == 0,
    {
        if let Track::Value(trace) = self {
            trace.to_vec()
        } else {
            Vec::new()
        }
    }
}

} // verus!
