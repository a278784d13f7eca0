//! Data structures to describe a call stack over time.
//!
//! Idea is to enable logging of profile events into a
//! callstack over time manner.

use super::metrics::CountMetrics;
use super::observation::Observation;
use crate::time::TimeStamp;
use vstd::prelude::*;
use vstd::std_specs::convert::FromSpecImpl;

verus! {

/// A single profiling event, such as function enter or function
/// return.
#[derive(Debug)]
pub enum ProfileEvent {
    FunctionEnter { name: String },
    FunctionExit,
}

impl Clone for ProfileEvent {
    fn clone(&self) -> (r: Self)
        ensures
            r == *self,
    {
        match self {
            ProfileEvent::FunctionEnter { name } => ProfileEvent::FunctionEnter { name: name.clone() },
            ProfileEvent::FunctionExit => ProfileEvent::FunctionExit,
        }
    }
}

impl From<ProfileEvent> for CountMetrics {
    fn from(_observation: ProfileEvent) -> (r: Self) {
        CountMetrics { count: 1 }
    }
}

impl FromSpecImpl<ProfileEvent> for CountMetrics {
    open spec fn obeys_from_spec() -> bool {
        true
    }

    open spec fn from_spec(v: ProfileEvent) -> Self {
        CountMetrics { count: 1 }
    }
}

/// A single function call node.
///
/// Each function call has a name, a start and end time
/// and other calls to other functions.
pub struct Call {
    pub name: String,
    pub start: Option<TimeStamp>,
    pub end: Option<TimeStamp>,
    pub child_calls: Vec<Call>,
}

impl Call {
    pub fn new(timestamp: TimeStamp, name: String) -> (r: Self)
        ensures
            r.name == name,
            r.start == Some(timestamp),
            r.end.is_none(),
            r.child_calls@.len() == 0,
    {
        Call { name, start: Some(timestamp), end: None, child_calls: Vec::new() }
    }
}

/// A structure holding a running call stack.
pub struct CallTrack {
    pub root: Call,
}

impl CallTrack {
    /// Record a profile event: entering a function starts a new call under the
    /// root; leaving a function ends the root call.
    pub fn add_observation(&mut self, observation: Observation<ProfileEvent>)
        ensures
            final(self).root.name == old(self).root.name,
            final(self).root.start == old(self).root.start,
            match observation.value {
                ProfileEvent::FunctionEnter { name } => {
                    &&& final(self).root.end == old(self).root.end
                    &&& final(self).root.child_calls@.len() == old(self).root.child_calls@.len() + 1
                    &&& forall|i: int| 0 <= i < old(self).root.child_calls@.len()
                        ==> final(self).root.child_calls@[i] == old(self).root.child_calls@[i]
                    &&& final(self).root.child_calls@.last().name == name
                    &&& final(self).root.child_calls@.last().start == Some(observation.timestamp)
                    &&& final(self).root.child_calls@.last().end.is_none()
                    &&& final(self).root.child_calls@.last().child_calls@.len() == 0
                },
                ProfileEvent::FunctionExit => {
                    &&& final(self).root.end == Some(observation.timestamp)
                    &&& final(self).root.child_calls == old(self).root.child_calls
                },
            },
    {
        match observation.value {
            ProfileEvent::FunctionEnter { name } => {
                let call = Call::new(observation.timestamp, name);
                self.root.child_calls.push(call);
            },
            ProfileEvent::FunctionExit => {
                self.root.end = Some(observation.timestamp);
            },
        }
    }
}

} // verus!
