use super::metrics::CountMetrics;
use vstd::prelude::*;
use vstd::std_specs::convert::FromSpecImpl;

verus! {

/// A text message observation.
#[derive(Debug)]
pub struct Text {
    pub text: String,
}

impl Text {
    pub fn new(text: String) -> (r: Self)
        ensures
            r.text == text,
    {
        Text { text }
    }
}

impl Clone for Text {
    fn clone(&self) -> (r: Self)
        ensures
            r == *self,
    {
        Text { text: self.text.clone() }
    }
}

impl From<Text> for CountMetrics {
    fn from(_observation: Text) -> (r: Self) {
        CountMetrics { count: 1 }
    }
}

impl FromSpecImpl<Text> for CountMetrics {
    open spec fn obeys_from_spec() -> bool {
        true
    }

    open spec fn from_spec(v: Text) -> Self {
        CountMetrics { count: 1 }
    }
}

} // verus!
