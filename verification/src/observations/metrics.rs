use vstd::prelude::*;

verus! {

/// Running summary data about a group of observed values.
///
/// Implement this for specific observations.
///
/// What the metrics hold is up to each implementation; the database only
/// updates them value by value and merges them group by group, in the order
/// of the observations.
pub trait Metrics<V>: Sized {
    /// These metrics with the value `sample` integrated.
    spec fn spec_update(self, sample: V) -> Self;

    /// These metrics merged with the metrics `other` of a later group.
    spec fn spec_merge(self, other: Self) -> Self;

    /// Integrate a single value into the metrics.
    fn update(&mut self, sample: &V)
        ensures
            *final(self) == old(self).spec_update(*sample),
    ;

    /// Merge the metrics of a later group into these metrics.
    fn merge(&mut self, metrics: &Self)
        ensures
            *final(self) == old(self).spec_merge(*metrics),
    ;
}

/// The most simple metric which works always: just count the observations.
///
/// The count stops at `usize::MAX`.
#[derive(Clone, Copy, Debug)]
pub struct CountMetrics {
    pub count: usize,
}

/// `a + b`, or `usize::MAX` where that does not fit.
pub open spec fn capped_sum(a: usize, b: usize) -> usize {
    if a + b <= usize::MAX { (a + b) as usize } else { usize::MAX }
}

impl<V> Metrics<V> for CountMetrics {
    open spec fn spec_update(self, sample: V) -> Self {
        CountMetrics { count: capped_sum(self.count, 1) }
    }

    open spec fn spec_merge(self, other: Self) -> Self {
        CountMetrics { count: capped_sum(self.count, other.count) }
    }

    /// Integrate a single sample into the metrics.
    fn update(&mut self, _sample: &V) {
        self.count = self.count.saturating_add(1);
    }

    fn merge(&mut self, metrics: &CountMetrics) {
        self.count = self.count.saturating_add(metrics.count);
    }
}

} // verus!
