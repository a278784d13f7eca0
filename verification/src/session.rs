//! The layout of the dashboard, to save and restore it.

use vstd::prelude::*;

verus! {

/// The dashboard: one item per chart.
#[derive(Debug)]
pub struct Session {
    pub dashboard: Vec<DashBoardItem>,
}

/// What one chart of the dashboard shows.
#[derive(Debug, PartialEq)]
pub enum DashBoardItem {
    /// A graph of the curves of the named signals.
    Graph { curves: Vec<String> },
    /// Nothing.
    Empty,
}

impl Session {
    pub fn new() -> (r: Self)
        ensures
            r.dashboard@.len() == 0,
    {
        Session { dashboard: Vec::new() }
    }

    pub fn add_item(&mut self, item: DashBoardItem)
        ensures
            final(self).dashboard@ == old(self).dashboard@.push(item),
    {
        self.dashboard.push(item);
    }
}

} // verus!
