//! Implementation of a B-tree like data structure.
//!
//! The idea is to create leave nodes and intermediate nodes.
//! Leave and intermediate nodes can have multiple child nodes.
//!
//! Observations are only ever appended at the end. A leave holds up to
//! `LEAVE_CHUNK_SIZE` observations, an intermediate node up to
//! `INTERMEDIATE_CHUNK_SIZE` children; all leaves lie at the same depth.

use crate::observations::aggregation::{
    built_up, exact_clones, merged_with, updated_with, lemma_built_up_metrics, lemma_built_up_push, lemma_merge_summaries, lemma_metrics_merge,
    lemma_merged_metrics, lemma_summarises_copies, metrics_of, total_count, Aggregation,
};
use crate::observations::metrics::Metrics;
use crate::observations::observation::{
    all_in_span, are_copies_of, in_span, is_copy_of, sorted, lemma_bag_concat, lemma_copies_timestamps, lemma_covering_span, lemma_in_span_concat, lemma_in_span_len,
    lemma_timestamps_concat, lemma_timestamps_push, timestamp_bag, timestamps_of, Observation,
};
use crate::query_result::RangeQueryResult;
use crate::time::{
    is_hull, lemma_hull_concat, lemma_hull_point, lemma_hull_push, lemma_hull_same_bag,
    lemma_hull_unique, TimeSpan, TimeStamp,
};
use vstd::multiset::Multiset;
use vstd::prelude::*;

verus! {

/// This is the intermediate level fanout ratio.
/// A higher number yields less overhead (zoom levels)
pub const INTERMEDIATE_CHUNK_SIZE: usize = 5;

/// This constant defines the fanout ratio.
/// Each leave contains maximum this number of values
pub const LEAVE_CHUNK_SIZE: usize = 16;

/// This implements a b-tree structure.
///
/// The tree structure supports fast lookup
/// of time ranges.
pub struct Btree<V, M> where M: Metrics<V> + From<V> {
    root: Node<V, M>,
    /// The number of intermediate levels above the leaves.
    height: Ghost<nat>,
}

/// This is a sort of B+ tree data structure
/// to store a sequence of sample along with some
/// metrics about those samples.
enum Node<V, M> where M: Metrics<V> + From<V> {
    /// An intermediate chunk with some leave
    /// chunk.
    Intermediate(InternalNode<V, M>),
    /// A leave chunk with some samples in it.
    Leave(LeaveNode<V, M>),
}

/// Intermediate node
struct InternalNode<V, M> where M: Metrics<V> + From<V> {
    children: Vec<Node<V, M>>,
    metrics: Option<Aggregation<V, M>>,
}

/// Leave node type
struct LeaveNode<V, M> where M: Metrics<V> + From<V> {
    observations: Vec<Observation<V>>,
    metrics: Option<Aggregation<V, M>>,
}

/// The observations below the nodes `cs` (each of height `h`), in order.
spec fn children_view<V, M>(cs: Seq<Node<V, M>>, h: nat) -> Seq<Observation<V>> where
    M: Metrics<V> + From<V>,
    decreases h, cs.len() + 1,
{
    if cs.len() == 0 {
        Seq::empty()
    } else {
        children_view(cs.drop_last(), h) + cs.last().view_h(h)
    }
}

impl<V, M> Node<V, M> where M: Metrics<V> + From<V> {
    /// The observations below this node of height `h`, in order.
    spec fn view_h(self, h: nat) -> Seq<Observation<V>>
        decreases h, 0nat,
    {
        match self {
            Node::Leave(l) => l.observations@,
            Node::Intermediate(n) => if h == 0 {
                Seq::empty()
            } else {
                children_view(n.children@, (h - 1) as nat)
            },
        }
    }

    /// This node of height `h` cannot take another observation without a split.
    spec fn full_h(self, h: nat) -> bool
        decreases h,
    {
        match self {
            Node::Leave(l) => l.observations.len() >= LEAVE_CHUNK_SIZE,
            Node::Intermediate(n) => h > 0 && n.children.len() >= INTERMEDIATE_CHUNK_SIZE
                && n.children@.last().full_h((h - 1) as nat),
        }
    }

}

impl<V, M> Node<V, M> where M: Metrics<V> + From<V> + Clone, V: Clone {
    /// This node is well formed at height `h`.
    spec fn wf_h(self, h: nat) -> bool
        decreases h,
    {
        match self {
            Node::Leave(l) => h == 0 && l.wf(),
            Node::Intermediate(n) => {
                &&& h > 0
                &&& 1 <= n.children.len() <= INTERMEDIATE_CHUNK_SIZE
                &&& forall|i: int|
                    0 <= i < n.children.len() ==> (#[trigger] n.children@[i]).wf_h((h - 1) as nat)
                        && n.children@[i].view_h((h - 1) as nat).len() > 0
                &&& forall|i: int| 0 <= i < n.children.len() - 1 ==> (#[trigger] n.children@[i]).full_h((h - 1) as nat)
                &&& n.metrics matches Some(a) ==> self.full_h(h) && a.describes(self.view_h(h))
            },
        }
    }
}

impl<V, M> LeaveNode<V, M> where M: Metrics<V> + From<V> + Clone, V: Clone {
    spec fn wf(self) -> bool {
        &&& self.observations.len() <= LEAVE_CHUNK_SIZE
        &&& self.metrics is None <==> self.observations.len() == 0
        &&& self.metrics matches Some(a) ==> a.summarises(self.observations@)
        &&& self.metrics matches Some(a) ==> (exact_clones::<V, M>() ==> built_up(a.metrics, self.observations@))
    }
}

impl<V, M> InternalNode<V, M> where M: Metrics<V> + From<V> {
    spec fn view_h(self, h: nat) -> Seq<Observation<V>> {
        Node::Intermediate(self).view_h(h)
    }

    spec fn full_h(self, h: nat) -> bool {
        Node::Intermediate(self).full_h(h)
    }
}

impl<V, M> InternalNode<V, M> where M: Metrics<V> + From<V> + Clone, V: Clone {

    spec fn wf_h(self, h: nat) -> bool {
        Node::Intermediate(self).wf_h(h)
    }
}

/// The observations below a prefix of the nodes, one node at a time.
proof fn lemma_children_view_prefix<V, M>(cs: Seq<Node<V, M>>, h: nat, i: int) where
    M: Metrics<V> + From<V> + Clone,
    V: Clone,

    requires
        0 <= i < cs.len(),
    ensures
        children_view(cs.subrange(0, i + 1), h) == children_view(cs.subrange(0, i), h) + cs[i].view_h(h),
{
    assert(cs.subrange(0, i + 1).drop_last() =~= cs.subrange(0, i));
    assert(cs.subrange(0, i + 1).last() == cs[i]);
}

/// Appending a node appends its observations.
proof fn lemma_children_view_push<V, M>(cs: Seq<Node<V, M>>, h: nat, c: Node<V, M>) where
    M: Metrics<V> + From<V> + Clone,
    V: Clone,

    ensures
        children_view(cs.push(c), h) == children_view(cs, h) + c.view_h(h),
{
    assert(cs.push(c).drop_last() =~= cs);
}

/// The observations below a single node.
proof fn lemma_children_view_single<V, M>(c: Node<V, M>, h: nat) where M: Metrics<V> + From<V> + Clone, V: Clone
    ensures
        children_view(seq![c], h) == c.view_h(h),
{
    assert(seq![c].drop_last() =~= Seq::<Node<V, M>>::empty());
    assert(children_view(Seq::<Node<V, M>>::empty(), h) == Seq::<Observation<V>>::empty());
    assert(Seq::<Observation<V>>::empty() + c.view_h(h) =~= c.view_h(h));
}

/// The observations below all nodes are those below the whole prefix.
proof fn lemma_children_view_whole<V, M>(cs: Seq<Node<V, M>>, h: nat) where M: Metrics<V> + From<V> + Clone, V: Clone
    ensures
        children_view(cs.subrange(0, cs.len() as int), h) == children_view(cs, h),
{
    assert(cs.subrange(0, cs.len() as int) =~= cs);
}

/// A prefix has no more observations than the whole.
proof fn lemma_children_view_len_prefix<V, M>(cs: Seq<Node<V, M>>, h: nat, i: int) where
    M: Metrics<V> + From<V> + Clone,
    V: Clone,

    requires
        0 <= i <= cs.len(),
    ensures
        children_view(cs.subrange(0, i), h).len() <= children_view(cs, h).len(),
    decreases cs.len() - i,
{
    if i < cs.len() {
        lemma_children_view_prefix(cs, h, i);
        lemma_children_view_len_prefix(cs, h, i + 1);
    } else {
        lemma_children_view_whole(cs, h);
    }
}

/// Replacing the last node by one with an observation more appends that observation.
proof fn lemma_children_view_update_last<V, M>(
    cs: Seq<Node<V, M>>,
    h: nat,
    c: Node<V, M>,
    o: Observation<V>,
) where M: Metrics<V> + From<V> + Clone, V: Clone
    requires
        cs.len() > 0,
        c.view_h(h) == cs.last().view_h(h).push(o),
    ensures
        children_view(cs.update(cs.len() - 1, c), h) == children_view(cs, h).push(o),
{
    let cs2 = cs.update(cs.len() - 1, c);
    assert(cs2.drop_last() =~= cs.drop_last());
    assert(cs2.last() == c);
    assert(children_view(cs.drop_last(), h) + cs.last().view_h(h).push(o)
        =~= (children_view(cs.drop_last(), h) + cs.last().view_h(h)).push(o));
}

/// Replacing the last node by one with the same observations changes nothing.
proof fn lemma_children_view_same_last<V, M>(cs: Seq<Node<V, M>>, h: nat, c: Node<V, M>) where
    M: Metrics<V> + From<V> + Clone,
    V: Clone,

    requires
        cs.len() > 0,
        c.view_h(h) == cs.last().view_h(h),
    ensures
        children_view(cs.update(cs.len() - 1, c), h) == children_view(cs, h),
{
    let cs2 = cs.update(cs.len() - 1, c);
    assert(cs2.drop_last() =~= cs.drop_last());
    assert(cs2.last() == c);
}

impl<V, M> LeaveNode<V, M> where M: Metrics<V> + From<V> + Clone, V: Clone {
    /// Create a new leave chunk!
    fn new() -> (r: Self)
        ensures
            r.wf(),
            r.observations@.len() == 0,
    {
        LeaveNode { observations: Vec::with_capacity(LEAVE_CHUNK_SIZE), metrics: None }
    }

    /// Test if this leave is full or not.
    fn is_full(&self) -> (r: bool)
        ensures
            r == (self.observations.len() >= LEAVE_CHUNK_SIZE),
    {
        self.observations.len() >= LEAVE_CHUNK_SIZE
    }

    fn metrics(&self) -> (r: Option<Aggregation<V, M>>)
        requires
            self.wf(),
        ensures
            r is None <==> self.observations@.len() == 0,
            r matches Some(a) ==> a.describes(self.observations@),
    {
        match &self.metrics {
            Some(a) => Some(a.duplicate()),
            None => None,
        }
    }

    /// Append a single observation to this tree.
    /// If the node is full, return a new leave node.
    fn append_observation(&mut self, observation: Observation<V>) -> (r: Option<LeaveNode<V, M>>)
        requires
            old(self).wf(),
        ensures
            old(self).observations.len() >= LEAVE_CHUNK_SIZE ==> {
                &&& *final(self) == *old(self)
                &&& r matches Some(n) && n.wf() && n.observations@ == seq![observation]
            },
            old(self).observations.len() < LEAVE_CHUNK_SIZE ==> {
                &&& r is None
                &&& final(self).wf()
                &&& final(self).observations@ == old(self).observations@.push(observation)
            },
    {
        if self.is_full() {
            // We must split!
            let mut new_leave = LeaveNode::new();
            new_leave.add_sample(observation);
            assert(new_leave.observations@ =~= seq![observation]);
            Some(new_leave)
        } else {
            self.add_sample(observation);
            None
        }
    }

    fn add_sample(&mut self, observation: Observation<V>)
        requires
            old(self).wf(),
            old(self).observations.len() < LEAVE_CHUNK_SIZE,
        ensures
            final(self).wf(),
            final(self).observations@ == old(self).observations@.push(observation),
    {
        proof {
            lemma_timestamps_push(self.observations@, observation);
        }
        // Update metrics:
        match &mut self.metrics {
            None => {
                let copy = observation.clone();
                let aggregation = Aggregation::from_observation(copy);
                proof {
                    if exact_clones::<V, M>() {
                        assert(cloned(observation.value, copy.value));
                        assert(Seq::<Observation<V>>::empty().push(observation).drop_first() =~= Seq::<Observation<V>>::empty());
                        assert(updated_with(aggregation.metrics, Seq::<Observation<V>>::empty()) == aggregation.metrics);
                        assert(Seq::<Observation<V>>::empty().push(observation)[0] == observation);
                    }
                    lemma_hull_point(observation.timestamp);
                    assert(timestamps_of(Seq::<Observation<V>>::empty().push(observation))
                        =~= seq![observation.timestamp]);
                    assert(self.observations@ =~= Seq::<Observation<V>>::empty());
                }
                self.metrics = Some(aggregation);
            },
            Some(aggregation) => {
                proof {
                    lemma_hull_push(aggregation.timespan, timestamps_of(self.observations@), observation.timestamp);
                    if exact_clones::<V, M>() {
                        lemma_built_up_push(aggregation.metrics, self.observations@, observation);
                    }
                }
                aggregation.include_observation(&observation);
            },
        }
        self.observations.push(observation);
    }
}

/// The observations below all nodes include those below the last one.
proof fn lemma_children_view_last_len<V, M>(cs: Seq<Node<V, M>>, h: nat) where
    M: Metrics<V> + From<V> + Clone,
    V: Clone,

    requires
        cs.len() > 0,
    ensures
        cs.last().view_h(h).len() <= children_view(cs, h).len(),
{
}

impl<V, M> InternalNode<V, M> where M: Metrics<V> + From<V> + Clone, V: Clone {
    fn new() -> (r: Self)
        ensures
            r.children@.len() == 0,
            r.metrics is None,
    {
        InternalNode { children: Vec::with_capacity(INTERMEDIATE_CHUNK_SIZE), metrics: None }
    }

    fn is_full(&self) -> (r: bool)
        ensures
            r == (self.children.len() >= INTERMEDIATE_CHUNK_SIZE),
    {
        self.children.len() >= INTERMEDIATE_CHUNK_SIZE
    }

    fn metrics(&self, Ghost(h): Ghost<nat>) -> (r: Option<Aggregation<V, M>>)
        requires
            self.wf_h(h),
            self.view_h(h).len() <= usize::MAX,
        ensures
            r matches Some(a) && a.describes(self.view_h(h)),
        decreases h, 1nat,
    {
        match &self.metrics {
            // We have pre-calculated metrics!
            Some(a) => Some(a.duplicate()),
            None => self.calculate_metrics_from_child_nodes(Ghost(h)),
        }
    }

    fn calculate_metrics_from_child_nodes(&self, Ghost(h): Ghost<nat>) -> (r: Option<Aggregation<V, M>>)
        requires
            self.wf_h(h),
            self.view_h(h).len() <= usize::MAX,
        ensures
            r matches Some(a) && a.describes(self.view_h(h)),
        decreases h, 0nat,
    {
        let ghost hc = (h - 1) as nat;
        let ghost cs = self.children@;
        let mut metrics: Option<Aggregation<V, M>> = None;
        let mut i: usize = 0;
        assert(cs.subrange(0, 0) =~= Seq::<Node<V, M>>::empty());
        while i < self.children.len()
            invariant
                h > 0,
                hc == h - 1,
                cs == self.children@,
                self.wf_h(h),
                self.view_h(h) == children_view(cs, hc),
                children_view(cs, hc).len() <= usize::MAX,
                0 <= i <= cs.len(),
                metrics is None <==> i == 0,
                metrics matches Some(a) ==> a.describes(children_view(cs.subrange(0, i as int), hc)),
            decreases cs.len() - i,
        {
            let child = &self.children[i];
            proof {
                assert(cs[i as int].wf_h(hc));
                lemma_children_view_prefix(cs, hc, i as int);
                lemma_children_view_len_prefix(cs, hc, i + 1);
            }
            let child_metrics = child.metrics(Ghost(hc));
            match child_metrics {
                Some(cm) => {
                    match &mut metrics {
                        Some(metrics2) => {
                            proof {
                                lemma_timestamps_concat(children_view(cs.subrange(0, i as int), hc), cs[i as int].view_h(hc));
                                lemma_hull_concat(
                                    metrics2.timespan,
                                    timestamps_of(children_view(cs.subrange(0, i as int), hc)),
                                    cm.timespan,
                                    timestamps_of(cs[i as int].view_h(hc)),
                                );
                                if exact_clones::<V, M>() {
                                    lemma_metrics_merge(
                                        metrics2.metrics,
                                        children_view(cs.subrange(0, i as int), hc),
                                        cm.metrics,
                                        cs[i as int].view_h(hc),
                                    );
                                }
                            }
                            metrics2.include_aggregation(&cm);
                        },
                        None => {
                            proof {
                                assert(cs.subrange(0, 0) =~= Seq::<Node<V, M>>::empty());
                                assert(children_view(Seq::<Node<V, M>>::empty(), hc) + cs[0].view_h(hc) =~= cs[0].view_h(hc));
                            }
                            metrics = Some(cm);
                        },
                    }
                },
                None => {},
            }
            i = i + 1;
        }
        proof {
            lemma_children_view_whole(cs, hc);
        }
        metrics
    }

    fn append_observation(&mut self, observation: Observation<V>, Ghost(h): Ghost<nat>) -> (r: Option<InternalNode<V, M>>)
        requires
            old(self).wf_h(h),
            old(self).view_h(h).len() < usize::MAX,
        ensures
            old(self).full_h(h) ==> {
                &&& final(self).wf_h(h)
                &&& final(self).full_h(h)
                &&& final(self).view_h(h) == old(self).view_h(h)
                &&& r matches Some(n) && n.wf_h(h) && n.view_h(h) == seq![observation]
            },
            !old(self).full_h(h) ==> {
                &&& r is None
                &&& final(self).wf_h(h)
                &&& final(self).view_h(h) == old(self).view_h(h).push(observation)
            },
        decreases h, 0nat,
    {
        let ghost hc = (h - 1) as nat;
        let ghost cs = self.children@;
        proof {
            assert(cs[cs.len() - 1].wf_h(hc));
            lemma_children_view_last_len(cs, hc);
        }
        // For now alway insert into last chunk:
        let mut last = self.children.pop().unwrap();
        let optional_new_chunk = last.append_observation(observation, Ghost(hc));
        self.children.push(last);
        proof {
            assert(self.children@ =~= cs.update(cs.len() - 1, last));
            assert forall|i: int| 0 <= i < self.children@.len() implies (#[trigger] self.children@[i]).wf_h(hc)
                && self.children@[i].view_h(hc).len() > 0 by {
                if i < cs.len() - 1 {
                    assert(self.children@[i] == cs[i]);
                }
            }
        }
        // Optionally we have a new chunk which must be added.
        match optional_new_chunk {
            Some(new_child) => {
                proof {
                    lemma_children_view_same_last(cs, hc, last);
                }
                if self.is_full() {
                    self.metrics = self.calculate_metrics_from_child_nodes(Ghost(h));
                    // Split required!
                    // for now, just split by creating a new node.
                    let mut new_sibling = InternalNode::new();
                    new_sibling.add_child(new_child);
                    proof {
                        assert(new_sibling.children@ =~= seq![new_child]);
                        lemma_children_view_single(new_child, hc);
                        assert(new_sibling.children@[0] == new_child);
                    }
                    Some(new_sibling)
                } else {
                    let ghost cs2 = self.children@;
                    self.add_child(new_child);
                    proof {
                        lemma_children_view_push(cs2, hc, new_child);
                        assert forall|i: int| 0 <= i < self.children@.len() implies (#[trigger] self.children@[i]).wf_h(hc)
                            && self.children@[i].view_h(hc).len() > 0 by {
                            if i < cs2.len() {
                                assert(self.children@[i] == cs2[i]);
                            }
                        }
                    }
                    None
                }
            },
            None => {
                proof {
                    lemma_children_view_update_last(cs, hc, last, observation);
                }
                None
            },
        }
    }

    /// Append a chunk into this chunk.
    fn add_child(&mut self, child: Node<V, M>)
        requires
            old(self).children.len() < INTERMEDIATE_CHUNK_SIZE,
        ensures
            final(self).children@ == old(self).children@.push(child),
            final(self).metrics == old(self).metrics,
    {
        self.children.push(child);
    }
}

impl<V, M> Node<V, M> where M: Metrics<V> + From<V> + Clone, V: Clone {
    fn new_intermediate() -> (r: Self)
        ensures
            r matches Node::Intermediate(n) && n.children@.len() == 0 && n.metrics is None,
    {
        Node::Intermediate(InternalNode::new())
    }

    fn new_leave() -> (r: Self)
        ensures
            r.wf_h(0),
            r.view_h(0) == Seq::<Observation<V>>::empty(),
    {
        Node::Leave(LeaveNode::new())
    }

    /// Test if this chunk is full
    fn _is_full(&self) -> (r: bool)
        ensures
            r == match self {
                Node::Leave(l) => l.observations.len() >= LEAVE_CHUNK_SIZE,
                Node::Intermediate(n) => n.children.len() >= INTERMEDIATE_CHUNK_SIZE,
            },
    {
        match self {
            Node::Leave(leave) => leave.is_full(),
            Node::Intermediate(internal) => internal.is_full(),
        }
    }

    fn add_child(&mut self, child: Node<V, M>)
        requires
            *old(self) matches Node::Intermediate(n) && n.children.len() < INTERMEDIATE_CHUNK_SIZE,
        ensures
            *final(self) matches Node::Intermediate(n) && *old(self) matches Node::Intermediate(o)
                && n.children@ == o.children@.push(child) && n.metrics == o.metrics,
    {
        match self {
            Node::Intermediate(internal_node) => internal_node.add_child(child),
            Node::Leave(_) => {},
        }
    }

    /// The append observation to operation!
    fn append_observation(&mut self, observation: Observation<V>, Ghost(h): Ghost<nat>) -> (r: Option<Node<V, M>>)
        requires
            old(self).wf_h(h),
            old(self).view_h(h).len() < usize::MAX,
        ensures
            old(self).full_h(h) ==> {
                &&& final(self).wf_h(h)
                &&& final(self).full_h(h)
                &&& final(self).view_h(h) == old(self).view_h(h)
                &&& r matches Some(n) && n.wf_h(h) && n.view_h(h) == seq![observation]
            },
            !old(self).full_h(h) ==> {
                &&& r is None
                &&& final(self).wf_h(h)
                &&& final(self).view_h(h) == old(self).view_h(h).push(observation)
            },
        decreases h, 1nat,
    {
        match self {
            Node::Intermediate(internal_node) => {
                match internal_node.append_observation(observation, Ghost(h)) {
                    Some(n) => Some(Node::Intermediate(n)),
                    None => None,
                }
            },
            Node::Leave(leave_node) => {
                match leave_node.append_observation(observation) {
                    Some(n) => Some(Node::Leave(n)),
                    None => None,
                }
            },
        }
    }

    /// Get metrics for this node
    fn metrics(&self, Ghost(h): Ghost<nat>) -> (r: Option<Aggregation<V, M>>)
        requires
            self.wf_h(h),
            self.view_h(h).len() <= usize::MAX,
        ensures
            r is None <==> self.view_h(h).len() == 0,
            r matches Some(a) ==> a.describes(self.view_h(h)),
        decreases h, 2nat,
    {
        match self {
            Node::Leave(leave) => leave.metrics(),
            Node::Intermediate(internal) => internal.metrics(Ghost(h)),
        }
    }

    fn len(&self, Ghost(h): Ghost<nat>) -> (r: usize)
        requires
            self.wf_h(h),
            self.view_h(h).len() <= usize::MAX,
        ensures
            r == self.view_h(h).len(),
    {
        match self.metrics(Ghost(h)) {
            Some(m) => m.count,
            None => 0,
        }
    }
}

/// A clone of an observation is a copy of it.
proof fn lemma_cloned_observation<V: Clone>(a: Observation<V>, b: Observation<V>)
    requires
        cloned(a, b),
    ensures
        is_copy_of(a, b),
{
}

/// Copies of two sequences concatenate to copies of their concatenation.
proof fn lemma_copies_concat<V: Clone>(
    s1: Seq<Observation<V>>,
    t1: Seq<Observation<V>>,
    s2: Seq<Observation<V>>,
    t2: Seq<Observation<V>>,
)
    requires
        are_copies_of(s1, t1),
        are_copies_of(s2, t2),
    ensures
        are_copies_of(s1 + s2, t1 + t2),
{
    assert forall|i: int| 0 <= i < (s1 + s2).len() implies is_copy_of(#[trigger] (s1 + s2)[i], (t1 + t2)[i]) by {
        if i < s1.len() {
            assert(is_copy_of(s1[i], t1[i]));
        } else {
            assert(is_copy_of(s2[i - s1.len()], t2[i - s1.len()]));
        }
    }
}

impl<V, M> LeaveNode<V, M> where M: Metrics<V> + From<V> + Clone, V: Clone {
    fn to_vec(&self) -> (r: Vec<Observation<V>>)
        ensures
            are_copies_of(self.observations@, r@),
    {
        let r = self.observations.clone();
        assert forall|i: int| 0 <= i < self.observations@.len() implies is_copy_of(
            #[trigger] self.observations@[i],
            r@[i],
        ) by {
            lemma_cloned_observation(self.observations@[i], r@[i]);
        }
        r
    }
}

impl<V, M> InternalNode<V, M> where M: Metrics<V> + From<V> + Clone, V: Clone {
    fn to_vec(&self, Ghost(h): Ghost<nat>) -> (r: Vec<Observation<V>>)
        requires
            self.wf_h(h),
        ensures
            are_copies_of(self.view_h(h), r@),
        decreases h, 0nat,
    {
        let ghost hc = (h - 1) as nat;
        let ghost cs = self.children@;
        let mut samples: Vec<Observation<V>> = Vec::new();
        let mut i: usize = 0;
        assert(cs.subrange(0, 0) =~= Seq::<Node<V, M>>::empty());
        while i < self.children.len()
            invariant
                h > 0,
                hc == h - 1,
                cs == self.children@,
                self.wf_h(h),
                self.view_h(h) == children_view(cs, hc),
                0 <= i <= cs.len(),
                are_copies_of(children_view(cs.subrange(0, i as int), hc), samples@),
            decreases cs.len() - i,
        {
            proof {
                assert(cs[i as int].wf_h(hc));
                lemma_children_view_prefix(cs, hc, i as int);
            }
            let mut child_samples = self.children[i].to_vec(Ghost(hc));
            let ghost before = samples@;
            proof {
                lemma_copies_concat(children_view(cs.subrange(0, i as int), hc), before,
                    cs[i as int].view_h(hc), child_samples@);
            }
            samples.append(&mut child_samples);
            i = i + 1;
        }
        proof {
            lemma_children_view_whole(cs, hc);
        }
        samples
    }
}

impl<V, M> Node<V, M> where M: Metrics<V> + From<V> + Clone, V: Clone {
    /// Get all samples from this chunk and all it's potential
    /// sub chunks.
    fn to_vec(&self, Ghost(h): Ghost<nat>) -> (r: Vec<Observation<V>>)
        requires
            self.wf_h(h),
        ensures
            are_copies_of(self.view_h(h), r@),
        decreases h, 1nat,
    {
        match self {
            Node::Intermediate(internal) => internal.to_vec(Ghost(h)),
            Node::Leave(leave) => leave.to_vec(),
        }
    }
}

impl<V, M> View for Btree<V, M> where M: Metrics<V> + From<V> {
    type V = Seq<Observation<V>>;

    /// All observations in the tree, in the order in which they were appended.
    closed spec fn view(&self) -> Seq<Observation<V>> {
        self.root.view_h(self.height@)
    }
}

impl<V, M> Btree<V, M> where M: Metrics<V> + From<V> + Clone, V: Clone {
    /// The tree is well formed: each leave holds at most a leave's worth of
    /// observations, each inner node one to five children, all leaves lie at
    /// the same depth, every child but the last is full, and every summary
    /// kept in a node describes the observations below it, metrics included.
    pub closed spec fn wf(&self) -> bool {
        &&& self.root.wf_h(self.height@)
        &&& self.root.view_h(self.height@).len() <= usize::MAX
        &&& self.height@ > 0 ==> self.root.view_h(self.height@).len() > LEAVE_CHUNK_SIZE
    }
}

impl<V, M> Btree<V, M> where M: Metrics<V> + From<V> + Clone, V: Clone {
    /// Create an empty b-tree
    pub fn new() -> (r: Self)
        ensures
            r.wf(),
            r@ == Seq::<Observation<V>>::empty(),
    {
        Btree { root: Node::new_leave(), height: Ghost(0) }
    }

    /// Append a sample to the tree
    pub fn append_sample(&mut self, observation: Observation<V>)
        requires
            old(self).wf(),
            old(self)@.len() < usize::MAX,
        ensures
            final(self).wf(),
            final(self)@ == old(self)@.push(observation),
    {
        // Strategy, traverse down, until a leave, and split on the way back upwards if
        // required.
        let ghost h = self.height@;
        let ghost before = self.root;
        let optionally_root_split = self.root.append_observation(observation, Ghost(h));
        if let Some(root_sibling) = optionally_root_split {
            let mut old_root = Node::new_intermediate();
            core::mem::swap(&mut self.root, &mut old_root);
            self.root.add_child(old_root);
            self.root.add_child(root_sibling);
            self.height = Ghost(h + 1);
            proof {
                let n = self.root->Intermediate_0;
                assert(n.children@ =~= seq![old_root, root_sibling]);
                assert(n.children@[0] == old_root);
                assert(n.children@[1] == root_sibling);
                lemma_children_view_single(old_root, h);
                assert(seq![old_root, root_sibling] =~= seq![old_root].push(root_sibling));
                lemma_children_view_push(seq![old_root], h, root_sibling);
                if h == 0 {
                    assert(before.full_h(0));
                    assert(before is Leave);
                }
            }
        }
    }

    /// Bulk import samples.
    pub fn append_samples(&mut self, observations: Vec<Observation<V>>)
        requires
            old(self).wf(),
            old(self)@.len() + observations@.len() <= usize::MAX,
        ensures
            final(self).wf(),
            final(self)@ == old(self)@ + observations@,
    {
        let ghost start = self@;
        let ghost all = observations@;
        let n: usize = observations.len();
        let mut rest = observations;
        let mut taken: Vec<Observation<V>> = Vec::new();
        // Take the observations from the back, then append them from the front.
        while rest.len() > 0
            invariant
                n == all.len(),
                rest@ == all.subrange(0, rest@.len() as int),
                taken@.len() + rest@.len() == n,
                forall|i: int| 0 <= i < taken@.len() ==> #[trigger] taken@[i] == all[n - 1 - i],
            decreases rest.len(),
        {
            let o = rest.pop().unwrap();
            taken.push(o);
            assert(rest@ =~= all.subrange(0, rest@.len() as int));
        }
        while taken.len() > 0
            invariant
                self.wf(),
                n == all.len(),
                start.len() + n <= usize::MAX,
                self@ == start + all.subrange(0, n - taken@.len()),
                taken@.len() <= n,
                forall|i: int| 0 <= i < taken@.len() ==> #[trigger] taken@[i] == all[n - 1 - i],
            decreases taken.len(),
        {
            let ghost k = n - taken@.len();
            assert(taken@[taken@.len() - 1] == all[k]);
            let o = taken.pop().unwrap();
            self.append_sample(o);
            assert(all.subrange(0, k + 1) =~= all.subrange(0, k).push(all[k]));
            assert(self@ =~= start + all.subrange(0, n - taken@.len()));
        }
        assert(all.subrange(0, n as int) =~= all);
    }

    /// Get a summary about all data in this tree: its count, time span and
    /// metrics.
    pub fn summary(&self) -> (r: Option<Aggregation<V, M>>)
        requires
            self.wf(),
        ensures
            r is None <==> self@.len() == 0,
            r matches Some(a) ==> a.describes(self@),
    {
        self.root.metrics(Ghost(self.height@))
    }

    /// Get a flat list of all observation in this tree.
    pub fn to_vec(&self) -> (r: Vec<Observation<V>>)
        requires
            self.wf(),
        ensures
            are_copies_of(self@, r@),
    {
        self.root.to_vec(Ghost(self.height@))
    }

    /// The number of observations in the tree.
    pub fn len(&self) -> (r: usize)
        requires
            self.wf(),
        ensures
            r == self@.len(),
    {
        self.root.len(Ghost(self.height@))
    }
}

impl<V, M> Default for Btree<V, M> where M: Metrics<V> + From<V> + Clone, V: Clone {
    fn default() -> (r: Self)
        ensures
            r.wf(),
            r@ == Seq::<Observation<V>>::empty(),
    {
        Btree::new()
    }
}

/// The result of selecting a time range on a node.
enum RangeSelectionResult<'t, V, M> where M: Metrics<V> + From<V> {
    Nodes(Vec<&'t Node<V, M>>),
    Observations(Vec<&'t Observation<V>>),
}

/// The nodes behind a sequence of references.
spec fn deref_nodes<'t, V, M>(s: Seq<&'t Node<V, M>>) -> Seq<Node<V, M>> where
    M: Metrics<V> + From<V> + Clone,
    V: Clone,

{
    s.map_values(|n: &'t Node<V, M>| *n)
}

/// The observations behind a sequence of references.
spec fn deref_observations<'t, V>(s: Seq<&'t Observation<V>>) -> Seq<Observation<V>> {
    s.map_values(|o: &'t Observation<V>| *o)
}

/// The hull of the observations below node `n` (of height `g`) overlaps `t`.
spec fn touches<V, M>(n: Node<V, M>, g: nat, t: TimeSpan) -> bool where
    M: Metrics<V> + From<V> + Clone,
    V: Clone,

{
    exists|tt: TimeSpan| is_hull(tt, timestamps_of(n.view_h(g))) && tt.spec_overlap(t)
}

/// The nodes of `cs` (each of height `g`) whose observations' hull overlaps `t`, in order.
spec fn touching<V, M>(cs: Seq<Node<V, M>>, g: nat, t: TimeSpan) -> Seq<Node<V, M>> where
    M: Metrics<V> + From<V> + Clone,
    V: Clone,
    decreases cs.len(),
{
    if cs.len() == 0 {
        cs
    } else if touches(cs.last(), g, t) {
        touching(cs.drop_last(), g, t).push(cs.last())
    } else {
        touching(cs.drop_last(), g, t)
    }
}

/// No observation lies in `t` when none of the timestamps do.
proof fn lemma_in_span_none<V>(s: Seq<Observation<V>>, t: TimeSpan)
    requires
        forall|i: int| 0 <= i < s.len() ==> !t.spec_contains(#[trigger] s[i].timestamp),
    ensures
        in_span(s, t) == Seq::<Observation<V>>::empty(),
    decreases s.len(),
{
    if s.len() > 0 {
        assert(!t.spec_contains(s[s.len() - 1].timestamp));
        lemma_in_span_none(s.drop_last(), t);
    }
}

/// A node whose hull does not overlap `t` has no observation in `t`.
proof fn lemma_not_touching_in_span<V, M>(n: Node<V, M>, g: nat, t: TimeSpan, tt: TimeSpan) where
    M: Metrics<V> + From<V> + Clone,
    V: Clone,

    requires
        is_hull(tt, timestamps_of(n.view_h(g))),
        !tt.spec_overlap(t),
    ensures
        in_span(n.view_h(g), t) == Seq::<Observation<V>>::empty(),
{
    let s = n.view_h(g);
    assert forall|i: int| 0 <= i < s.len() implies !t.spec_contains(#[trigger] s[i].timestamp) by {
        assert(timestamps_of(s)[i] == s[i].timestamp);
        assert(tt.spec_contains(timestamps_of(s)[i]));
    }
    lemma_in_span_none(s, t);
}

/// A node whose hull lies in `t` has all of its observations in `t`.
proof fn lemma_covered_in_span<V, M>(n: Node<V, M>, g: nat, t: TimeSpan, tt: TimeSpan) where
    M: Metrics<V> + From<V> + Clone,
    V: Clone,

    requires
        is_hull(tt, timestamps_of(n.view_h(g))),
        t.spec_covers(tt),
    ensures
        in_span(n.view_h(g), t) == n.view_h(g),
{
    let s = n.view_h(g);
    assert forall|i: int| 0 <= i < s.len() implies t.spec_contains(#[trigger] s[i].timestamp) by {
        assert(timestamps_of(s)[i] == s[i].timestamp);
        assert(tt.spec_contains(timestamps_of(s)[i]));
    }
    lemma_covering_span(s, t);
}

/// Dropping the nodes that do not overlap `t` keeps the observations in `t`.
proof fn lemma_touching_in_span<V, M>(cs: Seq<Node<V, M>>, g: nat, t: TimeSpan) where
    M: Metrics<V> + From<V> + Clone,
    V: Clone,

    requires
        forall|i: int| 0 <= i < cs.len() ==> (#[trigger] cs[i]).view_h(g).len() > 0,
    ensures
        in_span(children_view(touching(cs, g, t), g), t) == in_span(children_view(cs, g), t),
    decreases cs.len(),
{
    if cs.len() > 0 {
        let last = cs.last();
        assert(cs[cs.len() - 1] == last);
        lemma_touching_in_span(cs.drop_last(), g, t);
        lemma_in_span_concat(children_view(cs.drop_last(), g), last.view_h(g), t);
        if touches(last, g, t) {
            lemma_children_view_push(touching(cs.drop_last(), g, t), g, last);
            lemma_in_span_concat(children_view(touching(cs.drop_last(), g, t), g), last.view_h(g), t);
        } else {
            // the hull exists and does not overlap
            let ts = timestamps_of(last.view_h(g));
            let tt = hull_of(ts);
            lemma_hull_of(last.view_h(g));
            if tt.spec_overlap(t) {
                assert(touches(last, g, t));
            }
            lemma_not_touching_in_span(last, g, t, tt);
            assert(in_span(children_view(cs.drop_last(), g), t) + Seq::<Observation<V>>::empty()
                =~= in_span(children_view(cs.drop_last(), g), t));
        }
    }
}

/// The hull of a non-empty sequence of timestamps.
spec fn hull_of(s: Seq<crate::time::TimeStamp>) -> TimeSpan
    decreases s.len(),
{
    if s.len() <= 1 {
        TimeSpan::point(s[0])
    } else {
        hull_of(s.drop_last()).spec_including(s.last())
    }
}

/// Every non-empty sequence of timestamps has a hull.
proof fn lemma_hull_of<V>(s: Seq<Observation<V>>)
    requires
        s.len() > 0,
    ensures
        is_hull(hull_of(timestamps_of(s)), timestamps_of(s)),
    decreases s.len(),
{
    let ts = timestamps_of(s);
    if s.len() == 1 {
        lemma_hull_point(s[0].timestamp);
        assert(ts =~= seq![s[0].timestamp]);
    } else {
        lemma_hull_of(s.drop_last());
        assert(timestamps_of(s.drop_last()) =~= ts.drop_last());
        lemma_hull_push(hull_of(ts.drop_last()), ts.drop_last(), ts.last());
        assert(ts.drop_last().push(ts.last()) =~= ts);
    }
}

impl<V, M> LeaveNode<V, M> where M: Metrics<V> + From<V> + Clone, V: Clone {
    /// Select the observations from this leave which fall into the given
    /// timespan.
    fn select_range(&self, timespan: &TimeSpan) -> (r: Vec<&Observation<V>>)
        ensures
            deref_observations(r@) == in_span(self.observations@, *timespan),
    {
        let ghost obs = self.observations@;
        let mut in_range_observations: Vec<&Observation<V>> = Vec::new();
        let mut i: usize = 0;
        assert(obs.subrange(0, 0) =~= Seq::<Observation<V>>::empty());
        assert(deref_observations(in_range_observations@) =~= Seq::<Observation<V>>::empty());
        while i < self.observations.len()
            invariant
                obs == self.observations@,
                0 <= i <= obs.len(),
                deref_observations(in_range_observations@) == in_span(obs.subrange(0, i as int), *timespan),
            decreases obs.len() - i,
        {
            let observation = &self.observations[i];
            let ghost before = in_range_observations@;
            if timespan.contains(&observation.timestamp) {
                in_range_observations.push(observation);
            }
            proof {
                assert(obs.subrange(0, i + 1).drop_last() =~= obs.subrange(0, i as int));
                assert(obs.subrange(0, i + 1).last() == obs[i as int]);
                assert(deref_observations(before.push(observation)) =~= deref_observations(before).push(obs[i as int]));
            }
            i = i + 1;
        }
        assert(obs.subrange(0, obs.len() as int) =~= obs);
        in_range_observations
    }

    fn select_all(&self) -> (r: Vec<&Observation<V>>)
        ensures
            deref_observations(r@) == self.observations@,
    {
        let mut all: Vec<&Observation<V>> = Vec::new();
        let mut i: usize = 0;
        while i < self.observations.len()
            invariant
                0 <= i <= self.observations@.len(),
                deref_observations(all@) == self.observations@.subrange(0, i as int),
            decreases self.observations@.len() - i,
        {
            let o = &self.observations[i];
            let ghost before = all@;
            all.push(o);
            assert(deref_observations(before.push(o)) =~= deref_observations(before).push(*o));
            assert(deref_observations(all@) =~= self.observations@.subrange(0, i + 1));
            i = i + 1;
        }
        assert(self.observations@.subrange(0, i as int) =~= self.observations@);
        all
    }
}

impl<V, M> InternalNode<V, M> where M: Metrics<V> + From<V> + Clone, V: Clone {
    /// Select child nodes in range.
    fn select_range(&self, timespan: &TimeSpan, Ghost(h): Ghost<nat>) -> (r: Vec<&Node<V, M>>)
        requires
            self.wf_h(h),
            self.view_h(h).len() <= usize::MAX,
        ensures
            deref_nodes(r@) == touching(self.children@, (h - 1) as nat, *timespan),
    {
        let ghost hc = (h - 1) as nat;
        let ghost cs = self.children@;
        let ghost t = *timespan;
        let mut in_range_nodes: Vec<&Node<V, M>> = Vec::new();
        let mut i: usize = 0;
        assert(cs.subrange(0, 0) =~= Seq::<Node<V, M>>::empty());
        assert(deref_nodes(in_range_nodes@) =~= Seq::<Node<V, M>>::empty());
        while i < self.children.len()
            invariant
                h > 0,
                hc == h - 1,
                cs == self.children@,
                t == *timespan,
                self.wf_h(h),
                self.view_h(h) == children_view(cs, hc),
                children_view(cs, hc).len() <= usize::MAX,
                0 <= i <= cs.len(),
                deref_nodes(in_range_nodes@) == touching(cs.subrange(0, i as int), hc, t),
            decreases cs.len() - i,
        {
            let child = &self.children[i];
            proof {
                assert(cs[i as int].wf_h(hc));
                lemma_children_view_prefix(cs, hc, i as int);
                lemma_children_view_len_prefix(cs, hc, i + 1);
                assert(cs.subrange(0, i + 1).drop_last() =~= cs.subrange(0, i as int));
                assert(cs.subrange(0, i + 1).last() == cs[i as int]);
            }
            let ghost before = in_range_nodes@;
            if let Some(child_metrics) = child.metrics(Ghost(hc)) {
                if child_metrics.timespan.overlap(timespan) {
                    in_range_nodes.push(child);
                    proof {
                        assert(touches(*child, hc, t));
                        assert(deref_nodes(before.push(child)) =~= deref_nodes(before).push(*child));
                    }
                } else {
                    proof {
                        assert forall|tt: TimeSpan| is_hull(tt, timestamps_of(child.view_h(hc))) implies !tt.spec_overlap(t) by {
                            lemma_hull_unique(tt, child_metrics.timespan, timestamps_of(child.view_h(hc)));
                        }
                    }
                }
            }
            i = i + 1;
        }
        assert(cs.subrange(0, cs.len() as int) =~= cs);
        in_range_nodes
    }

    /// Select all child nodes.
    fn select_all(&self) -> (r: Vec<&Node<V, M>>)
        ensures
            deref_nodes(r@) == self.children@,
    {
        let mut all: Vec<&Node<V, M>> = Vec::new();
        let mut i: usize = 0;
        while i < self.children.len()
            invariant
                0 <= i <= self.children@.len(),
                deref_nodes(all@) == self.children@.subrange(0, i as int),
            decreases self.children@.len() - i,
        {
            let c = &self.children[i];
            let ghost before = all@;
            all.push(c);
            assert(deref_nodes(before.push(c)) =~= deref_nodes(before).push(*c));
            assert(deref_nodes(all@) =~= self.children@.subrange(0, i + 1));
            i = i + 1;
        }
        assert(self.children@.subrange(0, i as int) =~= self.children@);
        all
    }
}

impl<V, M> Node<V, M> where M: Metrics<V> + From<V> + Clone, V: Clone {
    /// The child nodes of an intermediate node.
    spec fn spec_children(self) -> Seq<Node<V, M>> {
        match self {
            Node::Intermediate(n) => n.children@,
            Node::Leave(_) => Seq::empty(),
        }
    }

    /// Select all child elements
    fn select_all(&self, Ghost(h): Ghost<nat>) -> (r: RangeSelectionResult<'_, V, M>)
        requires
            self.wf_h(h),
        ensures
            h == 0 ==> (r matches RangeSelectionResult::Observations(os)
                && deref_observations(os@) == self.view_h(h)),
            h > 0 ==> (r matches RangeSelectionResult::Nodes(ns)
                && deref_nodes(ns@) == self.spec_children()),
    {
        match self {
            Node::Intermediate(internal) => RangeSelectionResult::Nodes(internal.select_all()),
            Node::Leave(leave) => RangeSelectionResult::Observations(leave.select_all()),
        }
    }

    /// Select a timespan of elements
    fn select_range(&self, timespan: &TimeSpan, Ghost(h): Ghost<nat>) -> (r: RangeSelectionResult<'_, V, M>)
        requires
            self.wf_h(h),
            self.view_h(h).len() <= usize::MAX,
        ensures
            h == 0 ==> (r matches RangeSelectionResult::Observations(os)
                && deref_observations(os@) == in_span(self.view_h(h), *timespan)),
            h > 0 ==> (r matches RangeSelectionResult::Nodes(ns)
                && deref_nodes(ns@) == touching(self.spec_children(), (h - 1) as nat, *timespan)),
    {
        match self {
            Node::Intermediate(internal) => RangeSelectionResult::Nodes(internal.select_range(timespan, Ghost(h))),
            Node::Leave(leave) => RangeSelectionResult::Observations(leave.select_range(timespan)),
        }
    }
}

/// The observations below two runs of nodes, one after the other.
proof fn lemma_children_view_concat<V, M>(a: Seq<Node<V, M>>, b: Seq<Node<V, M>>, g: nat) where
    M: Metrics<V> + From<V> + Clone,
    V: Clone,

    ensures
        children_view(a + b, g) == children_view(a, g) + children_view(b, g),
    decreases b.len(),
{
    if b.len() == 0 {
        assert(a + b =~= a);
        assert(children_view(a, g) + children_view(b, g) =~= children_view(a, g));
    } else {
        lemma_children_view_concat(a, b.drop_last(), g);
        assert((a + b).drop_last() =~= a + b.drop_last());
        assert((a + b).last() == b.last());
        assert(children_view(a, g) + (children_view(b.drop_last(), g) + b.last().view_h(g))
            =~= (children_view(a, g) + children_view(b.drop_last(), g)) + b.last().view_h(g));
    }
}

/// Selecting the observations in a span twice selects the same ones.
proof fn lemma_in_span_idempotent<V>(s: Seq<Observation<V>>, t: TimeSpan)
    ensures
        in_span(in_span(s, t), t) == in_span(s, t),
    decreases s.len(),
{
    if s.len() > 0 {
        lemma_in_span_idempotent(s.drop_last(), t);
        if t.spec_contains(s.last().timestamp) {
            let x = in_span(s.drop_last(), t).push(s.last());
            assert(x.drop_last() =~= in_span(s.drop_last(), t));
            assert(x.last() == s.last());
        }
    }
}

/// A node of height `g` that holds observations, and not too many to count.
spec fn good_node<V, M>(n: Node<V, M>, g: nat) -> bool where M: Metrics<V> + From<V> + Clone, V: Clone {
    &&& n.wf_h(g)
    &&& n.view_h(g).len() > 0
    &&& n.view_h(g).len() <= usize::MAX
}

/// Every node of `cs` is good.
spec fn all_good<V, M>(cs: Seq<Node<V, M>>, g: nat) -> bool where M: Metrics<V> + From<V> + Clone, V: Clone {
    forall|i: int| 0 <= i < cs.len() ==> good_node(#[trigger] cs[i], g)
}

/// The children of a good intermediate node are good.
proof fn lemma_children_good<V, M>(n: Node<V, M>, g: nat) where M: Metrics<V> + From<V> + Clone, V: Clone
    requires
        good_node(n, g),
        g > 0,
    ensures
        all_good(n.spec_children(), (g - 1) as nat),
        n.view_h(g) == children_view(n.spec_children(), (g - 1) as nat),
{
    let cs = n.spec_children();
    let hc = (g - 1) as nat;
    assert forall|i: int| 0 <= i < cs.len() implies good_node(#[trigger] cs[i], hc) by {
        assert(cs[i].wf_h(hc));
        lemma_children_view_prefix(cs, hc, i);
        lemma_children_view_len_prefix(cs, hc, i + 1);
    }
}

/// The nodes that overlap a span are among the nodes.
proof fn lemma_touching_good<V, M>(cs: Seq<Node<V, M>>, g: nat, t: TimeSpan) where
    M: Metrics<V> + From<V> + Clone,
    V: Clone,

    requires
        all_good(cs, g),
    ensures
        all_good(touching(cs, g, t), g),
    decreases cs.len(),
{
    if cs.len() > 0 {
        assert(cs[cs.len() - 1] == cs.last());
        lemma_touching_good(cs.drop_last(), g, t);
        assert forall|i: int| 0 <= i < cs.drop_last().len() implies good_node(#[trigger] cs.drop_last()[i], g) by {
            assert(cs.drop_last()[i] == cs[i]);
        }
    }
}

/// The children of the nodes `ms`, one node after the other.
spec fn all_children<V, M>(ms: Seq<Node<V, M>>) -> Seq<Node<V, M>> where
    M: Metrics<V> + From<V> + Clone,
    V: Clone,
    decreases ms.len(),
{
    if ms.len() == 0 {
        Seq::empty()
    } else {
        all_children(ms.drop_last()) + ms.last().spec_children()
    }
}

/// A selection at the next level of detail: child nodes, or observations.
enum Zoomed<V, M> where M: Metrics<V> + From<V> {
    Nodes(Seq<Node<V, M>>),
    Observations(Seq<Observation<V>>),
}

/// What zooming in on the selected nodes `ns` (of height `g`) selects, after
/// the first node and the middle ones up to (not including) `i`: of the first
/// node what overlaps `t`, of the middle ones everything.
spec fn zoom_prefix<V, M>(ns: Seq<Node<V, M>>, g: nat, t: TimeSpan, i: int) -> Zoomed<V, M> where
    M: Metrics<V> + From<V> + Clone,
    V: Clone,
{
    if g > 0 {
        Zoomed::Nodes(touching(ns[0].spec_children(), (g - 1) as nat, t) + all_children(ns.subrange(1, i)))
    } else {
        Zoomed::Observations(in_span(ns[0].view_h(0), t) + children_view(ns.subrange(1, i), 0))
    }
}

/// What zooming in on the selected nodes `ns` (of height `g`) selects: of the
/// first and the last node what overlaps `t`, of the nodes between them
/// everything.
spec fn zoomed<V, M>(ns: Seq<Node<V, M>>, g: nat, t: TimeSpan) -> Zoomed<V, M> where
    M: Metrics<V> + From<V> + Clone,
    V: Clone,
{
    if ns.len() <= 1 {
        zoom_prefix(ns, g, t, 1)
    } else {
        match zoom_prefix(ns, g, t, ns.len() - 1) {
            Zoomed::Nodes(a) => Zoomed::Nodes(a + touching(ns.last().spec_children(), (g - 1) as nat, t)),
            Zoomed::Observations(a) => Zoomed::Observations(a + in_span(ns.last().view_h(0), t)),
        }
    }
}

/// The selection `sel` is the zoomed selection `z`.
spec fn sel_is<'t, V, M>(sel: RangeSelectionResult<'t, V, M>, z: Zoomed<V, M>) -> bool where
    M: Metrics<V> + From<V> + Clone,
    V: Clone,
{
    match (sel, z) {
        (RangeSelectionResult::Nodes(rs), Zoomed::Nodes(zs)) => deref_nodes(rs@) == zs,
        (RangeSelectionResult::Observations(os), Zoomed::Observations(zo)) => deref_observations(os@) == zo,
        _ => false,
    }
}

/// The answer to a range query: a block of observations per aggregation, or
/// the observations themselves.
pub enum ZoomAnswer<V> {
    Blocks(Seq<Seq<Observation<V>>>),
    Observations(Seq<Observation<V>>),
}

/// The answer for the selected nodes `ns` (of height `g`): they themselves
/// when there are at least `min` of them (or none); otherwise the answer one
/// level of detail further, down to the observations.
spec fn zoom_result<V, M>(ns: Seq<Node<V, M>>, g: nat, t: TimeSpan, min: nat) -> ZoomAnswer<V> where
    M: Metrics<V> + From<V> + Clone,
    V: Clone,
    decreases g,
{
    if ns.len() >= min || ns.len() == 0 {
        ZoomAnswer::Blocks(node_blocks(ns, g))
    } else {
        match zoomed(ns, g, t) {
            Zoomed::Nodes(ms) => if g > 0 {
                zoom_result(ms, (g - 1) as nat, t, min)
            } else {
                ZoomAnswer::Blocks(node_blocks(ns, g))
            },
            Zoomed::Observations(os) => ZoomAnswer::Observations(os),
        }
    }
}

/// The answer that the selection `sel` (of nodes of height `g`) leads to.
spec fn sel_answer<'t, V, M>(sel: RangeSelectionResult<'t, V, M>, g: nat, t: TimeSpan, min: nat) -> ZoomAnswer<V> where
    M: Metrics<V> + From<V> + Clone,
    V: Clone,
{
    match sel {
        RangeSelectionResult::Nodes(rs) => zoom_result(deref_nodes(rs@), g, t, min),
        RangeSelectionResult::Observations(os) => ZoomAnswer::Observations(deref_observations(os@)),
    }
}

/// Zooming in starts with what overlaps the span of the first node.
proof fn lemma_zoom_start<'t, V, M>(r: RangeSelectionResult<'t, V, M>, ns: Seq<Node<V, M>>, g: nat, t: TimeSpan) where
    M: Metrics<V> + From<V> + Clone,
    V: Clone,

    requires
        ns.len() > 0,
        g == 0 ==> (r matches RangeSelectionResult::Observations(os)
            && deref_observations(os@) == in_span(ns[0].view_h(g), t)),
        g > 0 ==> (r matches RangeSelectionResult::Nodes(rs)
            && deref_nodes(rs@) == touching(ns[0].spec_children(), (g - 1) as nat, t)),
    ensures
        sel_is(r, zoom_prefix(ns, g, t, 1)),
{
    let e = ns.subrange(1, 1);
    assert(e =~= Seq::<Node<V, M>>::empty());
    assert(all_children(e) == Seq::<Node<V, M>>::empty());
    assert(children_view(e, 0) == Seq::<Observation<V>>::empty());
    if g > 0 {
        assert(touching(ns[0].spec_children(), (g - 1) as nat, t) + all_children(e)
            =~= touching(ns[0].spec_children(), (g - 1) as nat, t));
    } else {
        assert(in_span(ns[0].view_h(0), t) + children_view(e, 0) =~= in_span(ns[0].view_h(0), t));
    }
}

/// Zooming in takes all of a middle node.
proof fn lemma_zoom_middle<'t, V, M>(
    a: RangeSelectionResult<'t, V, M>,
    b: RangeSelectionResult<'t, V, M>,
    c: RangeSelectionResult<'t, V, M>,
    ns: Seq<Node<V, M>>,
    g: nat,
    t: TimeSpan,
    i: int,
) where M: Metrics<V> + From<V> + Clone, V: Clone
    requires
        1 <= i < ns.len(),
        sel_is(a, zoom_prefix(ns, g, t, i)),
        a matches RangeSelectionResult::Observations(x) ==> (b matches RangeSelectionResult::Observations(y)
            && c matches RangeSelectionResult::Observations(z)
            && deref_observations(z@) == deref_observations(x@) + deref_observations(y@)),
        a matches RangeSelectionResult::Nodes(x) ==> (b matches RangeSelectionResult::Nodes(y)
            && c matches RangeSelectionResult::Nodes(z)
            && deref_nodes(z@) == deref_nodes(x@) + deref_nodes(y@)),
        g == 0 ==> (b matches RangeSelectionResult::Observations(os)
            && deref_observations(os@) == ns[i].view_h(g)),
        g > 0 ==> (b matches RangeSelectionResult::Nodes(rs)
            && deref_nodes(rs@) == ns[i].spec_children()),
    ensures
        sel_is(c, zoom_prefix(ns, g, t, i + 1)),
{
    let p = ns.subrange(1, i + 1);
    assert(p.drop_last() =~= ns.subrange(1, i));
    assert(p.last() == ns[i]);
    if g > 0 {
        let f = touching(ns[0].spec_children(), (g - 1) as nat, t);
        assert(f + all_children(p) =~= (f + all_children(ns.subrange(1, i))) + ns[i].spec_children());
    } else {
        let f = in_span(ns[0].view_h(0), t);
        assert(f + children_view(p, 0) =~= (f + children_view(ns.subrange(1, i), 0)) + ns[i].view_h(0));
    }
}

/// Zooming in ends with what overlaps the span of the last node.
proof fn lemma_zoom_end<'t, V, M>(
    a: RangeSelectionResult<'t, V, M>,
    b: RangeSelectionResult<'t, V, M>,
    c: RangeSelectionResult<'t, V, M>,
    ns: Seq<Node<V, M>>,
    g: nat,
    t: TimeSpan,
) where M: Metrics<V> + From<V> + Clone, V: Clone
    requires
        ns.len() > 1,
        sel_is(a, zoom_prefix(ns, g, t, ns.len() - 1)),
        a matches RangeSelectionResult::Observations(x) ==> (b matches RangeSelectionResult::Observations(y)
            && c matches RangeSelectionResult::Observations(z)
            && deref_observations(z@) == deref_observations(x@) + deref_observations(y@)),
        a matches RangeSelectionResult::Nodes(x) ==> (b matches RangeSelectionResult::Nodes(y)
            && c matches RangeSelectionResult::Nodes(z)
            && deref_nodes(z@) == deref_nodes(x@) + deref_nodes(y@)),
        g == 0 ==> (b matches RangeSelectionResult::Observations(os)
            && deref_observations(os@) == in_span(ns[ns.len() - 1].view_h(g), t)),
        g > 0 ==> (b matches RangeSelectionResult::Nodes(rs)
            && deref_nodes(rs@) == touching(ns[ns.len() - 1].spec_children(), (g - 1) as nat, t)),
    ensures
        sel_is(c, zoomed(ns, g, t)),
{
    assert(ns.last() == ns[ns.len() - 1]);
}

impl<'t, V, M> RangeSelectionResult<'t, V, M> where M: Metrics<V> + From<V> + Clone, V: Clone {
    /// The observations that this selection stands for; its nodes have height `g`.
    spec fn sel_view(self, g: nat) -> Seq<Observation<V>> {
        match self {
            RangeSelectionResult::Nodes(ns) => children_view(deref_nodes(ns@), g),
            RangeSelectionResult::Observations(os) => deref_observations(os@),
        }
    }

    /// On time-ordered data: the selected nodes (of height `g`) are ordered,
    /// each in time order, and each overlaps `t`; or the selected
    /// observations all lie in `t`.
    spec fn sel_ordered(self, g: nat, t: TimeSpan) -> bool {
        match self {
            RangeSelectionResult::Nodes(ns) => level_ok(deref_nodes(ns@), g, t),
            RangeSelectionResult::Observations(os) => all_in_span(deref_observations(os@), t),
        }
    }

    /// A selection built from the nodes `pre` (of height `g`) while zooming
    /// in on time-ordered data: as `sel_ordered`, and no observation comes
    /// from elsewhere.
    spec fn zoom_ok(self, hc: nat, t: TimeSpan, pre: Seq<Node<V, M>>, g: nat) -> bool {
        match self {
            RangeSelectionResult::Nodes(rs) => level_ok(deref_nodes(rs@), hc, t)
                && drawn_from(deref_nodes(rs@), hc, pre, g),
            RangeSelectionResult::Observations(os) => all_in_span(deref_observations(os@), t),
        }
    }

    /// The selected nodes are good nodes of height `g`.
    spec fn sel_wf(self, g: nat) -> bool {
        match self {
            RangeSelectionResult::Nodes(ns) => all_good(deref_nodes(ns@), g),
            RangeSelectionResult::Observations(_) => true,
        }
    }

    fn len(&self) -> (r: usize)
        ensures
            r == match self {
                RangeSelectionResult::Nodes(ns) => ns@.len(),
                RangeSelectionResult::Observations(os) => os@.len(),
            },
    {
        match self {
            RangeSelectionResult::Nodes(nodes) => nodes.len(),
            RangeSelectionResult::Observations(observations) => observations.len(),
        }
    }

    /// Test if we can enhance this selection result any further.
    fn can_enhance(&self) -> (r: bool)
        ensures
            r == (self matches RangeSelectionResult::Nodes(ns) && ns@.len() > 0),
    {
        match self {
            RangeSelectionResult::Nodes(nodes) => nodes.len() > 0,
            RangeSelectionResult::Observations(_) => false,
        }
    }

    /// Append a second selection to this selection!
    fn extend(&mut self, other: Self)
        requires
            (*old(self) is Nodes) == (other is Nodes),
        ensures
            *old(self) matches RangeSelectionResult::Observations(a) ==> (
                other matches RangeSelectionResult::Observations(b)
                && *final(self) matches RangeSelectionResult::Observations(c)
                && deref_observations(c@) == deref_observations(a@) + deref_observations(b@)),
            *old(self) matches RangeSelectionResult::Nodes(a) ==> (
                other matches RangeSelectionResult::Nodes(b)
                && *final(self) matches RangeSelectionResult::Nodes(c)
                && deref_nodes(c@) == deref_nodes(a@) + deref_nodes(b@)),
    {
        let mut other = other;
        match self {
            RangeSelectionResult::Observations(observations) => {
                if let RangeSelectionResult::Observations(other_observations) = &mut other {
                    let ghost a = observations@;
                    let ghost b = other_observations@;
                    observations.append(other_observations);
                    assert(deref_observations(a + b) =~= deref_observations(a) + deref_observations(b));
                }
            },
            RangeSelectionResult::Nodes(nodes) => {
                if let RangeSelectionResult::Nodes(other_nodes) = &mut other {
                    let ghost a = nodes@;
                    let ghost b = other_nodes@;
                    nodes.append(other_nodes);
                    assert(deref_nodes(a + b) =~= deref_nodes(a) + deref_nodes(b));
                }
            },
        }
    }
}

impl<'t, V, M> RangeSelectionResult<'t, V, M> where M: Metrics<V> + From<V> + Clone, V: Clone {
    /// Zoom in on a sequence of nodes, by selecting the
    /// child nodes which are in range.
    fn enhance(self, timespan: &TimeSpan, Ghost(g): Ghost<nat>) -> (r: RangeSelectionResult<'t, V, M>)
        requires
            self matches RangeSelectionResult::Nodes(ns) && ns@.len() > 0,
            self.sel_wf(g),
        ensures
            g == 0 ==> r is Observations,
            g > 0 ==> r is Nodes,
            r.sel_wf((g - 1) as nat),
            in_span(r.sel_view((g - 1) as nat), *timespan) == in_span(self.sel_view(g), *timespan),
            self.sel_ordered(g, *timespan) ==> r.sel_ordered((g - 1) as nat, *timespan),
            sel_is(r, zoomed(deref_nodes(self->Nodes_0@), g, *timespan)),
    {
        let ghost t = *timespan;
        let ghost hc = (g - 1) as nat;
        let ghost srt = self.sel_ordered(g, t);
        match self {
            RangeSelectionResult::Nodes(nodes) => {
                let ghost ns = deref_nodes(nodes@);
                let n: usize = nodes.len();
                proof {
                    assert(ns[0] == *nodes@[0]);
                    lemma_select_range_view(ns[0], g, t);
                }
                let mut result = nodes[0].select_range(timespan, Ghost(g));
                proof {
                    if srt {
                        lemma_zoom_first(result, ns, g, t);
                    }
                    lemma_zoom_start(result, ns, g, t);
                }
                if n == 1 {
                    // Special case of a single node.
                    proof {
                        assert(ns =~= seq![ns[0]]);
                        lemma_children_view_single(ns[0], g);
                    }
                    return result;
                }
                // perform select range on first and last node, select all on the middle nodes.
                let mut i: usize = 1;
                proof {
                    lemma_children_view_single(ns[0], g);
                    assert(ns.subrange(0, 1) =~= seq![ns[0]]);
                }
                while i < n - 1
                    invariant
                        n == ns.len(),
                        n > 1,
                        1 <= i <= n - 1,
                        t == *timespan,
                        hc == (g - 1) as nat,
                        all_good(ns, g),
                        ns == deref_nodes(nodes@),
                        g == 0 ==> result is Observations,
                        g > 0 ==> result is Nodes,
                        result.sel_wf(hc),
                        in_span(result.sel_view(hc), t) == in_span(children_view(ns.subrange(0, i as int), g), t),
                        srt == self.sel_ordered(g, t),
                        self == RangeSelectionResult::Nodes(nodes),
                        srt ==> result.zoom_ok(hc, t, ns.subrange(0, i as int), g),
                        sel_is(result, zoom_prefix(ns, g, t, i as int)),
                    decreases n - 1 - i,
                {
                    proof {
                        assert(ns[i as int] == *nodes@[i as int]);
                        lemma_select_all_view(ns[i as int], g);
                    }
                    let middle = nodes[i].select_all(Ghost(g));
                    let ghost before = result;
                    result.extend(middle);
                    proof {
                        if srt {
                            lemma_zoom_step(before, middle, result, ns, g, t, i as int);
                        }
                        lemma_zoom_middle(before, middle, result, ns, g, t, i as int);
                        lemma_extend_view(before, middle, result, hc, t);
                        lemma_children_view_prefix(ns, g, i as int);
                        lemma_in_span_concat(children_view(ns.subrange(0, i as int), g), ns[i as int].view_h(g), t);
                        lemma_in_span_idempotent(ns[i as int].view_h(g), t);
                    }
                    i = i + 1;
                }
                proof {
                    assert(ns[n - 1] == *nodes@[n - 1]);
                    lemma_select_range_view(ns[n - 1], g, t);
                }
                let last = nodes[n - 1].select_range(timespan, Ghost(g));
                let ghost before = result;
                result.extend(last);
                proof {
                    if srt {
                        lemma_zoom_step(before, last, result, ns, g, t, (n - 1) as int);
                    }
                    lemma_zoom_end(before, last, result, ns, g, t);
                    lemma_extend_view(before, last, result, hc, t);
                    lemma_children_view_prefix(ns, g, (n - 1) as int);
                    lemma_in_span_concat(children_view(ns.subrange(0, n - 1), g), ns[n - 1].view_h(g), t);
                    assert(ns.subrange(0, n as int) =~= ns);
                }
                result
            },
            RangeSelectionResult::Observations(_) => {
                // Do not call enhance on observation level.
                RangeSelectionResult::Observations(Vec::new())
            },
        }
    }

    /// Convert selection into query result!
    fn into_query_result(self, Ghost(g): Ghost<nat>) -> (r: RangeQueryResult<V, M>)
        requires
            self.sel_wf(g),
        ensures
            self matches RangeSelectionResult::Observations(os) ==> (r matches RangeQueryResult::Observations(ros)
                && are_copies_of(deref_observations(os@), ros@)),
            self matches RangeSelectionResult::Nodes(ns) ==> (r matches RangeQueryResult::Aggregations(aggs)
                && aggs@.len() == ns@.len()
                && forall|i: int| 0 <= i < aggs@.len() ==> (#[trigger] aggs@[i]).describes(deref_nodes(ns@)[i].view_h(g))),
    {
        match self {
            RangeSelectionResult::Nodes(nodes) => {
                let ghost ns = deref_nodes(nodes@);
                let mut aggregations: Vec<Aggregation<V, M>> = Vec::new();
                let mut i: usize = 0;
                while i < nodes.len()
                    invariant
                        ns == deref_nodes(nodes@),
                        all_good(ns, g),
                        0 <= i <= ns.len(),
                        aggregations@.len() == i,
                        forall|k: int| 0 <= k < i ==> (#[trigger] aggregations@[k]).describes(ns[k].view_h(g)),
                    decreases ns.len() - i,
                {
                    proof {
                        assert(ns[i as int] == *nodes@[i as int]);
                        assert(good_node(ns[i as int], g));
                    }
                    let m = nodes[i].metrics(Ghost(g)).unwrap();
                    aggregations.push(m);
                    i = i + 1;
                }
                RangeQueryResult::Aggregations(aggregations)
            },
            RangeSelectionResult::Observations(observations) => {
                let ghost os = deref_observations(observations@);
                let mut copies: Vec<Observation<V>> = Vec::new();
                let mut i: usize = 0;
                while i < observations.len()
                    invariant
                        os == deref_observations(observations@),
                        0 <= i <= os.len(),
                        copies@.len() == i,
                        forall|k: int| 0 <= k < i ==> is_copy_of(#[trigger] os[k], copies@[k]),
                    decreases os.len() - i,
                {
                    let c = observations[i].clone();
                    assert(os[i as int] == *observations@[i as int]);
                    copies.push(c);
                    i = i + 1;
                }
                RangeQueryResult::Observations(copies)
            },
        }
    }
}

/// What selecting a span on a good node stands for.
proof fn lemma_select_range_view<V, M>(n: Node<V, M>, g: nat, t: TimeSpan) where M: Metrics<V> + From<V> + Clone, V: Clone
    requires
        good_node(n, g),
    ensures
        g > 0 ==> all_good(touching(n.spec_children(), (g - 1) as nat, t), (g - 1) as nat),
        g > 0 ==> in_span(children_view(touching(n.spec_children(), (g - 1) as nat, t), (g - 1) as nat), t)
            == in_span(n.view_h(g), t),
        in_span(in_span(n.view_h(g), t), t) == in_span(n.view_h(g), t),
{
    lemma_in_span_idempotent(n.view_h(g), t);
    if g > 0 {
        lemma_children_good(n, g);
        lemma_touching_good(n.spec_children(), (g - 1) as nat, t);
        lemma_touching_in_span(n.spec_children(), (g - 1) as nat, t);
    }
}

/// What selecting all of a good node stands for.
proof fn lemma_select_all_view<V, M>(n: Node<V, M>, g: nat) where M: Metrics<V> + From<V> + Clone, V: Clone
    requires
        good_node(n, g),
    ensures
        g > 0 ==> all_good(n.spec_children(), (g - 1) as nat),
        g > 0 ==> children_view(n.spec_children(), (g - 1) as nat) == n.view_h(g),
{
    if g > 0 {
        lemma_children_good(n, g);
    }
}

/// What extending one selection by another stands for.
proof fn lemma_extend_view<'t, V, M>(
    a: RangeSelectionResult<'t, V, M>,
    b: RangeSelectionResult<'t, V, M>,
    c: RangeSelectionResult<'t, V, M>,
    g: nat,
    t: TimeSpan,
) where M: Metrics<V> + From<V> + Clone, V: Clone
    requires
        a matches RangeSelectionResult::Observations(x) ==> (b matches RangeSelectionResult::Observations(y)
            && c matches RangeSelectionResult::Observations(z)
            && deref_observations(z@) == deref_observations(x@) + deref_observations(y@)),
        a matches RangeSelectionResult::Nodes(x) ==> (b matches RangeSelectionResult::Nodes(y)
            && c matches RangeSelectionResult::Nodes(z)
            && deref_nodes(z@) == deref_nodes(x@) + deref_nodes(y@)),
        a.sel_wf(g),
        b.sel_wf(g),
    ensures
        c.sel_wf(g),
        (c is Nodes) == (a is Nodes),
        in_span(c.sel_view(g), t) == in_span(a.sel_view(g), t) + in_span(b.sel_view(g), t),
{
    match a {
        RangeSelectionResult::Nodes(x) => {
            let y = b->Nodes_0;
            let z = c->Nodes_0;
            lemma_children_view_concat(deref_nodes(x@), deref_nodes(y@), g);
            assert forall|i: int| 0 <= i < deref_nodes(z@).len() implies good_node(#[trigger] deref_nodes(z@)[i], g) by {
                if i < deref_nodes(x@).len() {
                    assert(deref_nodes(z@)[i] == deref_nodes(x@)[i]);
                } else {
                    assert(deref_nodes(z@)[i] == deref_nodes(y@)[i - deref_nodes(x@).len()]);
                }
            }
        },
        RangeSelectionResult::Observations(x) => {},
    }
    lemma_in_span_concat(a.sel_view(g), b.sel_view(g), t);
}

/// The observations below the nodes, block by block.
spec fn node_blocks<V, M>(cs: Seq<Node<V, M>>, g: nat) -> Seq<Seq<Observation<V>>> where
    M: Metrics<V> + From<V> + Clone,
    V: Clone,

{
    cs.map_values(|c: Node<V, M>| c.view_h(g))
}

/// The observations below the nodes are their blocks one after the other.
proof fn lemma_children_view_flatten<V, M>(cs: Seq<Node<V, M>>, g: nat) where M: Metrics<V> + From<V> + Clone, V: Clone
    ensures
        children_view(cs, g) == node_blocks(cs, g).flatten(),
    decreases cs.len(),
{
    if cs.len() > 0 {
        lemma_children_view_flatten(cs.drop_last(), g);
        assert(node_blocks(cs, g) =~= node_blocks(cs.drop_last(), g).push(cs.last().view_h(g)));
        node_blocks(cs.drop_last(), g).lemma_flatten_push(cs.last().view_h(g));
    } else {
        assert(node_blocks(cs, g) =~= Seq::<Seq<Observation<V>>>::empty());
    }
}

/// Copies keep the observations that lie in a span, as copies.
proof fn lemma_copies_in_span<V: Clone>(s: Seq<Observation<V>>, c: Seq<Observation<V>>, t: TimeSpan)
    requires
        are_copies_of(s, c),
    ensures
        are_copies_of(in_span(s, t), in_span(c, t)),
    decreases s.len(),
{
    if s.len() > 0 {
        assert(are_copies_of(s.drop_last(), c.drop_last())) by {
            assert forall|i: int| 0 <= i < s.drop_last().len() implies is_copy_of(#[trigger] s.drop_last()[i], c.drop_last()[i]) by {
                assert(is_copy_of(s[i], c[i]));
            }
        }
        lemma_copies_in_span(s.drop_last(), c.drop_last(), t);
        assert(is_copy_of(s[s.len() - 1], c[c.len() - 1]));
        if t.spec_contains(s.last().timestamp) {
            let a = in_span(s.drop_last(), t);
            let b = in_span(c.drop_last(), t);
            assert forall|i: int| 0 <= i < a.push(s.last()).len() implies is_copy_of(#[trigger] a.push(s.last())[i], b.push(c.last())[i]) by {
                if i < a.len() {
                    assert(is_copy_of(a[i], b[i]));
                }
            }
        }
    }
}

impl<V, M> Btree<V, M> where M: Metrics<V> + From<V> + Clone, V: Clone {
    /// The answer to a query of the span `t` for at least `min` items: the
    /// nodes of the first level (below the root) whose nodes overlapping `t`,
    /// zoomed in on level by level, number at least `min` (or none), each
    /// node standing for the block of its observations; failing that, the
    /// observations reached at the bottom. Zooming in on a run of nodes
    /// selects the children that overlap `t` of its first and last node, and
    /// all children of the nodes between them.
    pub closed spec fn zoom_answer(&self, t: TimeSpan, min: nat) -> ZoomAnswer<V> {
        if self.height@ == 0 {
            ZoomAnswer::Observations(in_span(self@, t))
        } else {
            zoom_result(
                touching(self.root.spec_children(), (self.height@ - 1) as nat, t),
                (self.height@ - 1) as nat,
                t,
                min,
            )
        }
    }
}

/// An answer with blocks has at least `min` of them, or none.
proof fn lemma_zoom_result_blocks<V, M>(ns: Seq<Node<V, M>>, g: nat, t: TimeSpan, min: nat) where
    M: Metrics<V> + From<V> + Clone,
    V: Clone,

    ensures
        zoom_result(ns, g, t, min) matches ZoomAnswer::Blocks(bs) ==> bs.len() >= min || bs.len() == 0,
    decreases g,
{
    if !(ns.len() >= min || ns.len() == 0) {
        match zoomed(ns, g, t) {
            Zoomed::Nodes(ms) => {
                if g > 0 {
                    lemma_zoom_result_blocks(ms, (g - 1) as nat, t, min);
                }
            },
            Zoomed::Observations(_) => {},
        }
    }
}

impl<V, M> Btree<V, M> where M: Metrics<V> + From<V> + Clone, V: Clone {
    /// A query answer with blocks has at least as many as asked for, or none.
    pub proof fn lemma_zoom_answer_blocks(&self, t: TimeSpan, min: nat)
        ensures
            self.zoom_answer(t, min) matches ZoomAnswer::Blocks(bs) ==> bs.len() >= min || bs.len() == 0,
    {
        if self.height@ > 0 {
            lemma_zoom_result_blocks(
                touching(self.root.spec_children(), (self.height@ - 1) as nat, t),
                (self.height@ - 1) as nat,
                t,
                min,
            );
        }
    }
}

impl<V, M> Btree<V, M> where M: Metrics<V> + From<V> + Clone, V: Clone {
    /// Query the tree for some data.
    ///
    /// This will go into deeper levels of detail, until a certain
    /// amount of data points is found.
    ///
    /// Every observation of the tree that lies in the span is among the
    /// returned observations, or below exactly one of the returned
    /// aggregations. When the observations were appended in time order, the
    /// returned observations are exactly those in the span, and every
    /// returned aggregation overlaps it and summarises a non-empty run of the
    /// tree's observations; these runs follow each other without a gap, and
    /// each but the last holds at least a leave's worth of observations. The
    /// answer is made of observations only for a tree of one leave, or when
    /// the span holds fewer than a leave's worth per item asked for.
    #[verifier::rlimit(80)]
    pub fn query_range(&self, timespan: &TimeSpan, min_items: usize) -> (r: RangeQueryResult<V, M>)
        requires
            self.wf(),
        ensures
            r matches RangeQueryResult::Observations(os) ==> are_copies_of(
                in_span(self@, *timespan),
                in_span(os@, *timespan),
            ),
            r matches RangeQueryResult::Aggregations(aggs) ==> {
                &&& aggs@.len() >= min_items || aggs@.len() == 0
                &&& exists|blocks: Seq<Seq<Observation<V>>>| {
                    &&& blocks.len() == aggs@.len()
                    &&& forall|i: int| 0 <= i < blocks.len() ==> (#[trigger] aggs@[i]).describes(blocks[i])
                    &&& in_span(blocks.flatten(), *timespan) == in_span(self@, *timespan)
                }
            },
            sorted(self@) ==> (r matches RangeQueryResult::Observations(os)
                ==> are_copies_of(in_span(self@, *timespan), os@)),
            sorted(self@) ==> (r matches RangeQueryResult::Aggregations(aggs)
                ==> forall|i: int| 0 <= i < aggs@.len() ==> (#[trigger] aggs@[i]).timespan.spec_overlap(*timespan)),
            self.zoom_answer(*timespan, min_items as nat) matches ZoomAnswer::Blocks(bs) ==> (
                r matches RangeQueryResult::Aggregations(aggs)
                && aggs@.len() == bs.len()
                && forall|i: int| 0 <= i < bs.len() ==> (#[trigger] aggs@[i]).describes(bs[i])),
            self.zoom_answer(*timespan, min_items as nat) matches ZoomAnswer::Observations(os) ==> (
                r matches RangeQueryResult::Observations(ros) && are_copies_of(os, ros@)),
            self@.len() <= LEAVE_CHUNK_SIZE ==> (r matches RangeQueryResult::Observations(ros)
                && are_copies_of(in_span(self@, *timespan), ros@)),
            r is Observations ==> self@.len() <= LEAVE_CHUNK_SIZE || in_span(self@, *timespan).len() < min_items * LEAVE_CHUNK_SIZE,
            sorted(self@) ==> (r matches RangeQueryResult::Aggregations(aggs) ==> exists|blocks: Seq<Seq<Observation<V>>>| {
                &&& blocks.len() == aggs@.len()
                &&& forall|i: int| 0 <= i < blocks.len() ==> (#[trigger] aggs@[i]).describes(blocks[i])
                &&& forall|i: int| 0 <= i < blocks.len() ==> (#[trigger] blocks[i]).len() > 0
                &&& forall|i: int| 0 <= i < blocks.len() - 1 ==> (#[trigger] blocks[i]).len() >= LEAVE_CHUNK_SIZE
                &&& is_window(blocks.flatten(), self@)
                &&& in_span(blocks.flatten(), *timespan) == in_span(self@, *timespan)
            }),
            sorted(self@) ==> (r matches RangeQueryResult::Aggregations(aggs) ==> (aggs@.len() >= 2
                ==> in_span(self@, *timespan).len() >= (aggs@.len() - 2) * LEAVE_CHUNK_SIZE)),
    {
        let ghost t = *timespan;
        let ghost h = self.height@;
        proof {
            if h > 0 {
                let cs = self.root.spec_children();
                assert(cs[0].wf_h((h - 1) as nat));
                lemma_children_view_prefix(cs, (h - 1) as nat, 0);
                lemma_children_view_len_prefix(cs, (h - 1) as nat, 1);
                assert(cs.subrange(0, 0) =~= Seq::<Node<V, M>>::empty());
                assert(good_node(self.root, h));
                lemma_select_range_view(self.root, h, t);
            } else {
                lemma_in_span_idempotent(self@, t);
            }
        }
        let mut selection = self.root.select_range(timespan, Ghost(h));
        proof {
            if sorted(self@) {
                if h == 0 {
                    lemma_in_span_members(self@, t);
                } else {
                    let cs = self.root.spec_children();
                    lemma_children_good(self.root, h);
                    lemma_sorted_children(cs, (h - 1) as nat);
                    lemma_touching_level_ok(cs, (h - 1) as nat, t);
                    let (i0, j0) = lemma_children_run(self.root, h, t);
                    lemma_children_full(self.root, h);
                    assert forall|k: int| 0 <= k < j0 - i0 - 1 implies (#[trigger] cs.subrange(i0, j0)[k]).full_h((h - 1) as nat) by {
                        assert(cs.subrange(i0, j0)[k] == cs[i0 + k]);
                    }
                    lemma_children_view_split(cs, (h - 1) as nat, i0, j0);
                    lemma_window_middle(
                        children_view(cs.subrange(0, i0), (h - 1) as nat),
                        children_view(cs.subrange(i0, j0), (h - 1) as nat),
                        children_view(cs.subrange(j0, cs.len() as int), (h - 1) as nat),
                    );
                }
            }
        }
        let mut g: Ghost<nat> = Ghost((h - 1) as nat);
        while (selection.len() < min_items) && selection.can_enhance()
            invariant
                t == *timespan,
                selection.sel_wf(g@),
                in_span(selection.sel_view(g@), t) == in_span(self@, t),
                sorted(self@) ==> selection.sel_ordered(g@, t),
                sel_answer(selection, g@, t, min_items as nat) == self.zoom_answer(t, min_items as nat),
                sorted(self@) ==> (selection matches RangeSelectionResult::Nodes(rs) ==> is_window(
                    children_view(deref_nodes(rs@), g@),
                    self@,
                )),
                sorted(self@) ==> (selection matches RangeSelectionResult::Nodes(rs) ==> forall|k: int|
                    0 <= k < rs@.len() - 1 ==> (#[trigger] deref_nodes(rs@)[k]).full_h(g@)),
                selection is Observations ==> (h == 0 || in_span(self@, t).len() < min_items * LEAVE_CHUNK_SIZE),
            decreases (if selection is Nodes { g@ + 1 } else { 0 }),
        {
            let ghost before = selection;
            selection = selection.enhance(timespan, g);
            proof {
                if sorted(self@) && g@ > 0 {
                    let ns = deref_nodes(before->Nodes_0@);
                    lemma_zoom_window(ns, g@, t);
                    lemma_zoom_full(ns, g@, t);
                    lemma_window_trans(children_view(deref_nodes(selection->Nodes_0@), (g@ - 1) as nat), children_view(ns, g@), self@);
                }
                assert(sel_answer(before, g@, t, min_items as nat) == sel_answer(selection, (g@ - 1) as nat, t, min_items as nat));
                if g@ == 0 {
                    let ns = deref_nodes(before->Nodes_0@);
                    lemma_leaves_len(ns);
                    lemma_in_span_len(children_view(ns, 0), t);
                }
            }
            g = Ghost((g@ - 1) as nat);
        }
        let ghost final_selection = selection;
        let result = selection.into_query_result(g);
        proof {
            if h == 0 {
                lemma_one_leave_len(self.root);
            }
            match final_selection {
                RangeSelectionResult::Observations(os) => {
                    let ros = result->Observations_0;
                    lemma_copies_in_span(deref_observations(os@), ros@, t);
                    if sorted(self@) {
                        lemma_copies_timestamps(deref_observations(os@), ros@);
                        assert forall|i: int| 0 <= i < ros@.len() implies t.spec_contains(#[trigger] ros@[i].timestamp) by {
                            assert(timestamps_of(ros@)[i] == timestamps_of(deref_observations(os@))[i]);
                        }
                        lemma_covering_span(ros@, t);
                    }
                },
                RangeSelectionResult::Nodes(ns) => {
                    let aggs = result->Aggregations_0;
                    let blocks = node_blocks(deref_nodes(ns@), g@);
                    lemma_children_view_flatten(deref_nodes(ns@), g@);
                    assert forall|i: int| 0 <= i < blocks.len() implies (#[trigger] aggs@[i]).describes(blocks[i]) by {
                        assert(aggs@[i].describes(deref_nodes(ns@)[i].view_h(g@)));
                    }
                    assert forall|i: int| 0 <= i < blocks.len() implies (#[trigger] blocks[i]).len() > 0 by {
                        assert(good_node(deref_nodes(ns@)[i], g@));
                    }
                    if sorted(self@) {
                        assert forall|i: int| 0 <= i < blocks.len() - 1 implies (#[trigger] blocks[i]).len() >= LEAVE_CHUNK_SIZE by {
                            assert(good_node(deref_nodes(ns@)[i], g@));
                            lemma_full_len(deref_nodes(ns@)[i], g@);
                        }
                        if blocks.len() >= 2 {
                            let dn = deref_nodes(ns@);
                            let l = dn.len() - 1;
                            assert(touches(dn[0], g@, t) && touches(dn[l], g@, t));
                            let t0 = choose|tt: TimeSpan| is_hull(tt, timestamps_of(dn[0].view_h(g@))) && tt.spec_overlap(t);
                            let tl = choose|tt: TimeSpan| is_hull(tt, timestamps_of(dn[l].view_h(g@))) && tt.spec_overlap(t);
                            lemma_hull_ends(dn[0], g@, t0);
                            lemma_hull_ends(dn[l], g@, tl);
                            let y = choose|y: Observation<V>| dn[0].view_h(g@).contains(y) && y.timestamp == t0.end;
                            let x = choose|x: Observation<V>| dn[l].view_h(g@).contains(x) && x.timestamp == tl.start;
                            assert(blocks[0] == dn[0].view_h(g@));
                            assert(blocks.last() == dn[l].view_h(g@));
                            let iy = choose|i: int| 0 <= i < blocks[0].len() && blocks[0][i] == y;
                            let ix = choose|i: int| 0 <= i < blocks.last().len() && blocks.last()[i] == x;
                            assert(t.start.nanos <= blocks[0][iy].timestamp.nanos);
                            assert(blocks.last()[ix].timestamp.nanos <= t.end.nanos);
                            lemma_middle_blocks_in_span(self@, blocks, t);
                        }
                    }
                    if sorted(self@) {
                        assert forall|i: int| 0 <= i < aggs@.len() implies (#[trigger] aggs@[i]).timespan.spec_overlap(t) by {
                            let n = deref_nodes(ns@)[i];
                            assert(aggs@[i].describes(n.view_h(g@)));
                            assert(touches(n, g@, t));
                            let tt = choose|tt: TimeSpan| is_hull(tt, timestamps_of(n.view_h(g@))) && tt.spec_overlap(t);
                            lemma_hull_unique(tt, aggs@[i].timespan, timestamps_of(n.view_h(g@)));
                        }
                    }
                },
            }
        }
        result
    }
}

/// The observations in `t` below the pending nodes `ns`, of heights `hs`.
spec fn pending_bag<V, M>(ns: Seq<Node<V, M>>, hs: Seq<nat>, t: TimeSpan) -> Multiset<Observation<V>> where
    M: Metrics<V> + From<V> + Clone,
    V: Clone,
    decreases ns.len(),
{
    if ns.len() == 0 || hs.len() == 0 {
        Multiset::empty()
    } else {
        pending_bag(ns.drop_last(), hs.drop_last(), t).add(
            obs_bag(in_span(ns.last().view_h(hs.last()), t)),
        )
    }
}

/// A bound on the work left below a node of height `h`.
spec fn weight(h: nat) -> nat
    decreases h,
{
    if h == 0 {
        1
    } else {
        6 * weight((h - 1) as nat)
    }
}

/// A bound on the work left below pending nodes of heights `hs`.
spec fn stack_weight(hs: Seq<nat>) -> nat
    decreases hs.len(),
{
    if hs.len() == 0 {
        0
    } else {
        stack_weight(hs.drop_last()) + weight(hs.last())
    }
}

/// The nodes that overlap a span are no more than the nodes.
proof fn lemma_touching_len<V, M>(cs: Seq<Node<V, M>>, g: nat, t: TimeSpan) where M: Metrics<V> + From<V> + Clone, V: Clone
    ensures
        touching(cs, g, t).len() <= cs.len(),
    decreases cs.len(),
{
    if cs.len() > 0 {
        lemma_touching_len(cs.drop_last(), g, t);
    }
}

proof fn lemma_weight_pos(h: nat)
    ensures
        weight(h) >= 1,
    decreases h,
{
    if h > 0 {
        lemma_weight_pos((h - 1) as nat);
    }
}

proof fn lemma_five_children(k: int, w: int)
    requires
        0 <= k <= 5,
        w >= 1,
    ensures
        k * w < 6 * w,
{
    assert(k * w <= 5 * w) by (nonlinear_arith)
        requires
            0 <= k <= 5,
            w >= 1,
    ;
}

proof fn lemma_one_more(k: int, w: int)
    ensures
        (k + 1) * w == k * w + w,
{
    assert((k + 1) * w == k * w + w) by (nonlinear_arith);
}

impl<V, M> Btree<V, M> where M: Metrics<V> + From<V> + Clone, V: Clone {
    /// Get a data summary about the given time span.
    ///
    /// Strategy here is to go into child nodes at the
    /// edges of the selection. The middle child nodes
    /// can be aggregated earlier on.
    ///
    /// The summary counts exactly the observations that lie in the span, and
    /// its time span is the hull of their timestamps. Its metrics are merged
    /// from those of the whole nodes in the span and of the single
    /// observations at its edges, so they are metrics of the observations in
    /// the span taken in the order in which they were collected, which need
    /// not be their time order.
    pub fn range_summary(&self, timespan: &TimeSpan) -> (r: Option<Aggregation<V, M>>)
        requires
            self.wf(),
        ensures
            r is None <==> in_span(self@, *timespan).len() == 0,
            r matches Some(a) ==> a.describes_unordered(in_span(self@, *timespan)),
    {
        broadcast use vstd::multiset::group_multiset_axioms;
        broadcast use vstd::seq_lib::group_to_multiset_ensures;

        let ghost t = *timespan;
        let ghost h = self.height@;
        let ghost target = obs_bag(in_span(self@, t));
        // Start with a selection in the root node
        let root_node = &self.root;
        let mut partially_selected_nodes: Vec<&Node<V, M>> = Vec::new();
        partially_selected_nodes.push(root_node);
        let ghost mut heights: Seq<nat> = seq![h];
        let mut selected_nodes: Vec<Aggregation<V, M>> = Vec::new();
        let ghost mut blocks: Seq<Seq<Observation<V>>> = Seq::empty();
        let mut selected_observations: Vec<Observation<V>> = Vec::new();
        let ghost mut gathered: Seq<Observation<V>> = Seq::empty();
        proof {
            lemma_in_span_len(self@, t);
            assert(deref_nodes(partially_selected_nodes@) =~= seq![self.root]);
            assert(deref_nodes(partially_selected_nodes@).drop_last() =~= Seq::<Node<V, M>>::empty());
            assert(heights.drop_last() =~= Seq::<nat>::empty());
            assert(pending_bag(Seq::<Node<V, M>>::empty(), Seq::<nat>::empty(), t) == Multiset::<Observation<V>>::empty());
            assert(deref_nodes(partially_selected_nodes@).last() == self.root);
            assert(heights.last() == h);
            assert(pending_bag(deref_nodes(partially_selected_nodes@), heights, t) =~= target);
            assert(blocks.flatten() =~= Seq::<Observation<V>>::empty());
            assert(obs_bag(Seq::<Observation<V>>::empty()) =~= Multiset::<Observation<V>>::empty());
            assert(obs_bag(blocks.flatten()).add(obs_bag(gathered)).add(
                pending_bag(deref_nodes(partially_selected_nodes@), heights, t)) =~= target);
        }
        while !partially_selected_nodes.is_empty()
            invariant
                t == *timespan,
                target == obs_bag(in_span(self@, t)),
                in_span(self@, t).len() <= usize::MAX,
                heights.len() == partially_selected_nodes@.len(),
                forall|i: int| 0 <= i < heights.len() ==> (#[trigger] deref_nodes(partially_selected_nodes@)[i]).wf_h(heights[i])
                    && deref_nodes(partially_selected_nodes@)[i].view_h(heights[i]).len() <= usize::MAX,
                blocks.len() == selected_nodes@.len(),
                forall|i: int| 0 <= i < blocks.len() ==> (#[trigger] selected_nodes@[i]).describes(blocks[i]),
                are_copies_of(gathered, selected_observations@),
                obs_bag(blocks.flatten()).add(obs_bag(gathered)).add(
                    pending_bag(deref_nodes(partially_selected_nodes@), heights, t)) == target,
            decreases stack_weight(heights),
        {
            let ghost stack_before = deref_nodes(partially_selected_nodes@);
            let ghost heights_before = heights;
            let ghost acc_before = obs_bag(blocks.flatten()).add(obs_bag(gathered));
            let partial_node = partially_selected_nodes.pop().unwrap();
            let ghost g = heights.last();
            proof {
                heights = heights.drop_last();
                assert(stack_before.last() == *partial_node);
                assert(stack_before.drop_last() =~= deref_nodes(partially_selected_nodes@));
                assert(stack_before[stack_before.len() - 1] == *partial_node);
                assert forall|i: int| 0 <= i < heights.len() implies (#[trigger] deref_nodes(partially_selected_nodes@)[i]).wf_h(heights[i])
                    && deref_nodes(partially_selected_nodes@)[i].view_h(heights[i]).len() <= usize::MAX by {
                    assert(deref_nodes(partially_selected_nodes@)[i] == stack_before[i]);
                    assert(heights[i] == heights_before[i]);
                }
            }
            let ghost pending0 = pending_bag(deref_nodes(partially_selected_nodes@), heights, t);
            let ghost node_bag = obs_bag(in_span(partial_node.view_h(g), t));
            assert(acc_before.add(pending0).add(node_bag) =~= target);
            let selection = partial_node.select_range(timespan, Ghost(g));
            match selection {
                RangeSelectionResult::Nodes(nodes) => {
                    let ghost hc = (g - 1) as nat;
                    let ghost ns = deref_nodes(nodes@);
                    proof {
                        let cs = partial_node.spec_children();
                        assert(cs[0].wf_h(hc));
                        lemma_children_view_prefix(cs, hc, 0);
                        lemma_children_view_len_prefix(cs, hc, 1);
                        assert(cs.subrange(0, 0) =~= Seq::<Node<V, M>>::empty());
                        assert(good_node(*partial_node, g));
                        lemma_select_range_view(*partial_node, g, t);
                        lemma_touching_len(cs, hc, t);
                        assert(ns.subrange(0, 0) =~= Seq::<Node<V, M>>::empty());
                        assert(children_view(Seq::<Node<V, M>>::empty(), hc) == Seq::<Observation<V>>::empty());
                        assert(in_span(Seq::<Observation<V>>::empty(), t) == Seq::<Observation<V>>::empty());
                        assert(timestamps_of(Seq::<Observation<V>>::empty()) =~= Seq::<TimeStamp>::empty());
                        vstd::seq_lib::to_multiset_len(Seq::<Observation<V>>::empty());
                        vstd::multiset::lemma_multiset_empty_len(Seq::<Observation<V>>::empty().to_multiset());
                        assert(obs_bag(in_span(Seq::<Observation<V>>::empty(), t)) =~= Multiset::<Observation<V>>::empty());
                        lemma_weight_pos(hc);
                    }
                    let mut i: usize = 0;
                    while i < nodes.len()
                        invariant
                            t == *timespan,
                            g > 0,
                            hc == g - 1,
                            ns == deref_nodes(nodes@),
                            ns.len() <= INTERMEDIATE_CHUNK_SIZE,
                            all_good(ns, hc),
                            0 <= i <= ns.len(),
                            heights.len() == partially_selected_nodes@.len(),
                            forall|k: int| 0 <= k < heights.len() ==> (#[trigger] deref_nodes(partially_selected_nodes@)[k]).wf_h(heights[k])
                                && deref_nodes(partially_selected_nodes@)[k].view_h(heights[k]).len() <= usize::MAX,
                            blocks.len() == selected_nodes@.len(),
                            forall|k: int| 0 <= k < blocks.len() ==> (#[trigger] selected_nodes@[k]).describes(blocks[k]),
                            are_copies_of(gathered, selected_observations@),
                            obs_bag(blocks.flatten()).add(obs_bag(gathered)).add(
                                pending_bag(deref_nodes(partially_selected_nodes@), heights, t))
                                == acc_before.add(pending0).add(
                                    obs_bag(in_span(children_view(ns.subrange(0, i as int), hc), t))),
                            stack_weight(heights) <= stack_weight(heights_before) - weight(g) + i * weight(hc),
                            stack_weight(heights_before) == stack_weight(heights_before.drop_last()) + weight(g),
                            weight(g) == 6 * weight(hc),
                            weight(hc) >= 1,
                        decreases ns.len() - i,
                    {
                        let node = nodes[i];
                        proof {
                            assert(ns[i as int] == *node);
                            assert(good_node(*node, hc));
                            lemma_children_view_prefix(ns, hc, i as int);
                            lemma_in_span_concat(children_view(ns.subrange(0, i as int), hc), node.view_h(hc), t);
                            lemma_obs_bag_concat(in_span(children_view(ns.subrange(0, i as int), hc), t), in_span(node.view_h(hc), t));
                            lemma_one_more(i as int, weight(hc) as int);
                        }
                        let ghost acc_i = obs_bag(blocks.flatten()).add(obs_bag(gathered));
                        let ghost pend_i = pending_bag(deref_nodes(partially_selected_nodes@), heights, t);
                        if let Some(aggregation) = node.metrics(Ghost(hc)) {
                            if timespan.covers(&aggregation.timespan) {
                                proof {
                                    lemma_covered_in_span(*node, hc, t, aggregation.timespan);
                                    blocks.lemma_flatten_push(node.view_h(hc));
                                    lemma_obs_bag_concat(blocks.flatten(), node.view_h(hc));
                                    blocks = blocks.push(node.view_h(hc));
                                }
                                let ghost sn_before = selected_nodes@;
                                selected_nodes.push(aggregation);
                                proof {
                                    assert forall|k: int| 0 <= k < blocks.len() implies (#[trigger] selected_nodes@[k]).describes(blocks[k]) by {
                                        if k < blocks.len() - 1 {
                                            assert(selected_nodes@[k] == sn_before[k]);
                                        }
                                    }
                                    assert(obs_bag(blocks.flatten()).add(obs_bag(gathered)).add(pend_i)
                                        =~= acc_i.add(pend_i).add(obs_bag(in_span(node.view_h(hc), t))));
                                }
                            } else {
                                let ghost stack_i = deref_nodes(partially_selected_nodes@);
                                let ghost heights_i = heights;
                                partially_selected_nodes.push(node);
                                proof {
                                    heights = heights.push(hc);
                                    assert(deref_nodes(partially_selected_nodes@) =~= stack_i.push(*node));
                                    assert(stack_i.push(*node).drop_last() =~= stack_i);
                                    assert(heights.drop_last() =~= heights_i);
                                    assert forall|k: int| 0 <= k < heights.len() implies (#[trigger] deref_nodes(partially_selected_nodes@)[k]).wf_h(heights[k])
                                        && deref_nodes(partially_selected_nodes@)[k].view_h(heights[k]).len() <= usize::MAX by {
                                        if k < heights_i.len() {
                                            assert(deref_nodes(partially_selected_nodes@)[k] == stack_i[k]);
                                            assert(heights[k] == heights_i[k]);
                                        }
                                    }
                                    assert(acc_i.add(pending_bag(deref_nodes(partially_selected_nodes@), heights, t))
                                        =~= acc_i.add(pend_i).add(obs_bag(in_span(node.view_h(hc), t))));
                                }
                            }
                        }
                        i = i + 1;
                    }
                    proof {
                        assert(ns.subrange(0, ns.len() as int) =~= ns);
                        lemma_five_children(ns.len() as int, weight(hc) as int);
                    }
                },
                RangeSelectionResult::Observations(observations) => {
                    let ghost os = deref_observations(observations@);
                    let ghost gathered0 = gathered;
                    let mut i: usize = 0;
                    assert(os.subrange(0, 0) =~= Seq::<Observation<V>>::empty());
                    assert(gathered0 + os.subrange(0, 0) =~= gathered0);
                    while i < observations.len()
                        invariant
                            os == deref_observations(observations@),
                            0 <= i <= os.len(),
                            gathered == gathered0 + os.subrange(0, i as int),
                            are_copies_of(gathered, selected_observations@),
                        decreases os.len() - i,
                    {
                        let copy = observations[i].clone();
                        proof {
                            assert(os[i as int] == *observations@[i as int]);
                            gathered = gathered.push(os[i as int]);
                            assert(gathered =~= gathered0 + os.subrange(0, i + 1));
                        }
                        let ghost so_before = selected_observations@;
                        selected_observations.push(copy);
                        proof {
                            assert forall|k: int| 0 <= k < gathered.len() implies is_copy_of(#[trigger] gathered[k], selected_observations@[k]) by {
                                if k < gathered.len() - 1 {
                                    assert(selected_observations@[k] == so_before[k]);
                                }
                            }
                        }
                        i = i + 1;
                    }
                    proof {
                        assert(os.subrange(0, os.len() as int) =~= os);
                        lemma_in_span_idempotent(partial_node.view_h(g), t);
                        lemma_obs_bag_concat(gathered0, os);
                        assert(obs_bag(blocks.flatten()).add(obs_bag(gathered)).add(pending0) =~= target);
                    }
                },
            }
        }
        proof {
            assert(heights =~= Seq::<nat>::empty());
            assert(pending_bag(deref_nodes(partially_selected_nodes@), heights, t) =~= Multiset::<Observation<V>>::empty());
            assert(obs_bag(blocks.flatten()).add(obs_bag(gathered)) =~= target);
            lemma_obs_bag_concat(blocks.flatten(), gathered);
            assert(obs_bag(blocks.flatten()).len() <= target.len());
            if selected_nodes@.len() > 0 {
                lemma_merge_summaries(selected_nodes@, blocks);
            }
        }
        // Now we have nodes and individual observations, take metrics of those.
        let nodes_aggregation = Aggregation::from_aggregations(selected_nodes.as_slice());
        let observations_aggregation = Aggregation::from_observations(selected_observations.as_slice());
        let mut all_aggregations: Vec<Aggregation<V, M>> = Vec::new();
        let ghost mut all_blocks: Seq<Seq<Observation<V>>> = Seq::empty();
        proof {
            if exact_clones::<V, M>() && selected_nodes@.len() > 0 {
                let a = nodes_aggregation->Some_0;
                let sn = selected_nodes@;
                let first = choose|first: M| #[trigger] cloned(sn[0].metrics, first)
                    && a.metrics == merged_with(first, sn.subrange(1, sn.len() as int));
                assert(first == sn[0].metrics);
                assert forall|i: int| 0 <= i < blocks.len() implies metrics_of(#[trigger] sn[i].metrics, blocks[i]) by {
                    assert(sn[i].describes(blocks[i]));
                }
                lemma_merged_metrics(sn, blocks);
            }
            if exact_clones::<V, M>() && gathered.len() > 0 {
                assert(selected_observations@ =~= gathered) by {
                    assert forall|k: int| 0 <= k < gathered.len() implies selected_observations@[k] == gathered[k] by {
                        assert(is_copy_of(gathered[k], selected_observations@[k]));
                        assert(cloned(gathered[k].value, selected_observations@[k].value));
                    }
                }
            }
        }
        if let Some(a) = nodes_aggregation {
            all_aggregations.push(a);
            proof {
                all_blocks = all_blocks.push(blocks.flatten());
            }
        }
        if let Some(b) = observations_aggregation {
            proof {
                lemma_summarises_copies(b, gathered, selected_observations@);
            }
            all_aggregations.push(b);
            proof {
                all_blocks = all_blocks.push(gathered);
            }
        }
        proof {
            if selected_nodes@.len() == 0 {
                assert(blocks =~= Seq::<Seq<Observation<V>>>::empty());
                assert(blocks.flatten() =~= Seq::<Observation<V>>::empty());
            }
            if gathered.len() == 0 {
                assert(gathered =~= Seq::<Observation<V>>::empty());
            }
            assert(all_blocks.flatten() =~= blocks.flatten() + gathered) by {
                if all_blocks.len() == 2 {
                    assert(all_blocks =~= seq![blocks.flatten()].push(gathered));
                    seq![blocks.flatten()].lemma_flatten_push(gathered);
                    seq![blocks.flatten()].lemma_flatten_one_element();
                } else if all_blocks.len() == 1 {
                    all_blocks.lemma_flatten_one_element();
                    assert(blocks.flatten() + gathered =~= all_blocks[0]);
                } else {
                    assert(blocks.flatten() + gathered =~= Seq::<Observation<V>>::empty());
                }
            }
            assert(forall|i: int| 0 <= i < all_blocks.len() ==> (#[trigger] all_aggregations@[i]).summarises(all_blocks[i]));
            if all_aggregations@.len() > 0 {
                lemma_merge_summaries(all_aggregations@, all_blocks);
            } else {
                assert(total_count(all_aggregations@) == 0);
            }
            lemma_same_bag_timestamps(all_blocks.flatten(), in_span(self@, t));
            assert(timestamps_of(all_blocks.flatten()).to_multiset() == timestamps_of(in_span(self@, t)).to_multiset());
            assert(timestamps_of(all_blocks.flatten()).len() == all_blocks.flatten().len());
            assert(timestamps_of(in_span(self@, t)).len() == in_span(self@, t).len());
            assert(timestamps_of(all_blocks.flatten()).len() == timestamps_of(all_blocks.flatten()).to_multiset().len());
            assert(timestamps_of(in_span(self@, t)).len() == timestamps_of(in_span(self@, t)).to_multiset().len());
        }
        let summary = Aggregation::from_aggregations(all_aggregations.as_slice());
        proof {
            if summary is Some {
                let a = summary->Some_0;
                lemma_hull_same_bag(a.timespan, timestamps_of(all_blocks.flatten()), timestamps_of(in_span(self@, t)));
                if exact_clones::<V, M>() {
                    let aa = all_aggregations@;
                    let first = choose|first: M| #[trigger] cloned(aa[0].metrics, first)
                        && a.metrics == merged_with(first, aa.subrange(1, aa.len() as int));
                    assert(first == aa[0].metrics);
                    assert forall|i: int| 0 <= i < all_blocks.len() implies metrics_of(#[trigger] aa[i].metrics, all_blocks[i]) by {
                        if i == 0 && selected_nodes@.len() > 0 {
                            assert(metrics_of(aa[0].metrics, blocks.flatten()));
                        } else {
                            assert(aa[i].describes(all_blocks[i]));
                        }
                    }
                    lemma_merged_metrics(aa, all_blocks);
                    assert(metrics_of(a.metrics, all_blocks.flatten()));
                    assert(obs_bag(all_blocks.flatten()) == obs_bag(in_span(self@, t)));
                }
            }
        }
        summary
    }
}

/// The observations below the nodes `ns` are ordered from node to node: all
/// below an earlier node come no later than any below a later node.
spec fn nodes_ordered<V, M>(ns: Seq<Node<V, M>>, g: nat) -> bool where M: Metrics<V> + From<V> + Clone, V: Clone {
    forall|a: int, b: int, x: Observation<V>, y: Observation<V>|
        #![trigger ns[a].view_h(g).contains(x), ns[b].view_h(g).contains(y)]
        0 <= a < b < ns.len() && ns[a].view_h(g).contains(x) && ns[b].view_h(g).contains(y)
            ==> x.timestamp.nanos <= y.timestamp.nanos
}

/// The selected nodes are ordered, each in time order, and each overlaps `t`.
spec fn level_ok<V, M>(ns: Seq<Node<V, M>>, g: nat, t: TimeSpan) -> bool where M: Metrics<V> + From<V> + Clone, V: Clone {
    &&& nodes_ordered(ns, g)
    &&& forall|k: int| 0 <= k < ns.len() ==> sorted(#[trigger] ns[k].view_h(g))
    &&& forall|k: int| 0 <= k < ns.len() ==> touches(#[trigger] ns[k], g, t)
}

/// An observation below the nodes is below one of them.
proof fn lemma_children_view_contains<V, M>(cs: Seq<Node<V, M>>, g: nat, x: Observation<V>) where
    M: Metrics<V> + From<V> + Clone,
    V: Clone,

    ensures
        children_view(cs, g).contains(x) <==> exists|k: int| 0 <= k < cs.len() && (#[trigger] cs[k]).view_h(g).contains(x),
    decreases cs.len(),
{
    if cs.len() > 0 {
        let d = cs.drop_last();
        lemma_children_view_contains(d, g, x);
        let a = children_view(d, g);
        let b = cs.last().view_h(g);
        assert(cs[cs.len() - 1] == cs.last());
        if children_view(cs, g).contains(x) {
            let i = choose|i: int| 0 <= i < (a + b).len() && (a + b)[i] == x;
            if i < a.len() {
                assert(a[i] == x);
                assert(a.contains(x));
                let k = choose|k: int| 0 <= k < d.len() && (#[trigger] d[k]).view_h(g).contains(x);
                assert(d[k] == cs[k]);
            } else {
                assert(b[i - a.len()] == x);
                assert(b.contains(x));
            }
        }
        if exists|k: int| 0 <= k < cs.len() && (#[trigger] cs[k]).view_h(g).contains(x) {
            let k = choose|k: int| 0 <= k < cs.len() && (#[trigger] cs[k]).view_h(g).contains(x);
            if k < cs.len() - 1 {
                assert(d[k] == cs[k]);
                assert(a.contains(x));
                let i = choose|i: int| 0 <= i < a.len() && a[i] == x;
                assert((a + b)[i] == x);
            } else {
                let i = choose|i: int| 0 <= i < b.len() && b[i] == x;
                assert((a + b)[a.len() + i] == x);
            }
        }
    } else {
        assert(children_view(cs, g) == Seq::<Observation<V>>::empty());
    }
}

/// A concatenation in time order is made of two parts in time order, the
/// first no later than the second.
proof fn lemma_sorted_split<V>(a: Seq<Observation<V>>, b: Seq<Observation<V>>)
    requires
        sorted(a + b),
    ensures
        sorted(a),
        sorted(b),
        forall|x: Observation<V>, y: Observation<V>| #![trigger a.contains(x), b.contains(y)]
            a.contains(x) && b.contains(y) ==> x.timestamp.nanos <= y.timestamp.nanos,
{
    let s = a + b;
    assert forall|i: int, j: int| 0 <= i <= j < a.len() implies (#[trigger] a[i]).timestamp.nanos <= (#[trigger] a[j]).timestamp.nanos by {
        assert(s[i] == a[i] && s[j] == a[j]);
    }
    assert forall|i: int, j: int| 0 <= i <= j < b.len() implies (#[trigger] b[i]).timestamp.nanos <= (#[trigger] b[j]).timestamp.nanos by {
        assert(s[a.len() + i] == b[i] && s[a.len() + j] == b[j]);
    }
    assert forall|x: Observation<V>, y: Observation<V>| a.contains(x) && b.contains(y) implies x.timestamp.nanos <= y.timestamp.nanos by {
        let i = choose|i: int| 0 <= i < a.len() && a[i] == x;
        let j = choose|j: int| 0 <= j < b.len() && b[j] == y;
        assert(s[i] == x && s[a.len() + j] == y);
    }
}

/// The children of a node in time order are ordered and each in time order.
proof fn lemma_sorted_children<V, M>(cs: Seq<Node<V, M>>, g: nat) where M: Metrics<V> + From<V> + Clone, V: Clone
    requires
        sorted(children_view(cs, g)),
    ensures
        nodes_ordered(cs, g),
        forall|k: int| 0 <= k < cs.len() ==> sorted(#[trigger] cs[k].view_h(g)),
    decreases cs.len(),
{
    if cs.len() > 0 {
        let d = cs.drop_last();
        lemma_sorted_split(children_view(d, g), cs.last().view_h(g));
        lemma_sorted_children(d, g);
        assert(cs[cs.len() - 1] == cs.last());
        assert forall|k: int| 0 <= k < cs.len() implies sorted(#[trigger] cs[k].view_h(g)) by {
            if k < cs.len() - 1 {
                assert(d[k] == cs[k]);
            }
        }
        assert forall|a: int, b: int, x: Observation<V>, y: Observation<V>|
            0 <= a < b < cs.len() && cs[a].view_h(g).contains(x) && cs[b].view_h(g).contains(y)
            implies x.timestamp.nanos <= y.timestamp.nanos by {
            assert(d[a] == cs[a]);
            if b < cs.len() - 1 {
                assert(d[b] == cs[b]);
            } else {
                lemma_children_view_contains(d, g, x);
                assert(children_view(d, g).contains(x));
            }
        }
    }
}

/// The nodes that overlap a span are nodes of the sequence.
proof fn lemma_touching_members<V, M>(cs: Seq<Node<V, M>>, g: nat, t: TimeSpan) where M: Metrics<V> + From<V> + Clone, V: Clone
    ensures
        forall|i: int| #![trigger touching(cs, g, t)[i]] 0 <= i < touching(cs, g, t).len()
            ==> exists|k: int| #![trigger cs[k]] 0 <= k < cs.len() && touching(cs, g, t)[i] == cs[k],
        forall|i: int| 0 <= i < touching(cs, g, t).len() ==> touches(#[trigger] touching(cs, g, t)[i], g, t),
    decreases cs.len(),
{
    if cs.len() > 0 {
        let d = cs.drop_last();
        lemma_touching_members(d, g, t);
        assert(cs[cs.len() - 1] == cs.last());
        assert forall|i: int| #![trigger touching(cs, g, t)[i]] 0 <= i < touching(cs, g, t).len()
            implies exists|k: int| #![trigger cs[k]] 0 <= k < cs.len() && touching(cs, g, t)[i] == cs[k] by {
            if i < touching(d, g, t).len() {
                assert(touching(cs, g, t)[i] == touching(d, g, t)[i]);
                let k = choose|k: int| 0 <= k < d.len() && touching(d, g, t)[i] == d[k];
                assert(d[k] == cs[k]);
            } else {
                assert(touching(cs, g, t)[i] == cs[cs.len() - 1]);
            }
        }
        assert forall|i: int| 0 <= i < touching(cs, g, t).len() implies touches(#[trigger] touching(cs, g, t)[i], g, t) by {
            if i < touching(d, g, t).len() {
                assert(touching(cs, g, t)[i] == touching(d, g, t)[i]);
            }
        }
    }
}

/// The nodes of an ordered sequence that overlap a span are ordered, each in
/// time order, and overlap the span.
proof fn lemma_touching_level_ok<V, M>(cs: Seq<Node<V, M>>, g: nat, t: TimeSpan) where M: Metrics<V> + From<V> + Clone, V: Clone
    requires
        nodes_ordered(cs, g),
        forall|k: int| 0 <= k < cs.len() ==> sorted(#[trigger] cs[k].view_h(g)),
    ensures
        level_ok(touching(cs, g, t), g, t),
{
    lemma_touching_members(cs, g, t);
    let ts = touching(cs, g, t);
    assert forall|k: int| 0 <= k < ts.len() implies sorted(#[trigger] ts[k].view_h(g)) by {
        let j = choose|j: int| 0 <= j < cs.len() && ts[k] == cs[j];
    }
    lemma_touching_ordered(cs, g, t);
}

proof fn lemma_touching_ordered<V, M>(cs: Seq<Node<V, M>>, g: nat, t: TimeSpan) where M: Metrics<V> + From<V> + Clone, V: Clone
    requires
        nodes_ordered(cs, g),
    ensures
        nodes_ordered(touching(cs, g, t), g),
    decreases cs.len(),
{
    if cs.len() > 0 {
        let d = cs.drop_last();
        assert(nodes_ordered(d, g)) by {
            assert forall|a: int, b: int, x: Observation<V>, y: Observation<V>|
                0 <= a < b < d.len() && d[a].view_h(g).contains(x) && d[b].view_h(g).contains(y)
                implies x.timestamp.nanos <= y.timestamp.nanos by {
                assert(d[a] == cs[a] && d[b] == cs[b]);
            }
        }
        lemma_touching_ordered(d, g, t);
        lemma_touching_members(d, g, t);
        let td = touching(d, g, t);
        assert(cs[cs.len() - 1] == cs.last());
        if touches(cs.last(), g, t) {
            let tc = td.push(cs.last());
            assert forall|a: int, b: int, x: Observation<V>, y: Observation<V>|
                0 <= a < b < tc.len() && tc[a].view_h(g).contains(x) && tc[b].view_h(g).contains(y)
                implies x.timestamp.nanos <= y.timestamp.nanos by {
                assert(tc[a] == td[a]);
                let ka = choose|k: int| 0 <= k < d.len() && td[a] == d[k];
                assert(d[ka] == cs[ka]);
                if b < td.len() {
                    assert(tc[b] == td[b]);
                } else {
                    assert(tc[b] == cs[cs.len() - 1]);
                }
                if b < td.len() {
                    let kb = choose|k: int| 0 <= k < d.len() && td[b] == d[k];
                    assert(d[kb] == cs[kb]);
                    assert(td[a].view_h(g).contains(x) && td[b].view_h(g).contains(y));
                }
            }
        }
    }
}

/// Hull ends are observations of the node.
proof fn lemma_hull_ends<V, M>(n: Node<V, M>, g: nat, tt: TimeSpan) where M: Metrics<V> + From<V> + Clone, V: Clone
    requires
        is_hull(tt, timestamps_of(n.view_h(g))),
    ensures
        exists|x: Observation<V>| n.view_h(g).contains(x) && x.timestamp == tt.start,
        exists|y: Observation<V>| n.view_h(g).contains(y) && y.timestamp == tt.end,
{
    let s = n.view_h(g);
    let i = choose|i: int| 0 <= i < timestamps_of(s).len() && timestamps_of(s)[i] == tt.start;
    let j = choose|j: int| 0 <= j < timestamps_of(s).len() && timestamps_of(s)[j] == tt.end;
    assert(s.contains(s[i]) && s[i].timestamp == tt.start);
    assert(s.contains(s[j]) && s[j].timestamp == tt.end);
}

/// Between two nodes that overlap a span, in an ordered sequence, every
/// observation lies in the span.
proof fn lemma_middle_covered<V, M>(ns: Seq<Node<V, M>>, g: nat, t: TimeSpan, k: int, x: Observation<V>) where
    M: Metrics<V> + From<V> + Clone,
    V: Clone,

    requires
        level_ok(ns, g, t),
        0 < k < ns.len() - 1,
        ns[k].view_h(g).contains(x),
    ensures
        t.spec_contains(x.timestamp),
{
    let last = ns.len() - 1;
    assert(touches(ns[0], g, t));
    assert(touches(ns[last], g, t));
    let t0 = choose|tt: TimeSpan| is_hull(tt, timestamps_of(ns[0].view_h(g))) && tt.spec_overlap(t);
    let tl = choose|tt: TimeSpan| is_hull(tt, timestamps_of(ns[last].view_h(g))) && tt.spec_overlap(t);
    lemma_hull_ends(ns[0], g, t0);
    lemma_hull_ends(ns[last], g, tl);
    let e0 = choose|y: Observation<V>| ns[0].view_h(g).contains(y) && y.timestamp == t0.end;
    let el = choose|x: Observation<V>| ns[last].view_h(g).contains(x) && x.timestamp == tl.start;
    assert(ns[0].view_h(g).contains(e0) && ns[k].view_h(g).contains(x));
    assert(ns[k].view_h(g).contains(x) && ns[last].view_h(g).contains(el));
}

/// A node whose observations all lie in a span overlaps it, and so do all its
/// children.
proof fn lemma_covered_children_touch<V, M>(n: Node<V, M>, g: nat, t: TimeSpan) where M: Metrics<V> + From<V> + Clone, V: Clone
    requires
        good_node(n, g),
        g > 0,
        forall|x: Observation<V>| n.view_h(g).contains(x) ==> t.spec_contains(x.timestamp),
    ensures
        touching(n.spec_children(), (g - 1) as nat, t) == n.spec_children(),
{
    let hc = (g - 1) as nat;
    let cs = n.spec_children();
    lemma_children_good(n, g);
    assert forall|k: int| 0 <= k < cs.len() implies touches(#[trigger] cs[k], hc, t) by {
        let c = cs[k];
        assert(good_node(c, hc));
        lemma_hull_of(c.view_h(hc));
        let tt = hull_of(timestamps_of(c.view_h(hc)));
        lemma_hull_ends(c, hc, tt);
        let e = choose|y: Observation<V>| c.view_h(hc).contains(y) && y.timestamp == tt.start;
        lemma_children_view_contains(cs, hc, e);
        assert(n.view_h(g).contains(e));
        assert(tt.spec_overlap(t)) by {
            assert(t.spec_contains(e.timestamp));
            let s = c.view_h(hc);
            assert(tt.spec_contains(timestamps_of(s)[0]));
        }
    }
    lemma_all_touching(cs, hc, t);
}

/// When every node overlaps the span, all nodes are selected.
proof fn lemma_all_touching<V, M>(cs: Seq<Node<V, M>>, g: nat, t: TimeSpan) where M: Metrics<V> + From<V> + Clone, V: Clone
    requires
        forall|k: int| 0 <= k < cs.len() ==> touches(#[trigger] cs[k], g, t),
    ensures
        touching(cs, g, t) == cs,
    decreases cs.len(),
{
    if cs.len() > 0 {
        assert(cs[cs.len() - 1] == cs.last());
        let d = cs.drop_last();
        assert forall|k: int| 0 <= k < d.len() implies touches(#[trigger] d[k], g, t) by {
            assert(d[k] == cs[k]);
        }
        lemma_all_touching(d, g, t);
        assert(d.push(cs.last()) =~= cs);
    }
}

/// Two ordered runs of nodes, the first no later than the second, make an
/// ordered run.
proof fn lemma_ordered_concat<V, M>(a: Seq<Node<V, M>>, b: Seq<Node<V, M>>, g: nat) where M: Metrics<V> + From<V> + Clone, V: Clone
    requires
        nodes_ordered(a, g),
        nodes_ordered(b, g),
        forall|x: Observation<V>, y: Observation<V>|
            #![trigger children_view(a, g).contains(x), children_view(b, g).contains(y)]
            children_view(a, g).contains(x) && children_view(b, g).contains(y) ==> x.timestamp.nanos <= y.timestamp.nanos,
    ensures
        nodes_ordered(a + b, g),
{
    let c = a + b;
    assert forall|i: int, j: int, x: Observation<V>, y: Observation<V>|
        0 <= i < j < c.len() && c[i].view_h(g).contains(x) && c[j].view_h(g).contains(y)
        implies x.timestamp.nanos <= y.timestamp.nanos by {
        if j < a.len() {
            assert(c[i] == a[i] && c[j] == a[j]);
        } else if i >= a.len() {
            assert(c[i] == b[i - a.len()] && c[j] == b[j - a.len()]);
        } else {
            assert(c[i] == a[i] && c[j] == b[j - a.len()]);
            lemma_children_view_contains(a, g, x);
            lemma_children_view_contains(b, g, y);
            assert(children_view(a, g).contains(x));
            assert(children_view(b, g).contains(y));
        }
    }
}


/// Every observation below the nodes `res` (of height `hr`) is below the
/// nodes `ns` (of height `g`).
spec fn drawn_from<V, M>(res: Seq<Node<V, M>>, hr: nat, ns: Seq<Node<V, M>>, g: nat) -> bool where
    M: Metrics<V> + From<V> + Clone,
    V: Clone,

{
    forall|x: Observation<V>| #[trigger] children_view(res, hr).contains(x) ==> children_view(ns, g).contains(x)
}

/// The observations below the nodes that overlap a span are below the nodes.
proof fn lemma_touching_drawn<V, M>(cs: Seq<Node<V, M>>, g: nat, t: TimeSpan) where M: Metrics<V> + From<V> + Clone, V: Clone
    ensures
        drawn_from(touching(cs, g, t), g, cs, g),
{
    lemma_touching_members(cs, g, t);
    let ts = touching(cs, g, t);
    assert forall|x: Observation<V>| #[trigger] children_view(ts, g).contains(x) implies children_view(cs, g).contains(x) by {
        lemma_children_view_contains(ts, g, x);
        let k = choose|k: int| 0 <= k < ts.len() && (#[trigger] ts[k]).view_h(g).contains(x);
        let j = choose|j: int| 0 <= j < cs.len() && ts[k] == cs[j];
        lemma_children_view_contains(cs, g, x);
    }
}

/// One step of zooming in on ordered nodes of height `g > 0`: the children
/// of node `k` that overlap the span keep the selection ordered.
proof fn lemma_enhance_nodes_step<V, M>(
    res: Seq<Node<V, M>>,
    ns: Seq<Node<V, M>>,
    g: nat,
    t: TimeSpan,
    k: int,
    b: Seq<Node<V, M>>,
) where M: Metrics<V> + From<V> + Clone, V: Clone
    requires
        g > 0,
        level_ok(ns, g, t),
        all_good(ns, g),
        0 <= k < ns.len(),
        level_ok(res, (g - 1) as nat, t),
        drawn_from(res, (g - 1) as nat, ns.subrange(0, k), g),
        b == touching(ns[k].spec_children(), (g - 1) as nat, t) || (0 < k < ns.len() - 1 && b == ns[k].spec_children()),
    ensures
        level_ok(res + b, (g - 1) as nat, t),
        drawn_from(res + b, (g - 1) as nat, ns.subrange(0, k + 1), g),
{
    let hc = (g - 1) as nat;
    let n = ns[k];
    let cs = n.spec_children();
    assert(good_node(n, g));
    lemma_children_good(n, g);
    assert(sorted(n.view_h(g)));
    lemma_sorted_children(cs, hc);
    if b == cs && 0 < k < ns.len() - 1 {
        assert forall|x: Observation<V>| n.view_h(g).contains(x) implies t.spec_contains(x.timestamp) by {
            lemma_middle_covered(ns, g, t, k, x);
        }
        lemma_covered_children_touch(n, g, t);
    }
    assert(b == touching(cs, hc, t));
    lemma_touching_level_ok(cs, hc, t);
    lemma_touching_drawn(cs, hc, t);
    let pre = ns.subrange(0, k);
    assert forall|x: Observation<V>, y: Observation<V>|
        #![trigger children_view(res, hc).contains(x), children_view(b, hc).contains(y)]
        children_view(res, hc).contains(x) && children_view(b, hc).contains(y) implies x.timestamp.nanos <= y.timestamp.nanos by {
        assert(children_view(pre, g).contains(x));
        lemma_children_view_contains(pre, g, x);
        let j = choose|j: int| 0 <= j < pre.len() && (#[trigger] pre[j]).view_h(g).contains(x);
        assert(pre[j] == ns[j]);
        assert(children_view(cs, hc).contains(y));
        assert(ns[j].view_h(g).contains(x) && ns[k].view_h(g).contains(y));
    }
    lemma_ordered_concat(res, b, hc);
    let c = res + b;
    assert forall|i: int| 0 <= i < c.len() implies sorted(#[trigger] c[i].view_h(hc)) && touches(c[i], hc, t) by {
        if i < res.len() {
            assert(c[i] == res[i]);
        } else {
            assert(c[i] == b[i - res.len()]);
        }
    }
    lemma_children_view_concat(res, b, hc);
    lemma_children_view_prefix(ns, g, k);
    assert forall|x: Observation<V>| #[trigger] children_view(c, hc).contains(x) implies children_view(ns.subrange(0, k + 1), g).contains(x) by {
        let s1 = children_view(res, hc);
        let s2 = children_view(b, hc);
        let i = choose|i: int| 0 <= i < (s1 + s2).len() && (s1 + s2)[i] == x;
        let p1 = children_view(pre, g);
        let p2 = n.view_h(g);
        if i < s1.len() {
            assert(s1[i] == x);
            assert(s1.contains(x));
            assert(p1.contains(x));
            let j = choose|j: int| 0 <= j < p1.len() && p1[j] == x;
            assert((p1 + p2)[j] == x);
        } else {
            assert(s2[i - s1.len()] == x);
            assert(s2.contains(x));
            assert(p2.contains(x));
            let j = choose|j: int| 0 <= j < p2.len() && p2[j] == x;
            assert((p1 + p2)[p1.len() + j] == x);
        }
    }
}

/// One step of zooming in on ordered leaves: the observations selected from
/// leave `k` all lie in the span.
proof fn lemma_enhance_leaves_step<V, M>(
    res: Seq<Observation<V>>,
    ns: Seq<Node<V, M>>,
    t: TimeSpan,
    k: int,
    b: Seq<Observation<V>>,
) where M: Metrics<V> + From<V> + Clone, V: Clone
    requires
        level_ok(ns, 0, t),
        0 <= k < ns.len(),
        all_in_span(res, t),
        b == in_span(ns[k].view_h(0), t) || (0 < k < ns.len() - 1 && b == ns[k].view_h(0)),
    ensures
        all_in_span(res + b, t),
{
    let c = res + b;
    if b == in_span(ns[k].view_h(0), t) {
        lemma_in_span_members(ns[k].view_h(0), t);
    }
    assert forall|i: int| 0 <= i < c.len() implies t.spec_contains(#[trigger] c[i].timestamp) by {
        if i < res.len() {
            assert(c[i] == res[i]);
        } else {
            assert(c[i] == b[i - res.len()]);
            if b != in_span(ns[k].view_h(0), t) {
                assert(ns[k].view_h(0).contains(b[i - res.len()]));
                lemma_middle_covered(ns, 0, t, k, b[i - res.len()]);
            }
        }
    }
}

/// The observations in a span lie in it.
proof fn lemma_in_span_members<V>(s: Seq<Observation<V>>, t: TimeSpan)
    ensures
        all_in_span(in_span(s, t), t),
    decreases s.len(),
{
    if s.len() > 0 {
        lemma_in_span_members(s.drop_last(), t);
    }
}


/// Zooming in on time-ordered data, starting with the first node.
proof fn lemma_zoom_first<'t, V, M>(
    r: RangeSelectionResult<'t, V, M>,
    ns: Seq<Node<V, M>>,
    g: nat,
    t: TimeSpan,
) where M: Metrics<V> + From<V> + Clone, V: Clone
    requires
        level_ok(ns, g, t),
        all_good(ns, g),
        ns.len() > 0,
        g == 0 ==> (r matches RangeSelectionResult::Observations(os)
            && deref_observations(os@) == in_span(ns[0].view_h(g), t)),
        g > 0 ==> (r matches RangeSelectionResult::Nodes(rs)
            && deref_nodes(rs@) == touching(ns[0].spec_children(), (g - 1) as nat, t)),
    ensures
        r.zoom_ok((g - 1) as nat, t, ns.subrange(0, 1), g),
        r.sel_ordered((g - 1) as nat, t),
{
    let hc = (g - 1) as nat;
    assert(ns.subrange(0, 0) =~= Seq::<Node<V, M>>::empty());
    if g == 0 {
        let b = deref_observations(r->Observations_0@);
        lemma_enhance_leaves_step(Seq::<Observation<V>>::empty(), ns, t, 0, b);
        assert(Seq::<Observation<V>>::empty() + b =~= b);
    } else {
        let b = deref_nodes(r->Nodes_0@);
        let e = Seq::<Node<V, M>>::empty();
        assert(children_view(e, hc) == Seq::<Observation<V>>::empty());
        lemma_enhance_nodes_step(e, ns, g, t, 0, b);
        assert(e + b =~= b);
    }
}

/// Zooming in on time-ordered data, one node further.
proof fn lemma_zoom_step<'t, V, M>(
    a: RangeSelectionResult<'t, V, M>,
    b: RangeSelectionResult<'t, V, M>,
    c: RangeSelectionResult<'t, V, M>,
    ns: Seq<Node<V, M>>,
    g: nat,
    t: TimeSpan,
    k: int,
) where M: Metrics<V> + From<V> + Clone, V: Clone
    requires
        level_ok(ns, g, t),
        all_good(ns, g),
        0 < k < ns.len(),
        a.zoom_ok((g - 1) as nat, t, ns.subrange(0, k), g),
        g == 0 ==> a is Observations,
        g > 0 ==> a is Nodes,
        a matches RangeSelectionResult::Observations(x) ==> (b matches RangeSelectionResult::Observations(y)
            && c matches RangeSelectionResult::Observations(z)
            && deref_observations(z@) == deref_observations(x@) + deref_observations(y@)),
        a matches RangeSelectionResult::Nodes(x) ==> (b matches RangeSelectionResult::Nodes(y)
            && c matches RangeSelectionResult::Nodes(z)
            && deref_nodes(z@) == deref_nodes(x@) + deref_nodes(y@)),
        g == 0 ==> (b matches RangeSelectionResult::Observations(os) && (
            deref_observations(os@) == in_span(ns[k].view_h(g), t)
            || (k < ns.len() - 1 && deref_observations(os@) == ns[k].view_h(g)))),
        g > 0 ==> (b matches RangeSelectionResult::Nodes(rs) && (
            deref_nodes(rs@) == touching(ns[k].spec_children(), (g - 1) as nat, t)
            || (k < ns.len() - 1 && deref_nodes(rs@) == ns[k].spec_children()))),
    ensures
        c.zoom_ok((g - 1) as nat, t, ns.subrange(0, k + 1), g),
        c.sel_ordered((g - 1) as nat, t),
{
    if g == 0 {
        lemma_enhance_leaves_step(
            deref_observations(a->Observations_0@), ns, t, k, deref_observations(b->Observations_0@));
    } else {
        lemma_enhance_nodes_step(deref_nodes(a->Nodes_0@), ns, g, t, k, deref_nodes(b->Nodes_0@));
    }
}
/// A node holding an observation in `t` overlaps `t`.
proof fn lemma_holds_in_span_touches<V, M>(n: Node<V, M>, g: nat, t: TimeSpan, x: Observation<V>) where
    M: Metrics<V> + From<V> + Clone,
    V: Clone,

    requires
        n.view_h(g).contains(x),
        t.spec_contains(x.timestamp),
    ensures
        touches(n, g, t),
{
    let s = n.view_h(g);
    lemma_hull_of(s);
    let tt = hull_of(timestamps_of(s));
    let i = choose|i: int| 0 <= i < s.len() && s[i] == x;
    assert(timestamps_of(s)[i] == x.timestamp);
    assert(tt.spec_contains(x.timestamp));
    assert(tt.spec_overlap(t));
    assert(is_hull(tt, timestamps_of(n.view_h(g))) && tt.spec_overlap(t));
}

/// Between two nodes that overlap a span, in an ordered run of non-empty
/// nodes, every node overlaps the span.
proof fn lemma_between_touches<V, M>(cs: Seq<Node<V, M>>, g: nat, t: TimeSpan, a: int, b: int, c: int) where
    M: Metrics<V> + From<V> + Clone,
    V: Clone,

    requires
        nodes_ordered(cs, g),
        forall|k: int| 0 <= k < cs.len() ==> (#[trigger] cs[k]).view_h(g).len() > 0,
        0 <= a < b < c < cs.len(),
        touches(cs[a], g, t),
        touches(cs[c], g, t),
    ensures
        touches(cs[b], g, t),
{
    let ta = choose|tt: TimeSpan| is_hull(tt, timestamps_of(cs[a].view_h(g))) && tt.spec_overlap(t);
    let tc = choose|tt: TimeSpan| is_hull(tt, timestamps_of(cs[c].view_h(g))) && tt.spec_overlap(t);
    lemma_hull_ends(cs[a], g, ta);
    lemma_hull_ends(cs[c], g, tc);
    let e = choose|y: Observation<V>| cs[a].view_h(g).contains(y) && y.timestamp == ta.end;
    let f = choose|x: Observation<V>| cs[c].view_h(g).contains(x) && x.timestamp == tc.start;
    let sb = cs[b].view_h(g);
    assert(sb.contains(sb[0]));
    let x = sb[0];
    assert(cs[a].view_h(g).contains(e) && cs[b].view_h(g).contains(x));
    assert(cs[b].view_h(g).contains(x) && cs[c].view_h(g).contains(f));
    lemma_holds_in_span_touches(cs[b], g, t, x);
}

/// In an ordered run of non-empty nodes, the nodes that overlap a span are a
/// consecutive run `cs[i..j]` of them, and every node that overlaps the span
/// is in it.
proof fn lemma_touching_run<V, M>(cs: Seq<Node<V, M>>, g: nat, t: TimeSpan) -> (r: (int, int)) where
    M: Metrics<V> + From<V> + Clone,
    V: Clone,

    requires
        nodes_ordered(cs, g),
        forall|k: int| 0 <= k < cs.len() ==> (#[trigger] cs[k]).view_h(g).len() > 0,
    ensures
        0 <= r.0 <= r.1 <= cs.len(),
        touching(cs, g, t) == cs.subrange(r.0, r.1),
        forall|k: int| 0 <= k < cs.len() && touches(#[trigger] cs[k], g, t) ==> r.0 <= k < r.1,
    decreases cs.len(),
{
    if cs.len() == 0 {
        assert(cs.subrange(0, 0) =~= cs);
        (0, 0)
    } else {
        let n = cs.len() as int;
        let d = cs.drop_last();
        assert(nodes_ordered(d, g)) by {
            assert forall|a: int, b: int, x: Observation<V>, y: Observation<V>|
                0 <= a < b < d.len() && d[a].view_h(g).contains(x) && d[b].view_h(g).contains(y)
                implies x.timestamp.nanos <= y.timestamp.nanos by {
                assert(d[a] == cs[a] && d[b] == cs[b]);
            }
        }
        assert forall|k: int| 0 <= k < d.len() implies (#[trigger] d[k]).view_h(g).len() > 0 by {
            assert(d[k] == cs[k]);
        }
        let (i, j) = lemma_touching_run(d, g, t);
        assert(cs[n - 1] == cs.last());
        if touches(cs.last(), g, t) {
            if i < j {
                if j < n - 1 {
                    assert(d.subrange(i, j)[j - 1 - i] == d[j - 1]);
                    lemma_touching_members(d, g, t);
                    assert(touches(touching(d, g, t)[j - 1 - i], g, t));
                    assert(d[j - 1] == cs[j - 1]);
                    lemma_between_touches(cs, g, t, j - 1, n - 2, n - 1);
                    assert(d[n - 2] == cs[n - 2]);
                }
                assert(cs.subrange(i, n) =~= d.subrange(i, j).push(cs.last()));
                assert forall|k: int| 0 <= k < cs.len() && touches(#[trigger] cs[k], g, t) implies i <= k < n by {
                    if k < n - 1 {
                        assert(d[k] == cs[k]);
                    }
                }
                (i, n)
            } else {
                assert(d.subrange(i, j) =~= Seq::<Node<V, M>>::empty());
                assert(cs.subrange(n - 1, n) =~= Seq::<Node<V, M>>::empty().push(cs.last()));
                assert forall|k: int| 0 <= k < cs.len() && touches(#[trigger] cs[k], g, t) implies n - 1 <= k < n by {
                    if k < n - 1 {
                        assert(d[k] == cs[k]);
                    }
                }
                (n - 1, n)
            }
        } else {
            assert(cs.subrange(i, j) =~= d.subrange(i, j));
            assert forall|k: int| 0 <= k < cs.len() && touches(#[trigger] cs[k], g, t) implies i <= k < j by {
                if k < n - 1 {
                    assert(d[k] == cs[k]);
                }
            }
            (i, j)
        }
    }
}

/// `w` is a consecutive run `s[a..b]` of `s`.
pub open spec fn is_window<T>(w: Seq<T>, s: Seq<T>) -> bool {
    exists|a: int, b: int| 0 <= a <= b <= s.len() && w == s.subrange(a, b)
}

/// A run of a run is a run.
proof fn lemma_window_trans<T>(w: Seq<T>, s: Seq<T>, u: Seq<T>)
    requires
        is_window(w, s),
        is_window(s, u),
    ensures
        is_window(w, u),
{
    let (a, b) = choose|a: int, b: int| 0 <= a <= b <= s.len() && w == s.subrange(a, b);
    let (c, d) = choose|c: int, d: int| 0 <= c <= d <= u.len() && s == u.subrange(c, d);
    assert(w =~= u.subrange(c + a, c + b));
}

/// What stands between two parts is a run.
proof fn lemma_window_middle<T>(p: Seq<T>, w: Seq<T>, q: Seq<T>)
    ensures
        is_window(w, p + w + q),
{
    assert(w =~= (p + w + q).subrange(p.len() as int, (p.len() + w.len()) as int));
}

/// The observations below nodes, split in three runs of nodes.
proof fn lemma_children_view_split<V, M>(cs: Seq<Node<V, M>>, g: nat, i: int, j: int) where
    M: Metrics<V> + From<V> + Clone,
    V: Clone,

    requires
        0 <= i <= j <= cs.len(),
    ensures
        children_view(cs, g) == children_view(cs.subrange(0, i), g) + children_view(cs.subrange(i, j), g)
            + children_view(cs.subrange(j, cs.len() as int), g),
{
    lemma_children_view_concat(cs.subrange(0, i), cs.subrange(i, j), g);
    assert(cs.subrange(0, i) + cs.subrange(i, j) =~= cs.subrange(0, j));
    lemma_children_view_concat(cs.subrange(0, j), cs.subrange(j, cs.len() as int), g);
    assert(cs.subrange(0, j) + cs.subrange(j, cs.len() as int) =~= cs);
}

/// The observations below the children of nodes are those below the nodes.
proof fn lemma_all_children_view<V, M>(ms: Seq<Node<V, M>>, g: nat) where
    M: Metrics<V> + From<V> + Clone,
    V: Clone,

    requires
        g > 0,
        all_good(ms, g),
    ensures
        children_view(all_children(ms), (g - 1) as nat) == children_view(ms, g),
    decreases ms.len(),
{
    if ms.len() > 0 {
        let d = ms.drop_last();
        assert forall|k: int| 0 <= k < d.len() implies good_node(#[trigger] d[k], g) by {
            assert(d[k] == ms[k]);
        }
        lemma_all_children_view(d, g);
        assert(ms[ms.len() - 1] == ms.last());
        lemma_children_good(ms.last(), g);
        lemma_children_view_concat(all_children(d), ms.last().spec_children(), (g - 1) as nat);
    } else {
        assert(all_children(ms) == Seq::<Node<V, M>>::empty());
    }
}

/// The first observation below nodes is the first below the first node.
proof fn lemma_children_view_first<V, M>(cs: Seq<Node<V, M>>, g: nat) where M: Metrics<V> + From<V> + Clone, V: Clone
    requires
        cs.len() > 0,
        cs[0].view_h(g).len() > 0,
    ensures
        children_view(cs, g).len() > 0,
        children_view(cs, g)[0] == cs[0].view_h(g)[0],
{
    lemma_children_view_split(cs, g, 0, 1);
    assert(cs.subrange(0, 0) =~= Seq::<Node<V, M>>::empty());
    assert(cs.subrange(0, 1) =~= seq![cs[0]]);
    lemma_children_view_single(cs[0], g);
    assert(children_view(Seq::<Node<V, M>>::empty(), g) == Seq::<Observation<V>>::empty());
}

/// Zooming in on the ordered nodes of a level: of the first node the last
/// child overlaps the span, of the last node the first child does.
proof fn lemma_edge_children_touch<V, M>(ns: Seq<Node<V, M>>, g: nat, t: TimeSpan) where
    M: Metrics<V> + From<V> + Clone,
    V: Clone,

    requires
        level_ok(ns, g, t),
        all_good(ns, g),
        g > 0,
        ns.len() > 1,
    ensures
        touches(ns[0].spec_children().last(), (g - 1) as nat, t),
        touches(ns.last().spec_children()[0], (g - 1) as nat, t),
{
    let hc = (g - 1) as nat;
    let n = ns.len() - 1;
    assert(ns.last() == ns[n]);
    assert(good_node(ns[0], g) && good_node(ns[n], g));
    lemma_children_good(ns[0], g);
    lemma_children_good(ns[n], g);
    let c0 = ns[0].spec_children();
    let cl = ns[n].spec_children();
    assert(c0.len() > 0 && cl.len() > 0);
    let v0 = ns[0].view_h(g);
    let vl = ns[n].view_h(g);
    let t0 = choose|tt: TimeSpan| is_hull(tt, timestamps_of(v0)) && tt.spec_overlap(t);
    let tl = choose|tt: TimeSpan| is_hull(tt, timestamps_of(vl)) && tt.spec_overlap(t);
    lemma_hull_ends(ns[0], g, t0);
    lemma_hull_ends(ns[n], g, tl);
    let e = choose|y: Observation<V>| v0.contains(y) && y.timestamp == t0.end;
    let f = choose|x: Observation<V>| vl.contains(x) && x.timestamp == tl.start;
    let t1 = choose|tt: TimeSpan| is_hull(tt, timestamps_of(ns[1].view_h(g))) && tt.spec_overlap(t);
    lemma_hull_ends(ns[1], g, t1);
    let z = choose|x: Observation<V>| ns[1].view_h(g).contains(x) && x.timestamp == t1.start;
    // The last observation below the first node.
    let lc = c0.last();
    assert(c0[c0.len() - 1] == lc);
    assert(good_node(lc, hc));
    let y = lc.view_h(hc).last();
    assert(lc.view_h(hc).contains(y));
    assert(v0 == children_view(c0.drop_last(), hc) + lc.view_h(hc));
    assert(v0.last() == y);
    assert(v0.contains(y));
    let ie = choose|i: int| 0 <= i < v0.len() && v0[i] == e;
    assert(v0[v0.len() - 1] == y);
    assert(sorted(v0));
    assert(e.timestamp.nanos <= y.timestamp.nanos);
    let iy = v0.len() - 1;
    assert(timestamps_of(v0)[iy] == y.timestamp);
    assert(t0.spec_contains(timestamps_of(v0)[iy]));
    assert(ns[0].view_h(g).contains(y) && ns[1].view_h(g).contains(z));
    lemma_holds_in_span_touches(lc, hc, t, y);
    // The first observation below the last node.
    let fc = cl[0];
    assert(good_node(fc, hc));
    lemma_children_view_first(cl, hc);
    let x = fc.view_h(hc)[0];
    assert(vl[0] == x);
    assert(vl.contains(x));
    let jf = choose|j: int| 0 <= j < vl.len() && vl[j] == f;
    assert(x.timestamp.nanos <= f.timestamp.nanos);
    assert(timestamps_of(vl)[0] == x.timestamp);
    assert(tl.spec_contains(timestamps_of(vl)[0]));
    assert(ns[0].view_h(g).contains(e) && ns[n].view_h(g).contains(x));
    assert(fc.view_h(hc).contains(x));
    lemma_holds_in_span_touches(fc, hc, t, x);
}

/// The nodes that overlap a span, among the children of a node in time
/// order, are a consecutive run of them.
proof fn lemma_children_run<V, M>(n: Node<V, M>, g: nat, t: TimeSpan) -> (r: (int, int)) where
    M: Metrics<V> + From<V> + Clone,
    V: Clone,

    requires
        good_node(n, g),
        g > 0,
        sorted(n.view_h(g)),
    ensures
        0 <= r.0 <= r.1 <= n.spec_children().len(),
        touching(n.spec_children(), (g - 1) as nat, t) == n.spec_children().subrange(r.0, r.1),
        forall|k: int| 0 <= k < n.spec_children().len() && touches(#[trigger] n.spec_children()[k], (g - 1) as nat, t)
            ==> r.0 <= k < r.1,
        n.view_h(g) == children_view(n.spec_children(), (g - 1) as nat),
{
    let hc = (g - 1) as nat;
    let cs = n.spec_children();
    lemma_children_good(n, g);
    lemma_sorted_children(cs, hc);
    assert forall|k: int| 0 <= k < cs.len() implies (#[trigger] cs[k]).view_h(hc).len() > 0 by {
        assert(good_node(cs[k], hc));
    }
    lemma_touching_run(cs, hc, t)
}

/// Zooming in on the ordered nodes of a level selects a consecutive run of
/// the observations below them.
proof fn lemma_zoom_window<V, M>(ns: Seq<Node<V, M>>, g: nat, t: TimeSpan) where
    M: Metrics<V> + From<V> + Clone,
    V: Clone,

    requires
        level_ok(ns, g, t),
        all_good(ns, g),
        g > 0,
        ns.len() > 0,
    ensures
        zoomed(ns, g, t) matches Zoomed::Nodes(ms) && is_window(
            children_view(ms, (g - 1) as nat),
            children_view(ns, g),
        ),
{
    let hc = (g - 1) as nat;
    let n = ns.len() - 1;
    assert(good_node(ns[0], g) && good_node(ns[n], g));
    let c0 = ns[0].spec_children();
    let (i0, j0) = lemma_children_run(ns[0], g, t);
    let e = ns.subrange(1, 1);
    assert(e =~= Seq::<Node<V, M>>::empty());
    assert(all_children(e) == Seq::<Node<V, M>>::empty());
    lemma_children_view_split(c0, hc, i0, j0);
    if n == 0 {
        let ms = touching(c0, hc, t) + all_children(e);
        assert(ms =~= c0.subrange(i0, j0));
        assert(ns =~= seq![ns[0]]);
        lemma_children_view_single(ns[0], g);
        lemma_window_middle(
            children_view(c0.subrange(0, i0), hc),
            children_view(c0.subrange(i0, j0), hc),
            children_view(c0.subrange(j0, c0.len() as int), hc),
        );
    } else {
        let cl = ns[n].spec_children();
        let (il, jl) = lemma_children_run(ns[n], g, t);
        assert(ns.last() == ns[n]);
        lemma_edge_children_touch(ns, g, t);
        assert(c0[c0.len() - 1] == c0.last());
        assert(j0 == c0.len());
        assert(il == 0);
        lemma_children_view_split(cl, hc, il, jl);
        let mid = ns.subrange(1, n);
        assert forall|k: int| 0 <= k < mid.len() implies good_node(#[trigger] mid[k], g) by {
            assert(mid[k] == ns[k + 1]);
        }
        lemma_all_children_view(mid, g);
        let a = touching(c0, hc, t);
        let b = all_children(mid);
        let c = touching(cl, hc, t);
        lemma_children_view_concat(a, b, hc);
        lemma_children_view_concat(a + b, c, hc);
        // The observations below the level, in three parts.
        assert(ns =~= seq![ns[0]] + mid + seq![ns[n]]);
        lemma_children_view_concat(seq![ns[0]] + mid, seq![ns[n]], g);
        lemma_children_view_concat(seq![ns[0]], mid, g);
        lemma_children_view_single(ns[0], g);
        lemma_children_view_single(ns[n], g);
        assert(c0.subrange(j0, c0.len() as int) =~= Seq::<Node<V, M>>::empty());
        assert(cl.subrange(0, il) =~= Seq::<Node<V, M>>::empty());
        assert(children_view(Seq::<Node<V, M>>::empty(), hc) == Seq::<Observation<V>>::empty());
        let p = children_view(c0.subrange(0, i0), hc);
        let w = children_view(a + b + c, hc);
        let q = children_view(cl.subrange(jl, cl.len() as int), hc);
        assert(children_view(ns, g) =~= p + w + q);
        lemma_window_middle(p, w, q);
    }
}

/// Below a good intermediate node every child but the last is full, and
/// below a full one every child is.
proof fn lemma_children_full<V, M>(n: Node<V, M>, g: nat) where
    M: Metrics<V> + From<V> + Clone,
    V: Clone,

    requires
        good_node(n, g),
        g > 0,
    ensures
        forall|i: int| 0 <= i < n.spec_children().len() - 1 ==> (#[trigger] n.spec_children()[i]).full_h((g - 1) as nat),
        n.full_h(g) ==> forall|i: int| 0 <= i < n.spec_children().len() ==> (#[trigger] n.spec_children()[i]).full_h((g - 1) as nat),
{
    let cs = n.spec_children();
    if n.full_h(g) {
        assert forall|i: int| 0 <= i < cs.len() implies (#[trigger] cs[i]).full_h((g - 1) as nat) by {
            if i == cs.len() - 1 {
                assert(cs.last() == cs[i]);
            }
        }
    }
}

/// The children of full good nodes are all full.
proof fn lemma_all_children_full<V, M>(ms: Seq<Node<V, M>>, g: nat) where
    M: Metrics<V> + From<V> + Clone,
    V: Clone,

    requires
        g > 0,
        all_good(ms, g),
        forall|i: int| 0 <= i < ms.len() ==> (#[trigger] ms[i]).full_h(g),
    ensures
        forall|k: int| 0 <= k < all_children(ms).len() ==> (#[trigger] all_children(ms)[k]).full_h((g - 1) as nat),
    decreases ms.len(),
{
    if ms.len() > 0 {
        let d = ms.drop_last();
        assert forall|i: int| 0 <= i < d.len() implies good_node(#[trigger] d[i], g) && d[i].full_h(g) by {
            assert(d[i] == ms[i]);
        }
        lemma_all_children_full(d, g);
        assert(ms.last() == ms[ms.len() - 1]);
        lemma_children_full(ms.last(), g);
        let a = all_children(d);
        let c = ms.last().spec_children();
        assert(all_children(ms) == a + c);
        assert forall|k: int| 0 <= k < (a + c).len() implies (#[trigger] (a + c)[k]).full_h((g - 1) as nat) by {
            if k < a.len() {
                assert((a + c)[k] == a[k]);
            } else {
                assert((a + c)[k] == c[k - a.len()]);
            }
        }
    } else {
        assert(all_children(ms) == Seq::<Node<V, M>>::empty());
    }
}

/// Zooming in on the ordered nodes of a level, all full but the last,
/// selects nodes all full but the last.
proof fn lemma_zoom_full<V, M>(ns: Seq<Node<V, M>>, g: nat, t: TimeSpan) where
    M: Metrics<V> + From<V> + Clone,
    V: Clone,

    requires
        level_ok(ns, g, t),
        all_good(ns, g),
        g > 0,
        ns.len() > 0,
        forall|i: int| 0 <= i < ns.len() - 1 ==> (#[trigger] ns[i]).full_h(g),
    ensures
        zoomed(ns, g, t) matches Zoomed::Nodes(ms) && forall|k: int| 0 <= k < ms.len() - 1
            ==> (#[trigger] ms[k]).full_h((g - 1) as nat),
{
    let hc = (g - 1) as nat;
    let n = ns.len() - 1;
    assert(good_node(ns[0], g) && good_node(ns[n], g));
    let c0 = ns[0].spec_children();
    let (i0, j0) = lemma_children_run(ns[0], g, t);
    lemma_children_full(ns[0], g);
    let e = ns.subrange(1, 1);
    assert(e =~= Seq::<Node<V, M>>::empty());
    assert(all_children(e) == Seq::<Node<V, M>>::empty());
    if n == 0 {
        let ms = touching(c0, hc, t) + all_children(e);
        assert(ms =~= c0.subrange(i0, j0));
        assert forall|k: int| 0 <= k < ms.len() - 1 implies (#[trigger] ms[k]).full_h(hc) by {
            assert(ms[k] == c0[i0 + k]);
        }
    } else {
        let cl = ns[n].spec_children();
        let (il, jl) = lemma_children_run(ns[n], g, t);
        lemma_children_full(ns[n], g);
        assert(ns.last() == ns[n]);
        let mid = ns.subrange(1, n);
        assert forall|k: int| 0 <= k < mid.len() implies good_node(#[trigger] mid[k], g) && mid[k].full_h(g) by {
            assert(mid[k] == ns[k + 1]);
        }
        lemma_all_children_full(mid, g);
        let a = touching(c0, hc, t);
        let b = all_children(mid);
        let c = touching(cl, hc, t);
        assert forall|k: int| 0 <= k < a.len() implies (#[trigger] a[k]).full_h(hc) by {
            assert(a[k] == c0[i0 + k]);
        }
        let ms = a + b + c;
        assert forall|k: int| 0 <= k < ms.len() - 1 implies (#[trigger] ms[k]).full_h(hc) by {
            if k < a.len() {
                assert(ms[k] == a[k]);
            } else if k < a.len() + b.len() {
                assert(ms[k] == b[k - a.len()]);
            } else {
                assert(ms[k] == c[k - a.len() - b.len()]);
                assert(c[k - a.len() - b.len()] == cl[il + k - a.len() - b.len()]);
            }
        }
    }
}

/// A full node holds at least a leave's worth of observations.
proof fn lemma_full_len<V, M>(n: Node<V, M>, g: nat) where
    M: Metrics<V> + From<V> + Clone,
    V: Clone,

    requires
        n.wf_h(g),
        n.full_h(g),
    ensures
        n.view_h(g).len() >= LEAVE_CHUNK_SIZE,
    decreases g,
{
    if g > 0 {
        let cs = n.spec_children();
        assert(cs[cs.len() - 1] == cs.last());
        assert(cs.last().wf_h((g - 1) as nat));
        lemma_full_len(cs.last(), (g - 1) as nat);
        lemma_children_view_last_len(cs, (g - 1) as nat);
    }
}

/// Blocks of at least `k` items each hold at least `k` items per block.
proof fn lemma_flatten_len_ge<T>(bs: Seq<Seq<T>>, k: int)
    requires
        k >= 0,
        forall|i: int| 0 <= i < bs.len() ==> (#[trigger] bs[i]).len() >= k,
    ensures
        bs.flatten().len() >= bs.len() * k,
    decreases bs.len(),
{
    if bs.len() > 0 {
        let d = bs.drop_last();
        assert forall|i: int| 0 <= i < d.len() implies (#[trigger] d[i]).len() >= k by {
            assert(d[i] == bs[i]);
        }
        lemma_flatten_len_ge(d, k);
        d.lemma_flatten_push(bs.last());
        assert(d.push(bs.last()) =~= bs);
        assert(bs.last() == bs[bs.len() - 1]);
        let n = d.len();
        assert(n * k + k == (n + 1) * k) by (nonlinear_arith);
    } else {
        assert(bs.flatten() =~= Seq::<T>::empty());
    }
}

/// In time-ordered observations, of a run of blocks whose first reaches up
/// to `t` and whose last reaches down to it, every block between the two lies
/// in `t`; so `t` holds at least a leave's worth of observations per such
/// block when they are that large.
proof fn lemma_middle_blocks_in_span<V>(s: Seq<Observation<V>>, bs: Seq<Seq<Observation<V>>>, t: TimeSpan)
    requires
        sorted(s),
        is_window(bs.flatten(), s),
        bs.len() >= 2,
        exists|i: int| 0 <= i < bs[0].len() && t.start.nanos <= (#[trigger] bs[0][i]).timestamp.nanos,
        exists|i: int| 0 <= i < bs.last().len() && (#[trigger] bs.last()[i]).timestamp.nanos <= t.end.nanos,
        forall|i: int| 1 <= i < bs.len() - 1 ==> (#[trigger] bs[i]).len() >= LEAVE_CHUNK_SIZE,
    ensures
        in_span(s, t).len() >= (bs.len() - 2) * LEAVE_CHUNK_SIZE,
{
    let l = bs.len();
    let mid = bs.subrange(1, l - 1);
    let m = mid.flatten();
    let b0 = bs[0];
    let bl = bs.last();
    assert(bs =~= seq![b0] + mid + seq![bl]);
    vstd::seq_lib::lemma_flatten_concat(seq![b0] + mid, seq![bl]);
    vstd::seq_lib::lemma_flatten_concat(seq![b0], mid);
    seq![b0].lemma_flatten_singleton();
    seq![bl].lemma_flatten_singleton();
    let f = bs.flatten();
    assert(f == b0 + m + bl);
    let (a, b) = choose|a: int, b: int| 0 <= a <= b <= s.len() && f == s.subrange(a, b);
    let ix = choose|i: int| 0 <= i < bs[0].len() && t.start.nanos <= (#[trigger] bs[0][i]).timestamp.nanos;
    let iy = choose|i: int| 0 <= i < bs.last().len() && (#[trigger] bs.last()[i]).timestamp.nanos <= t.end.nanos;
    let x = b0[ix];
    let y = bl[iy];
    assert forall|k: int| 0 <= k < m.len() implies t.spec_contains(#[trigger] m[k].timestamp) by {
        let p0 = a + ix;
        let pk = a + b0.len() + k;
        let py = a + b0.len() + m.len() + iy;
        assert(f[ix] == x);
        assert(f[b0.len() + k] == m[k]);
        assert(f[b0.len() + m.len() + iy] == y);
        assert(s[p0] == x);
        assert(s[pk] == m[k]);
        assert(s[py] == y);
    }
    lemma_covering_span(m, t);
    let p = s.subrange(0, a);
    let q = s.subrange(b, s.len() as int);
    assert(s =~= p + f + q);
    assert(p + f + q =~= p + b0 + m + bl + q);
    lemma_in_span_concat(p + b0 + m + bl, q, t);
    lemma_in_span_concat(p + b0 + m, bl, t);
    lemma_in_span_concat(p + b0, m, t);
    assert forall|i: int| 0 <= i < mid.len() implies (#[trigger] mid[i]).len() >= LEAVE_CHUNK_SIZE by {
        assert(mid[i] == bs[i + 1]);
    }
    lemma_flatten_len_ge(mid, LEAVE_CHUNK_SIZE as int);
}

/// The observations of `s`, regardless of order.
spec fn obs_bag<V>(s: Seq<Observation<V>>) -> Multiset<Observation<V>> {
    s.to_multiset()
}

/// The observations of a concatenation are those of both parts.
proof fn lemma_obs_bag_concat<V>(a: Seq<Observation<V>>, b: Seq<Observation<V>>)
    ensures
        obs_bag(a + b) == obs_bag(a).add(obs_bag(b)),
{
    vstd::seq_lib::lemma_multiset_commutative(a, b);
}

/// Observations that are the same regardless of order have the same
/// timestamps regardless of order.
proof fn lemma_same_bag_timestamps<V>(s: Seq<Observation<V>>, p: Seq<Observation<V>>)
    requires
        obs_bag(s) == obs_bag(p),
    ensures
        timestamp_bag(s) == timestamp_bag(p),
    decreases s.len(),
{
    broadcast use vstd::seq_lib::group_to_multiset_ensures;

    if s.len() == 0 {
        assert(s.to_multiset().len() == 0);
        assert(p.len() == 0);
        assert(s =~= p);
    } else {
        let x = s.last();
        let d = s.drop_last();
        assert(s =~= d.push(x));
        assert(p.to_multiset().count(x) > 0);
        assert(p.contains(x));
        let j = choose|j: int| 0 <= j < p.len() && p[j] == x;
        let q = p.remove(j);
        assert(q.to_multiset() =~= p.to_multiset().remove(x));
        assert(d.to_multiset() =~= s.to_multiset().remove(x));
        lemma_same_bag_timestamps(d, q);
        assert(timestamps_of(s) =~= timestamps_of(d).push(x.timestamp));
        assert(timestamps_of(q) =~= timestamps_of(p).remove(j));
        assert(timestamps_of(p)[j] == x.timestamp);
        assert(timestamps_of(p).remove(j).to_multiset() =~= timestamps_of(p).to_multiset().remove(x.timestamp));
        assert(timestamps_of(p).to_multiset().count(x.timestamp) > 0) by {
            assert(timestamps_of(p).contains(x.timestamp));
        }
        assert(timestamp_bag(p) =~= timestamp_bag(q).insert(x.timestamp));
    }
}

/// The leaves `ns` hold at most a leave's worth of observations each.
proof fn lemma_leaves_len<V, M>(ns: Seq<Node<V, M>>) where
    M: Metrics<V> + From<V> + Clone,
    V: Clone,

    requires
        all_good(ns, 0),
    ensures
        children_view(ns, 0).len() <= ns.len() * LEAVE_CHUNK_SIZE,
    decreases ns.len(),
{
    if ns.len() > 0 {
        let d = ns.drop_last();
        assert forall|i: int| 0 <= i < d.len() implies good_node(#[trigger] d[i], 0) by {
            assert(d[i] == ns[i]);
        }
        lemma_leaves_len(d);
        assert(ns[ns.len() - 1] == ns.last());
        assert(good_node(ns.last(), 0));
    }
}

/// A tree of height zero is a single leave.
proof fn lemma_one_leave_len<V, M>(n: Node<V, M>) where
    M: Metrics<V> + From<V> + Clone,
    V: Clone,

    requires
        n.wf_h(0),
    ensures
        n.view_h(0).len() <= LEAVE_CHUNK_SIZE,
{
}

} // verus!
