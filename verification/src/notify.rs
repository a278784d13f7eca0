//! Notification support for changes in the database.
//!
//! This module is used by the GUI to respond to changes
//! which happen in the database.

use futures::channel::mpsc;
use vstd::prelude::*;

verus! {

/// The text of each name in `names`, as a set.
pub open spec fn name_set(names: Seq<String>) -> Set<Seq<char>> {
    Set::new(|s: Seq<char>| exists|i: int| 0 <= i < names.len() && names[i]@ == s)
}

/// No two names in `names` have the same text.
pub open spec fn distinct_names(names: Seq<String>) -> bool {
    forall|i: int, j: int| 0 <= i < j < names.len() ==> names[i]@ != names[j]@
}

/// Add `name` to a list of distinct names, unless a name with that text is
/// already there.
fn insert_name(names: &mut Vec<String>, name: &str)
    requires
        distinct_names(old(names)@),
    ensures
        distinct_names(final(names)@),
        name_set(final(names)@) == name_set(old(names)@).insert(name@),
{
    let owned = name.to_owned();
    let mut i: usize = 0;
    while i < names.len()
        invariant
            0 <= i <= names@.len(),
            names@ == old(names)@,
            distinct_names(names@),
            owned@ == name@,
            forall|k: int| 0 <= k < i ==> names@[k]@ != name@,
        decreases names@.len() - i,
    {
        if names[i] == owned {
            assert(name_set(names@) =~= name_set(names@).insert(name@));
            return;
        }
        i = i + 1;
    }
    let ghost before = names@;
    names.push(owned);
    proof {
        assert forall|s: Seq<char>| name_set(names@).contains(s) <==> name_set(before).insert(name@).contains(s) by {
            if name_set(before).contains(s) {
                let k = choose|k: int| 0 <= k < before.len() && before[k]@ == s;
                assert(names@[k] == before[k]);
            }
            if s == name@ {
                assert(names@[before.len() as int]@ == s);
            }
            if name_set(names@).contains(s) {
                let k = choose|k: int| 0 <= k < names@.len() && names@[k]@ == s;
                if k < before.len() {
                    assert(names@[k] == before[k]);
                }
            }
        }
        assert(name_set(names@) =~= name_set(before).insert(name@));
        assert forall|a: int, b: int| 0 <= a < b < names@.len() implies names@[a]@ != names@[b]@ by {
            if b < before.len() {
                assert(names@[a] == before[a]);
                assert(names@[b] == before[b]);
            } else {
                assert(names@[a] == before[a]);
            }
        }
    }
}

/// A copy of a list of names.
fn copy_names(names: &Vec<String>) -> (r: Vec<String>)
    ensures
        r@ == names@,
{
    let mut r: Vec<String> = Vec::new();
    let mut i: usize = 0;
    while i < names.len()
        invariant
            0 <= i <= names@.len(),
            r@ == names@.subrange(0, i as int),
        decreases names@.len() - i,
    {
        r.push(names[i].clone());
        assert(r@ =~= names@.subrange(0, i + 1));
        i = i + 1;
    }
    assert(names@.subrange(0, i as int) =~= names@);
    r
}

/// The changes to the database since they were last reported.
#[derive(Debug)]
pub struct DataChangeEvent {
    /// Names of the signals that were added, each once.
    pub new_signals: Vec<String>,
    /// Names of the signals that received data, each once.
    pub changed_signals: Vec<String>,
    /// Whether all data was deleted.
    pub delete_all: bool,
}

impl View for DataChangeEvent {
    /// The names of new signals, the names of changed signals, and whether all
    /// data was deleted.
    type V = (Set<Seq<char>>, Set<Seq<char>>, bool);

    open spec fn view(&self) -> Self::V {
        (name_set(self.new_signals@), name_set(self.changed_signals@), self.delete_all)
    }
}

impl DataChangeEvent {
    /// Neither list holds a name twice.
    pub open spec fn wf(&self) -> bool {
        distinct_names(self.new_signals@) && distinct_names(self.changed_signals@)
    }

    /// An event that reports nothing.
    pub open spec fn spec_empty() -> (Set<Seq<char>>, Set<Seq<char>>, bool) {
        (Set::empty(), Set::empty(), false)
    }

    pub fn new() -> (r: Self)
        ensures
            r.wf(),
            r@ == Self::spec_empty(),
    {
        let r = DataChangeEvent { new_signals: Vec::new(), changed_signals: Vec::new(), delete_all: false };
        assert(name_set(r.new_signals@) =~= Set::<Seq<char>>::empty());
        assert(name_set(r.changed_signals@) =~= Set::<Seq<char>>::empty());
        r
    }

    pub fn is_empty(&self) -> (r: bool)
        requires
            self.wf(),
        ensures
            r == (self@ == Self::spec_empty()),
    {
        let r = self.new_signals.len() == 0 && self.changed_signals.len() == 0 && !self.delete_all;
        proof {
            if self.new_signals@.len() > 0 {
                assert(name_set(self.new_signals@).contains(self.new_signals@[0]@));
            } else {
                assert(name_set(self.new_signals@) =~= Set::<Seq<char>>::empty());
            }
            if self.changed_signals@.len() > 0 {
                assert(name_set(self.changed_signals@).contains(self.changed_signals@[0]@));
            } else {
                assert(name_set(self.changed_signals@) =~= Set::<Seq<char>>::empty());
            }
        }
        r
    }

    pub fn add_new_signal(&mut self, name: &str)
        requires
            old(self).wf(),
        ensures
            final(self).wf(),
            final(self)@ == (old(self)@.0.insert(name@), old(self)@.1, old(self)@.2),
    {
        insert_name(&mut self.new_signals, name);
    }

    pub fn add_changed_signal(&mut self, name: &str)
        requires
            old(self).wf(),
        ensures
            final(self).wf(),
            final(self)@ == (old(self)@.0, old(self)@.1.insert(name@), old(self)@.2),
    {
        insert_name(&mut self.changed_signals, name);
    }

    /// Add a delete all signals event
    pub fn add_delete_all(&mut self)
        ensures
            final(self).wf(),
            final(self)@ == (Set::<Seq<char>>::empty(), Set::<Seq<char>>::empty(), true),
    {
        // Drop all signals added so far:
        self.new_signals.clear();
        self.changed_signals.clear();
        self.delete_all = true;
        assert(name_set(self.new_signals@) =~= Set::<Seq<char>>::empty());
        assert(name_set(self.changed_signals@) =~= Set::<Seq<char>>::empty());
    }

    /// A copy of this event.
    pub fn duplicate(&self) -> (r: Self)
        ensures
            r.new_signals@ == self.new_signals@,
            r.changed_signals@ == self.changed_signals@,
            r.delete_all == self.delete_all,
    {
        DataChangeEvent {
            new_signals: copy_names(&self.new_signals),
            changed_signals: copy_names(&self.changed_signals),
            delete_all: self.delete_all,
        }
    }
}

impl Clone for DataChangeEvent {
    fn clone(&self) -> (r: Self)
        ensures
            r.new_signals@ == self.new_signals@,
            r.changed_signals@ == self.changed_signals@,
            r.delete_all == self.delete_all,
    {
        self.duplicate()
    }
}

#[verifier::external_type_specification]
#[verifier::external_body]
#[verifier::reject_recursive_types(T)]
pub struct ExSender<T>(mpsc::Sender<T>);

/// The events that the sender `channel` has put into its channel so far, in
/// order: each `try_send` that succeeds pushes its message onto the queue,
/// and one that fails leaves it as it was.
pub uninterp spec fn accepted(channel: mpsc::Sender<DataChangeEvent>) -> Seq<(Set<Seq<char>>, Set<Seq<char>>, bool)>;

/// Try once to put `event` into the channel, with
/// `futures::channel::mpsc::Sender::try_send`; true when it was accepted, and
/// then it is the last of the events the sender has put into the channel.
///
/// Whether the channel accepts it depends on its state (full, or closed by
/// the receiver), so nothing is promised of the result itself.
#[verifier::external_body]
fn try_send_event(channel: &mut mpsc::Sender<DataChangeEvent>, event: DataChangeEvent) -> (sent: bool)
    ensures
        sent ==> accepted(*final(channel)) == accepted(*old(channel)).push(event@),
        !sent ==> accepted(*final(channel)) == accepted(*old(channel)),
{
    channel.try_send(event).is_ok()
}

/// What a subscriber holds: the changes not yet delivered, whether the next
/// change may be delivered at once, the events delivered so far, and the
/// events it offered to the channel so far, delivered or not.
pub struct SubscriberState {
    pub pending: (Set<Seq<char>>, Set<Seq<char>>, bool),
    pub ready: bool,
    pub sent: Seq<(Set<Seq<char>>, Set<Seq<char>>, bool)>,
    pub offered: Seq<(Set<Seq<char>>, Set<Seq<char>>, bool)>,
}

/// What reporting a pending event does to a subscriber: one that is not ready
/// stays as it is; a ready one becomes not ready and, when there is
/// something to report, offers its event to the channel once: the channel
/// takes it, and it is cleared, or refuses it, and it is kept.
pub open spec fn emit_step(before: SubscriberState, after: SubscriberState) -> bool {
    if !before.ready {
        after == before
    } else if before.pending == DataChangeEvent::spec_empty() {
        after == SubscriberState { ready: false, ..before }
    } else {
        &&& !after.ready
        &&& after.offered == before.offered.push(before.pending)
        &&& {
            ||| after.pending == before.pending && after.sent == before.sent
            ||| after.pending == DataChangeEvent::spec_empty() && after.sent == before.sent.push(before.pending)
        }
    }
}

/// A ready subscriber with changes pending offers them to the channel when
/// it reports, as one event: either the channel takes it, and it is the
/// latest event sent and nothing is pending any more, or the channel refuses
/// it and it stays pending. Either way the subscriber then waits until it is
/// polled.
pub proof fn lemma_ready_offers(before: SubscriberState, after: SubscriberState)
    requires
        emit_step(before, after),
        before.ready,
        before.pending != DataChangeEvent::spec_empty(),
    ensures
        !after.ready,
        after.offered.len() == before.offered.len() + 1,
        after.offered.last() == before.pending,
        after.offered.drop_last() == before.offered,
        (after.sent.len() == before.sent.len() + 1 && after.sent.last() == before.pending
            && after.sent.drop_last() == before.sent && after.pending == DataChangeEvent::spec_empty())
            || (after.sent == before.sent && after.pending == before.pending),
{
    assert(before.offered.push(before.pending).drop_last() =~= before.offered);
    assert(before.sent.push(before.pending).drop_last() =~= before.sent);
}

/// What polling does to a subscriber: it becomes ready, and what is pending,
/// if anything, is reported at once.
pub open spec fn poll_step(before: SubscriberState, after: SubscriberState) -> bool {
    let now_ready = SubscriberState { ready: true, ..before };
    if before.pending == DataChangeEvent::spec_empty() {
        after == now_ready
    } else {
        emit_step(now_ready, after)
    }
}

/// A change that subscribers are told of.
pub enum Notice {
    /// The signal of that name was added.
    Added(Seq<char>),
    /// The signal of that name received data.
    Changed(Seq<char>),
    /// All data was deleted.
    DeleteAll,
}

/// The pending event `event` with the notice `n` taken in.
pub open spec fn with_notice(event: (Set<Seq<char>>, Set<Seq<char>>, bool), n: Notice) -> (Set<Seq<char>>, Set<Seq<char>>, bool) {
    match n {
        Notice::Added(name) => (event.0.insert(name), event.1, event.2),
        Notice::Changed(name) => (event.0, event.1.insert(name), event.2),
        Notice::DeleteAll => (Set::empty(), Set::empty(), true),
    }
}

/// The subscriber `s` with the notice `n` taken into its pending event.
pub open spec fn noticed(s: SubscriberState, n: Notice) -> SubscriberState {
    SubscriberState { pending: with_notice(s.pending, n), ..s }
}

/// The states `states` are those a subscriber goes through when told of the
/// `notices` one after the other: each notice is taken into the pending
/// event, which is then reported as `emit_step` says.
pub open spec fn steps(states: Seq<SubscriberState>, notices: Seq<Notice>) -> bool {
    &&& states.len() == notices.len() + 1
    &&& forall|i: int| #![trigger notices[i]] 0 <= i < notices.len() ==> emit_step(
        noticed(states[i], notices[i]),
        states[i + 1],
    )
}

/// A subscriber in the state `before`, told of the `notices` one after the
/// other, ends in the state `after`.
pub open spec fn told(before: SubscriberState, notices: Seq<Notice>, after: SubscriberState) -> bool {
    exists|states: Seq<SubscriberState>| {
        &&& #[trigger] steps(states, notices)
        &&& states[0] == before
        &&& states.last() == after
    }
}

/// Being told of nothing changes nothing.
pub proof fn lemma_told_nothing(s: SubscriberState)
    ensures
        told(s, Seq::<Notice>::empty(), s),
{
    let states = seq![s];
    assert(steps(states, Seq::<Notice>::empty()));
}

/// Being told of one notice.
pub proof fn lemma_told_one(before: SubscriberState, n: Notice, after: SubscriberState)
    requires
        emit_step(noticed(before, n), after),
    ensures
        told(before, seq![n], after),
{
    let states = seq![before, after];
    assert(steps(states, seq![n]));
}

/// Being told of some notices, then of some more, is being told of all of
/// them in turn.
pub proof fn lemma_told_concat(
    before: SubscriberState,
    first: Seq<Notice>,
    mid: SubscriberState,
    second: Seq<Notice>,
    after: SubscriberState,
)
    requires
        told(before, first, mid),
        told(mid, second, after),
    ensures
        told(before, first + second, after),
{
    let s1 = choose|states: Seq<SubscriberState>| {
        &&& #[trigger] steps(states, first)
        &&& states[0] == before
        &&& states.last() == mid
    };
    let s2 = choose|states: Seq<SubscriberState>| {
        &&& #[trigger] steps(states, second)
        &&& states[0] == mid
        &&& states.last() == after
    };
    let all = s1 + s2.skip(1);
    let notices = first + second;
    let n1 = first.len() as int;
    assert forall|i: int| #![trigger notices[i]] 0 <= i < notices.len() implies emit_step(
        noticed(all[i], notices[i]),
        all[i + 1],
    ) by {
        if i < n1 {
            assert(notices[i] == first[i]);
            assert(all[i] == s1[i]);
            assert(all[i + 1] == s1[i + 1]);
        } else {
            let j = i - n1;
            assert(notices[i] == second[j]);
            if j == 0 {
                assert(all[i] == s1[n1]);
                assert(s1[n1] == s1.last());
            } else {
                assert(all[i] == s2.skip(1)[j - 1]);
            }
            assert(all[i] == s2[j]);
            assert(all[i + 1] == s2.skip(1)[j]);
            assert(all[i + 1] == s2[j + 1]);
        }
    }
    assert(steps(all, notices));
    assert(all[0] == s1[0]);
    if second.len() == 0 {
        assert(all.last() == s1.last());
        assert(s2.last() == s2[0]);
    } else {
        assert(all.last() == s2.last());
    }
}

/// The events sent up to `before` are still the first ones sent in `after`.
pub open spec fn sent_grows(before: SubscriberState, after: SubscriberState) -> bool {
    &&& before.sent.len() <= after.sent.len()
    &&& after.sent.subrange(0, before.sent.len() as int) == before.sent
}

/// From `before` to `after`, a deletion of all data goes first: the first
/// event sent after `before`, if any, reports the deletion; if none was sent,
/// the deletion is still pending.
pub open spec fn deletion_first(before: SubscriberState, after: SubscriberState) -> bool {
    &&& sent_grows(before, after)
    &&& after.sent.len() == before.sent.len() ==> after.pending.2
    &&& after.sent.len() > before.sent.len() ==> after.sent[before.sent.len() as int].2
}

/// Reporting only ever adds to what was sent.
pub proof fn lemma_emit_grows(before: SubscriberState, after: SubscriberState)
    requires
        emit_step(before, after),
    ensures
        sent_grows(before, after),
{
    assert(before.sent.subrange(0, before.sent.len() as int) =~= before.sent);
    assert(before.sent.push(before.pending).subrange(0, before.sent.len() as int) =~= before.sent);
}

/// Reporting while a deletion is pending reports the deletion first; so does
/// being told of a deletion, or of anything else while one is pending.
pub proof fn lemma_notice_deletion(before: SubscriberState, n: Notice, after: SubscriberState)
    requires
        before.pending.2 || n is DeleteAll,
        emit_step(noticed(before, n), after),
    ensures
        deletion_first(before, after),
{
    let mid = noticed(before, n);
    assert(mid.pending.2);
    lemma_emit_grows(mid, after);
}

/// Polling while a deletion is pending reports the deletion first.
pub proof fn lemma_poll_deletion(before: SubscriberState, after: SubscriberState)
    requires
        before.pending.2,
        poll_step(before, after),
    ensures
        deletion_first(before, after),
{
    let now_ready = SubscriberState { ready: true, ..before };
    assert(before.pending != DataChangeEvent::spec_empty());
    lemma_emit_grows(now_ready, after);
}

/// A deletion that goes first up to `mid` still goes first up to `after`,
/// when it goes first from `mid` on in case nothing was sent up to `mid`.
pub proof fn lemma_deletion_trans(before: SubscriberState, mid: SubscriberState, after: SubscriberState)
    requires
        deletion_first(before, mid),
        sent_grows(mid, after),
        mid.sent.len() == before.sent.len() ==> deletion_first(mid, after),
    ensures
        deletion_first(before, after),
{
    let k = before.sent.len() as int;
    assert(after.sent.subrange(0, k) =~= after.sent.subrange(0, mid.sent.len() as int).subrange(0, k));
    if mid.sent.len() > before.sent.len() {
        assert(after.sent[k] == after.sent.subrange(0, mid.sent.len() as int)[k]);
    }
}

/// Once a deletion of all data is pending, or is the first notice, the
/// first event a subscriber sends after that, whatever else it is told
/// meanwhile, reports the deletion.
pub proof fn lemma_told_deletion(before: SubscriberState, notices: Seq<Notice>, after: SubscriberState)
    requires
        told(before, notices, after),
        before.pending.2 || (notices.len() > 0 && notices[0] is DeleteAll),
    ensures
        deletion_first(before, after),
    decreases notices.len(),
{
    let states = choose|states: Seq<SubscriberState>| {
        &&& #[trigger] steps(states, notices)
        &&& states[0] == before
        &&& states.last() == after
    };
    let n = notices.len() as int;
    if n == 0 {
        assert(after == before);
        assert(before.sent.subrange(0, before.sent.len() as int) =~= before.sent);
    } else {
        let mid = states[n - 1];
        let first = notices.drop_last();
        let ms = states.drop_last();
        assert forall|i: int| #![trigger first[i]] 0 <= i < first.len() implies emit_step(noticed(ms[i], first[i]), ms[i + 1]) by {
            assert(first[i] == notices[i]);
        }
        assert(steps(ms, first));
        assert(ms[0] == before);
        assert(ms.last() == mid);
        assert(told(before, first, mid));
        assert(notices[n - 1] == notices[n - 1]);
        assert(emit_step(noticed(states[n - 1], notices[n - 1]), states[n]));
        assert(states[n] == after);
        lemma_emit_grows(noticed(mid, notices[n - 1]), after);
        if n == 1 {
            lemma_notice_deletion(before, notices[0], after);
        } else {
            assert(first[0] == notices[0]);
            lemma_told_deletion(before, first, mid);
            if mid.sent.len() == before.sent.len() {
                lemma_notice_deletion(mid, notices[n - 1], after);
            }
            lemma_deletion_trans(before, mid, after);
        }
    }
}

/// The pending event `p` with the `notices` taken in, one after the other.
pub open spec fn with_notices(
    p: (Set<Seq<char>>, Set<Seq<char>>, bool),
    notices: Seq<Notice>,
) -> (Set<Seq<char>>, Set<Seq<char>>, bool)
    decreases notices.len(),
{
    if notices.len() == 0 {
        p
    } else {
        with_notice(with_notices(p, notices.drop_last()), notices.last())
    }
}

/// A subscriber that waits for a poll only gathers what it is told: it
/// sends and offers nothing, and its pending event takes in each notice.
pub proof fn lemma_told_waiting(before: SubscriberState, notices: Seq<Notice>, after: SubscriberState)
    requires
        !before.ready,
        told(before, notices, after),
    ensures
        after == (SubscriberState { pending: with_notices(before.pending, notices), ..before }),
{
    let states = choose|states: Seq<SubscriberState>| {
        &&& #[trigger] steps(states, notices)
        &&& states[0] == before
        &&& states.last() == after
    };
    lemma_steps_waiting(before, states, notices, notices.len() as int);
    assert(notices.subrange(0, notices.len() as int) =~= notices);
}

/// The states of a waiting subscriber up to the `k`-th notice.
proof fn lemma_steps_waiting(before: SubscriberState, states: Seq<SubscriberState>, notices: Seq<Notice>, k: int)
    requires
        !before.ready,
        steps(states, notices),
        states[0] == before,
        0 <= k <= notices.len(),
    ensures
        states[k] == (SubscriberState { pending: with_notices(before.pending, notices.subrange(0, k)), ..before }),
    decreases k,
{
    if k == 0 {
        assert(notices.subrange(0, 0) =~= Seq::<Notice>::empty());
    } else {
        lemma_steps_waiting(before, states, notices, k - 1);
        assert(notices[k - 1] == notices[k - 1]);
        assert(emit_step(noticed(states[k - 1], notices[k - 1]), states[k]));
        assert(notices.subrange(0, k).drop_last() =~= notices.subrange(0, k - 1));
        assert(notices.subrange(0, k).last() == notices[k - 1]);
    }
}

/// A receiver of change notifications, that forwards the accumulated changes
/// over a channel whenever it is ready for them.
pub struct ChangeSubscriber {
    channel: mpsc::Sender<DataChangeEvent>,
    event: DataChangeEvent,
    ready: bool,
    offered: Ghost<Seq<(Set<Seq<char>>, Set<Seq<char>>, bool)>>,
}

impl ChangeSubscriber {
    /// The changes not yet delivered.
    pub closed spec fn pending(&self) -> (Set<Seq<char>>, Set<Seq<char>>, bool) {
        self.event@
    }

    /// Whether the next change may be delivered at once.
    pub closed spec fn is_ready(&self) -> bool {
        self.ready
    }

    /// The events delivered over the channel so far.
    pub closed spec fn sent(&self) -> Seq<(Set<Seq<char>>, Set<Seq<char>>, bool)> {
        accepted(self.channel)
    }

    /// What the subscriber holds: its pending event, its readiness and the
    /// events delivered so far.
    pub open spec fn state(&self) -> SubscriberState {
        SubscriberState { pending: self.pending(), ready: self.is_ready(), sent: self.sent(), offered: self.offered() }
    }

    /// The subscriber is well formed.
    pub closed spec fn wf(&self) -> bool {
        self.event.wf()
    }

    /// The events offered to the channel so far, delivered or not.
    pub closed spec fn offered(&self) -> Seq<(Set<Seq<char>>, Set<Seq<char>>, bool)> {
        self.offered@
    }

    /// The channel over which the changes are delivered.
    pub closed spec fn channel(&self) -> mpsc::Sender<DataChangeEvent> {
        self.channel
    }

    pub fn new(channel: mpsc::Sender<DataChangeEvent>) -> (r: Self)
        ensures
            r.wf(),
            r.pending() == DataChangeEvent::spec_empty(),
            !r.is_ready(),
            r.channel() == channel,
            r.sent() == accepted(channel),
            r.offered() == Seq::<(Set<Seq<char>>, Set<Seq<char>>, bool)>::empty(),
    {
        ChangeSubscriber { channel, event: DataChangeEvent::new(), ready: false, offered: Ghost(Seq::empty()) }
    }

    /// Notification of a newly added signal
    pub fn notify_signal_added(&mut self, name: &str)
        requires
            old(self).wf(),
        ensures
            final(self).wf(),
            emit_step(noticed(old(self).state(), Notice::Added(name@)), final(self).state()),
    {
        self.event.add_new_signal(name);
        self.emit_event();
    }

    /// Notification of a change on a data signal
    pub fn notify_signal_changed(&mut self, name: &str)
        requires
            old(self).wf(),
        ensures
            final(self).wf(),
            emit_step(noticed(old(self).state(), Notice::Changed(name@)), final(self).state()),
    {
        self.event.add_changed_signal(name);
        self.emit_event();
    }

    /// Notification that all data was deleted.
    pub fn notify_delete_all(&mut self)
        requires
            old(self).wf(),
        ensures
            final(self).wf(),
            emit_step(noticed(old(self).state(), Notice::DeleteAll), final(self).state()),
    {
        self.event.add_delete_all();
        self.emit_event();
    }

    /// The receiver is ready for more: deliver what is pending, if anything;
    /// otherwise deliver the next change at once.
    pub fn poll_events(&mut self)
        requires
            old(self).wf(),
        ensures
            final(self).wf(),
            poll_step(old(self).state(), final(self).state()),
    {
        self.ready = true;
        if !self.event.is_empty() {
            self.emit_event();
        }
    }

    /// Record the outcome of an attempt to deliver the pending event: a
    /// delivered event is cleared, one that was not is kept for later.
    pub fn record_delivery(&mut self, delivered: bool)
        requires
            old(self).wf(),
        ensures
            final(self).wf(),
            final(self).is_ready() == old(self).is_ready(),
            final(self).sent() == old(self).sent(),
            final(self).channel() == old(self).channel(),
            final(self).offered() == old(self).offered(),
            delivered ==> final(self).pending() == DataChangeEvent::spec_empty(),
            !delivered ==> final(self).pending() == old(self).pending(),
    {
        if delivered {
            self.event = DataChangeEvent::new();
        }
    }

    fn emit_event(&mut self)
        requires
            old(self).wf(),
        ensures
            final(self).wf(),
            emit_step(old(self).state(), final(self).state()),
    {
        if self.ready {
            // Try a single time to emit the event.
            // If this fails, do not try again, since this would invoke
            // the expensive clone on the event.
            // This is safe, since we will call poll again when the queue
            // was processed on the other end.
            self.ready = false;
            if self.event.is_empty() {
                return;
            }
            let delivered = try_send_event(&mut self.channel, self.event.duplicate());
            self.offered = Ghost(self.offered@.push(self.event@));
            self.record_delivery(delivered);
        }
    }
}

} // verus!
