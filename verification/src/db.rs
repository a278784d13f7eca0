//! Time series database which uses B+ trees to store the data.
//!
//! The database keeps one track per signal name. Observations of a signal go
//! to its track; a track of another kind, or one whose last observation is
//! later than the new ones, is first moved aside under a backup name.

use crate::notify::{
    deletion_first, distinct_names, lemma_ready_offers, lemma_told_concat, lemma_told_deletion, lemma_told_nothing,
    lemma_told_one, lemma_told_waiting, name_set, poll_step, told, with_notice, with_notices, DataChangeEvent,
    ChangeSubscriber, Notice, SubscriberState,
};
use crate::observations::metrics::Metrics;
use crate::observations::observation::{are_copies_of, Observation};
use crate::observations::profile::ProfileEvent;
use crate::observations::text::Text;
use crate::query::Query;
use crate::query_result::QueryResult;
use crate::summary::{QuickSummary, Summary};
use crate::time::{TimeSpan, TimeStamp};
use crate::track::{
    lemma_quick_summary_time, quick_summary_of, summary_of, track_query_answers, Track, TrackView,
};
use crate::track_type::{action_for, backup_candidate, backup_name, repeated, trace_action, TraceAction, TrackType};
use vstd::prelude::*;

verus! {

/// A track and the name of its signal.
struct Entry<S, SM> where SM: Metrics<S> + From<S> {
    name: String,
    track: Track<S, SM>,
}

/// The names of the entries, in order.
spec fn names_of<S, SM>(es: Seq<Entry<S, SM>>) -> Seq<String> where SM: Metrics<S> + From<S> {
    es.map_values(|e: Entry<S, SM>| e.name)
}

/// The tracks of the entries, by name.
spec fn tracks_of<S, SM>(es: Seq<Entry<S, SM>>) -> Map<Seq<char>, TrackView<S>> where
    SM: Metrics<S> + From<S>,
    decreases es.len(),
{
    if es.len() == 0 {
        Map::empty()
    } else {
        tracks_of(es.drop_last()).insert(es.last().name@, es.last().track@)
    }
}

/// No two entries have the same name.
spec fn distinct_entries<S, SM>(es: Seq<Entry<S, SM>>) -> bool where SM: Metrics<S> + From<S> {
    forall|i: int, j: int| 0 <= i < j < es.len() ==> (#[trigger] es[i]).name@ != (#[trigger] es[j]).name@
}

/// The names of the entries are those of the tracks.
proof fn lemma_tracks_dom<S, SM>(es: Seq<Entry<S, SM>>) where SM: Metrics<S> + From<S>
    ensures
        tracks_of(es).dom() == name_set(names_of(es)),
    decreases es.len(),
{
    if es.len() > 0 {
        let d = es.drop_last();
        lemma_tracks_dom(d);
        assert forall|s: Seq<char>| tracks_of(es).dom().contains(s) <==> name_set(names_of(es)).contains(s) by {
            if tracks_of(es).dom().contains(s) {
                if s == es.last().name@ {
                    assert(names_of(es)[es.len() - 1]@ == s);
                } else {
                    let i = choose|i: int| 0 <= i < names_of(d).len() && names_of(d)[i]@ == s;
                    assert(names_of(es)[i] == names_of(d)[i]);
                }
            }
            if name_set(names_of(es)).contains(s) {
                let i = choose|i: int| 0 <= i < names_of(es).len() && names_of(es)[i]@ == s;
                if i < d.len() {
                    assert(names_of(d)[i] == names_of(es)[i]);
                    assert(name_set(names_of(d)).contains(s));
                }
            }
        }
        assert(tracks_of(es).dom() =~= name_set(names_of(es)));
    } else {
        assert(name_set(names_of(es)) =~= Set::<Seq<char>>::empty());
    }
}

/// The track of an entry is the track of its name.
proof fn lemma_tracks_lookup<S, SM>(es: Seq<Entry<S, SM>>, i: int) where SM: Metrics<S> + From<S>
    requires
        distinct_entries(es),
        0 <= i < es.len(),
    ensures
        tracks_of(es).contains_key(es[i].name@),
        tracks_of(es)[es[i].name@] == es[i].track@,
    decreases es.len(),
{
    let d = es.drop_last();
    if i < es.len() - 1 {
        assert(d[i] == es[i]);
        assert(distinct_entries(d)) by {
            assert forall|a: int, b: int| 0 <= a < b < d.len() implies (#[trigger] d[a]).name@ != (#[trigger] d[b]).name@ by {
                assert(d[a] == es[a] && d[b] == es[b]);
            }
        }
        lemma_tracks_lookup(d, i);
        assert(es[i].name@ != es[es.len() - 1].name@);
    }
}

/// Without the entries' names, the tracks are empty.
proof fn lemma_tracks_absent<S, SM>(es: Seq<Entry<S, SM>>, s: Seq<char>) where SM: Metrics<S> + From<S>
    requires
        forall|i: int| 0 <= i < es.len() ==> (#[trigger] es[i]).name@ != s,
    ensures
        !tracks_of(es).contains_key(s),
    decreases es.len(),
{
    if es.len() > 0 {
        let d = es.drop_last();
        assert forall|i: int| 0 <= i < d.len() implies (#[trigger] d[i]).name@ != s by {
            assert(d[i] == es[i]);
        }
        lemma_tracks_absent(d, s);
        assert(es[es.len() - 1] == es.last());
    }
}

/// Replacing an entry by one whose name no other entry has replaces its
/// track, under the new name.
proof fn lemma_tracks_update<S, SM>(es: Seq<Entry<S, SM>>, i: int, e: Entry<S, SM>) where
    SM: Metrics<S> + From<S>,

    requires
        distinct_entries(es),
        0 <= i < es.len(),
        forall|j: int| 0 <= j < es.len() && j != i ==> (#[trigger] es[j]).name@ != e.name@,
    ensures
        tracks_of(es.update(i, e)) == tracks_of(es).remove(es[i].name@).insert(e.name@, e.track@),
    decreases es.len(),
{
    let d = es.drop_last();
    let n = es.len() - 1;
    let u = es.update(i, e);
    assert(distinct_entries(d)) by {
        assert forall|a: int, b: int| 0 <= a < b < d.len() implies (#[trigger] d[a]).name@ != (#[trigger] d[b]).name@ by {
            assert(d[a] == es[a] && d[b] == es[b]);
        }
    }
    if i == n {
        assert(u.drop_last() =~= d);
        assert(u.last() == e);
        assert forall|j: int| 0 <= j < d.len() implies (#[trigger] d[j]).name@ != es[i].name@ by {
            assert(d[j] == es[j]);
        }
        lemma_tracks_absent(d, es[i].name@);
        assert(tracks_of(es).remove(es[i].name@) =~= tracks_of(d));
        assert(tracks_of(u) =~= tracks_of(es).remove(es[i].name@).insert(e.name@, e.track@));
    } else {
        assert(u.drop_last() =~= d.update(i, e));
        assert(u.last() == es.last());
        assert(d[i] == es[i]);
        assert forall|j: int| 0 <= j < d.len() && j != i implies (#[trigger] d[j]).name@ != e.name@ by {
            assert(d[j] == es[j]);
        }
        lemma_tracks_update(d, i, e);
        assert(es.last().name@ != es[i].name@);
        assert(es.last().name@ != e.name@);
        assert(tracks_of(u) =~= tracks_of(es).remove(es[i].name@).insert(e.name@, e.track@));
    }
}

/// Removing an entry removes its track.
proof fn lemma_tracks_remove<S, SM>(es: Seq<Entry<S, SM>>, i: int) where SM: Metrics<S> + From<S>
    requires
        distinct_entries(es),
        0 <= i < es.len(),
    ensures
        tracks_of(es.remove(i)) == tracks_of(es).remove(es[i].name@),
        distinct_entries(es.remove(i)),
    decreases es.len(),
{
    let d = es.drop_last();
    let n = es.len() - 1;
    let r = es.remove(i);
    assert(distinct_entries(d)) by {
        assert forall|a: int, b: int| 0 <= a < b < d.len() implies (#[trigger] d[a]).name@ != (#[trigger] d[b]).name@ by {
            assert(d[a] == es[a] && d[b] == es[b]);
        }
    }
    assert(distinct_entries(r)) by {
        assert forall|a: int, b: int| 0 <= a < b < r.len() implies (#[trigger] r[a]).name@ != (#[trigger] r[b]).name@ by {
            let a2 = if a < i { a } else { a + 1 };
            let b2 = if b < i { b } else { b + 1 };
            assert(r[a] == es[a2] && r[b] == es[b2]);
        }
    }
    if i == n {
        assert(r =~= d);
        assert forall|j: int| 0 <= j < d.len() implies (#[trigger] d[j]).name@ != es[i].name@ by {
            assert(d[j] == es[j]);
        }
        lemma_tracks_absent(d, es[i].name@);
        assert(tracks_of(es).remove(es[i].name@) =~= tracks_of(d));
    } else {
        assert(r.drop_last() =~= d.remove(i));
        assert(r.last() == es.last());
        assert(d[i] == es[i]);
        lemma_tracks_remove(d, i);
        assert(es.last().name@ != es[i].name@);
        assert(tracks_of(r) =~= tracks_of(es).remove(es[i].name@));
    }
}

/// Replacing the track of an entry keeps the names apart and replaces the
/// track of its name.
proof fn lemma_replace_track<S, SM>(es: Seq<Entry<S, SM>>, i: int, e: Entry<S, SM>) where
    SM: Metrics<S> + From<S>,

    requires
        distinct_entries(es),
        0 <= i < es.len(),
        e.name@ == es[i].name@,
    ensures
        tracks_of(es.update(i, e)) == tracks_of(es).insert(e.name@, e.track@),
        distinct_entries(es.update(i, e)),
{
    let u = es.update(i, e);
    assert forall|j: int| 0 <= j < es.len() && j != i implies (#[trigger] es[j]).name@ != e.name@ by {
        if j < i {
            assert(es[j].name@ != es[i].name@);
        } else {
            assert(es[i].name@ != es[j].name@);
        }
    }
    lemma_tracks_update(es, i, e);
    assert(tracks_of(es).remove(es[i].name@).insert(e.name@, e.track@) =~= tracks_of(es).insert(e.name@, e.track@));
    assert forall|a: int, b: int| 0 <= a < b < u.len() implies (#[trigger] u[a]).name@ != (#[trigger] u[b]).name@ by {
        assert(es[a].name@ != es[b].name@);
    }
}

/// Where observations of kind `typ` that begin at `first` go, when added
/// under `name` to the tracks `before`.
pub open spec fn prepare_action<S>(
    before: Map<Seq<char>, TrackView<S>>,
    name: Seq<char>,
    typ: TrackType,
    first: TimeStamp,
) -> TraceAction {
    let existing = if before.contains_key(name) { Some(before[name].track_type()) } else { None };
    let last = if before.contains_key(name) { before[name].last_timestamp() } else { None };
    action_for(existing, last, typ, first)
}

/// `c` is a decimal digit.
pub open spec fn is_digit(c: char) -> bool {
    '0' <= c && c <= '9'
}

/// `s` is a date and time as `%Y%m%d_%H%M%S` writes it: the year (four
/// digits, or a sign and at least four digits), then month 01 to 12, day 01
/// to 31, `_`, hour 00 to 23, minute 00 to 59 and second 00 to 60.
pub open spec fn is_time_marker(s: Seq<char>) -> bool {
    let n = s.len() as int;
    let y = s.subrange(0, n - 11);
    &&& n >= 15
    &&& {
        ||| y.len() == 4 && forall|i: int| 0 <= i < 4 ==> is_digit(#[trigger] y[i])
        ||| y.len() >= 5 && (y[0] == '+' || y[0] == '-') && forall|i: int| 1 <= i < y.len() ==> is_digit(#[trigger] y[i])
    }
    &&& (s[n - 11] == '0' && '1' <= s[n - 10] && s[n - 10] <= '9') || (s[n - 11] == '1' && '0' <= s[n - 10]
        && s[n - 10] <= '2')
    &&& (s[n - 9] == '0' && '1' <= s[n - 8] && s[n - 8] <= '9') || ((s[n - 9] == '1' || s[n - 9] == '2')
        && is_digit(s[n - 8])) || (s[n - 9] == '3' && '0' <= s[n - 8] && s[n - 8] <= '1')
    &&& s[n - 7] == '_'
    &&& ((s[n - 6] == '0' || s[n - 6] == '1') && is_digit(s[n - 5])) || (s[n - 6] == '2' && '0' <= s[n - 5]
        && s[n - 5] <= '3')
    &&& '0' <= s[n - 4] && s[n - 4] <= '5' && is_digit(s[n - 3])
    &&& ('0' <= s[n - 2] && s[n - 2] <= '5' && is_digit(s[n - 1])) || (s[n - 2] == '6' && s[n - 1] == '0')
}

/// `b` is a name under which the track `name` can be kept when it is moved
/// aside, among the names `others` of the other tracks: the first free
/// candidate name for a date and time marker.
pub open spec fn is_backup_name(others: Set<Seq<char>>, name: Seq<char>, b: Seq<char>) -> bool {
    exists|marker: Seq<char>, k: nat| {
        &&& is_time_marker(marker)
        &&& b == backup_candidate(name, marker, k)
        &&& !others.contains(b)
        &&& forall|j: nat| j < k ==> others.contains(#[trigger] backup_candidate(name, marker, j))
    }
}

/// A track moved aside is kept under its own name, `_BACKUP_` and the date
/// and time of the move, then as many `_a` as it takes to find a name that no
/// other track has; the name is then free.
pub proof fn lemma_backup_name_form(others: Set<Seq<char>>, name: Seq<char>, b: Seq<char>)
    requires
        is_backup_name(others, name, b),
    ensures
        !others.contains(b),
        exists|marker: Seq<char>, k: nat|
            #![trigger is_time_marker(marker), repeated("_a"@, k)]
            {
                &&& is_time_marker(marker)
                &&& b == name + "_BACKUP_"@ + marker + repeated("_a"@, k)
            },
{
    let (marker, k) = choose|marker: Seq<char>, k: nat| {
        &&& is_time_marker(marker)
        &&& b == backup_candidate(name, marker, k)
        &&& !others.contains(b)
        &&& forall|j: nat| j < k ==> others.contains(#[trigger] backup_candidate(name, marker, j))
    };
    assert(is_time_marker(marker) && b == name + "_BACKUP_"@ + marker + repeated("_a"@, k));
}

/// The tracks `after` are the tracks `before` once room is made under `name`
/// for observations of kind `typ` that begin at `first` (see
/// `prepare_action`): the existing track is kept; or a new empty track is
/// started, after moving the existing one aside under the name `backup`.
pub open spec fn prepared<S>(
    before: Map<Seq<char>, TrackView<S>>,
    after: Map<Seq<char>, TrackView<S>>,
    name: Seq<char>,
    typ: TrackType,
    first: TimeStamp,
    backup: Seq<char>,
) -> bool {
    match prepare_action(before, name, typ, first) {
        TraceAction::Append => after == before,
        TraceAction::Create => after == before.insert(name, TrackView::empty_of(typ)),
        TraceAction::BackupAndCreate => {
            &&& is_backup_name(before.remove(name).dom(), name, backup)
            &&& after == before.remove(name).insert(backup, before[name]).insert(name, TrackView::empty_of(typ))
        },
    }
}

/// What subscribers are told while room is made under `name`: that a new
/// signal was added, or that the backup `backup` was added and filled.
pub open spec fn prepare_notices<S>(
    before: Map<Seq<char>, TrackView<S>>,
    name: Seq<char>,
    typ: TrackType,
    first: TimeStamp,
    backup: Seq<char>,
) -> Seq<Notice> {
    match prepare_action(before, name, typ, first) {
        TraceAction::Append => Seq::empty(),
        TraceAction::Create => seq![Notice::Added(name)],
        TraceAction::BackupAndCreate => seq![Notice::Added(backup), Notice::Changed(backup)],
    }
}

/// Each subscriber of `before`, told of the `notices` in turn, ends as the
/// subscriber in the same place of `after`.
pub open spec fn all_told(before: Seq<ChangeSubscriber>, notices: Seq<Notice>, after: Seq<ChangeSubscriber>) -> bool {
    &&& after.len() == before.len()
    &&& forall|k: int| 0 <= k < before.len() ==> told(before[k].state(), notices, (#[trigger] after[k]).state())
}

/// What a new subscriber is told of the signals `names`, one after the
/// other: that each was added and that it holds data.
pub open spec fn announcements(names: Seq<Seq<char>>) -> Seq<Notice>
    decreases names.len(),
{
    if names.len() == 0 {
        Seq::empty()
    } else {
        announcements(names.drop_last()) + seq![Notice::Added(names.last()), Notice::Changed(names.last())]
    }
}

/// Announcing the signals `names` to a subscriber with nothing pending
/// leaves pending one event that names them all as new and as changed.
proof fn lemma_announced(names: Seq<Seq<char>>)
    ensures
        with_notices(DataChangeEvent::spec_empty(), announcements(names)) == (names.to_set(), names.to_set(), false),
    decreases names.len(),
{
    if names.len() == 0 {
        assert(names.to_set() =~= Set::<Seq<char>>::empty());
        assert(announcements(names) =~= Seq::<Notice>::empty());
    } else {
        let d = names.drop_last();
        let l = names.last();
        lemma_announced(d);
        let a = announcements(d);
        let both = a + seq![Notice::Added(l), Notice::Changed(l)];
        assert(both.drop_last() =~= a.push(Notice::Added(l)));
        assert(both.last() == Notice::Changed(l));
        assert(a.push(Notice::Added(l)).drop_last() =~= a);
        assert(a.push(Notice::Added(l)).last() == Notice::Added(l));
        assert(names =~= d.push(l));
        assert(names.to_set() =~= d.to_set().insert(l)) by {
            assert forall|x: Seq<char>| names.to_set().contains(x) <==> d.to_set().insert(l).contains(x) by {
                if names.contains(x) && x != l {
                    let i = choose|i: int| 0 <= i < names.len() && names[i] == x;
                    assert(d[i] == x);
                }
                if d.contains(x) {
                    let i = choose|i: int| 0 <= i < d.len() && d[i] == x;
                    assert(names[i] == x);
                }
                assert(names[names.len() - 1] == l);
            }
        }
        let p = DataChangeEvent::spec_empty();
        let e0 = with_notices(p, a);
        assert(with_notices(p, a.push(Notice::Added(l))) == with_notice(e0, Notice::Added(l)));
        assert(with_notices(p, both) == with_notice(with_notices(p, a.push(Notice::Added(l))), Notice::Changed(l)));
        assert(announcements(names) == both);
    }
}

/// A subscriber registered while it waits, with nothing pending, learns of
/// every signal of the database at once: at the poll that registration
/// makes, it offers one event that names them all as new and as changed,
/// which the channel takes, or refuses and it stays pending.
pub proof fn lemma_registration_announces(
    before: SubscriberState,
    names: Seq<Seq<char>>,
    told_state: SubscriberState,
    polled: SubscriberState,
)
    requires
        !before.ready,
        before.pending == DataChangeEvent::spec_empty(),
        names.len() > 0,
        told(before, announcements(names), told_state),
        poll_step(told_state, polled),
    ensures
        polled.offered == before.offered.push((names.to_set(), names.to_set(), false)),
        (polled.sent == before.sent.push((names.to_set(), names.to_set(), false))
            && polled.pending == DataChangeEvent::spec_empty())
            || (polled.sent == before.sent && polled.pending == (names.to_set(), names.to_set(), false)),
{
    lemma_told_waiting(before, announcements(names), told_state);
    lemma_announced(names);
    let e = (names.to_set(), names.to_set(), false);
    assert(names.to_set().contains(names[0]));
    assert(e != DataChangeEvent::spec_empty());
    let now_ready = SubscriberState { ready: true, ..told_state };
    lemma_ready_offers(now_ready, polled);
    assert(polled.offered =~= before.offered.push(e));
    if polled.sent.len() == before.sent.len() + 1 {
        assert(polled.sent =~= before.sent.push(e));
    }
}

/// Subscribers told of nothing stay as they are.
proof fn lemma_all_told_nothing(subs: Seq<ChangeSubscriber>)
    ensures
        all_told(subs, Seq::<Notice>::empty(), subs),
{
    assert forall|k: int| 0 <= k < subs.len() implies told(subs[k].state(), Seq::<Notice>::empty(), (#[trigger] subs[k]).state()) by {
        lemma_told_nothing(subs[k].state());
    }
}

/// Subscribers told of some notices, then of some more.
proof fn lemma_all_told_concat(
    a: Seq<ChangeSubscriber>,
    first: Seq<Notice>,
    b: Seq<ChangeSubscriber>,
    second: Seq<Notice>,
    c: Seq<ChangeSubscriber>,
)
    requires
        all_told(a, first, b),
        all_told(b, second, c),
    ensures
        all_told(a, first + second, c),
{
    assert forall|k: int| 0 <= k < a.len() implies told(a[k].state(), first + second, (#[trigger] c[k]).state()) by {
        assert(told(a[k].state(), first, b[k].state()));
        assert(told(b[k].state(), second, c[k].state()));
        lemma_told_concat(a[k].state(), first, b[k].state(), second, c[k].state());
    }
}

/// Once room is made under `name`, its track has the requested kind, and is
/// either empty or the track that was there.
pub proof fn lemma_prepared_track<S>(
    before: Map<Seq<char>, TrackView<S>>,
    after: Map<Seq<char>, TrackView<S>>,
    name: Seq<char>,
    typ: TrackType,
    first: TimeStamp,
    backup: Seq<char>,
)
    requires
        prepared(before, after, name, typ, first, backup),
    ensures
        after.contains_key(name),
        after[name].track_type() == typ,
        after[name].spec_len() == 0 || (before.contains_key(name) && after[name] == before[name]),
{
}

/// Making room under a name loses no data: every other track stays as it
/// was, and the track that was under the name is kept, under that name or
/// under a backup name that was free.
pub proof fn lemma_prepared_keeps_tracks<S>(
    before: Map<Seq<char>, TrackView<S>>,
    after: Map<Seq<char>, TrackView<S>>,
    name: Seq<char>,
    typ: TrackType,
    first: TimeStamp,
    backup: Seq<char>,
)
    requires
        prepared(before, after, name, typ, first, backup),
    ensures
        forall|n: Seq<char>| #[trigger] before.contains_key(n) && n != name ==> after.contains_key(n) && after[n] == before[n],
        before.contains_key(name) ==> {
            ||| after[name] == before[name]
            ||| {
                &&& backup != name
                &&& !before.contains_key(backup)
                &&& after.contains_key(backup)
                &&& after[backup] == before[name]
            }
        },
{
    if prepare_action(before, name, typ, first) == TraceAction::BackupAndCreate {
        let (marker, k) = choose|marker: Seq<char>, k: nat| {
            &&& backup == backup_candidate(name, marker, k)
            &&& !before.remove(name).dom().contains(backup)
            &&& forall|j: nat| j < k ==> before.remove(name).dom().contains(#[trigger] backup_candidate(name, marker, j))
        };
        reveal_strlit("_BACKUP_");
        assert(backup.len() > name.len());
        assert(after.contains_key(backup));
    }
}

/// The local time now, written as year, month, day, `_`, hour, minute and
/// second (`%Y%m%d_%H%M%S`), by `chrono::offset::Local::now` and
/// `chrono::DateTime::format`.
///
/// Which time it gives depends on the clock, so only its form is promised:
/// chrono writes the year with four digits (a sign and at least four digits
/// outside the years 0 to 9999), and every other field with two digits, the
/// month from 01, the day from 01, the second up to 60 for a leap second.
#[verifier::external_body]
fn backup_marker() -> (marker: String)
    ensures
        is_time_marker(marker@),
{
    chrono::offset::Local::now().format("%Y%m%d_%H%M%S").to_string()
}

/// A time series database which can be used as a library.
/// Note that this struct is not usable in multiple threads.
/// To share it between threads, put it behind a lock.
pub struct TsDb<S, SM> where SM: Metrics<S> + From<S> {
    entries: Vec<Entry<S, SM>>,
    change_subscribers: Vec<ChangeSubscriber>,
}

impl<S, SM> View for TsDb<S, SM> where SM: Metrics<S> + From<S> {
    type V = Map<Seq<char>, TrackView<S>>;

    /// The track of each signal, by name.
    closed spec fn view(&self) -> Map<Seq<char>, TrackView<S>> {
        tracks_of(self.entries@)
    }
}

impl<S, SM> TsDb<S, SM> where S: Clone, SM: Metrics<S> + From<S> + Clone {
    /// The track kept under `name`.
    pub closed spec fn track(&self, name: Seq<char>) -> Track<S, SM> {
        self.entries@[choose|i: int| 0 <= i < self.entries@.len() && (#[trigger] self.entries@[i]).name@ == name].track
    }

    /// The track of the `i`-th entry is the one kept under its name.
    proof fn lemma_track_at(&self, i: int)
        requires
            self.wf(),
            0 <= i < self.entries@.len(),
        ensures
            self.track(self.entries@[i].name@) == self.entries@[i].track,
    {
        let name = self.entries@[i].name@;
        let j = choose|j: int| 0 <= j < self.entries@.len() && (#[trigger] self.entries@[j]).name@ == name;
        if j != i {
            assert(distinct_entries(self.entries@));
        }
    }

    /// The database is well formed: one well formed track per name, and
    /// well formed subscribers.
    pub closed spec fn wf(&self) -> bool {
        &&& distinct_entries(self.entries@)
        &&& forall|i: int| 0 <= i < self.entries@.len() ==> (#[trigger] self.entries@[i]).track.wf()
        &&& forall|k: int| 0 <= k < self.change_subscribers@.len() ==> (#[trigger] self.change_subscribers@[k]).wf()
    }

    /// The number of registered change subscribers.
    pub closed spec fn subscriber_count(&self) -> nat {
        self.change_subscribers@.len()
    }

    /// The registered change subscribers, in order.
    pub closed spec fn subscribers(&self) -> Seq<ChangeSubscriber> {
        self.change_subscribers@
    }

    /// An empty database.
    pub fn new() -> (r: Self)
        ensures
            r.wf(),
            r@ == Map::<Seq<char>, TrackView<S>>::empty(),
            r.subscriber_count() == 0,
    {
        TsDb { entries: Vec::new(), change_subscribers: Vec::new() }
    }

    /// The index of the entry of the signal `name`, if there is one.
    fn find(&self, name: &str) -> (r: Option<usize>)
        requires
            self.wf(),
        ensures
            r is None <==> !self@.contains_key(name@),
            r matches Some(i) ==> i < self.entries@.len() && self.entries@[i as int].name@ == name@,
    {
        let owned = name.to_owned();
        let mut i: usize = 0;
        while i < self.entries.len()
            invariant
                self.wf(),
                owned@ == name@,
                0 <= i <= self.entries@.len(),
                forall|k: int| 0 <= k < i ==> (#[trigger] self.entries@[k]).name@ != name@,
            decreases self.entries@.len() - i,
        {
            if self.entries[i].name == owned {
                proof {
                    lemma_tracks_lookup(self.entries@, i as int);
                }
                return Some(i);
            }
            i = i + 1;
        }
        proof {
            lemma_tracks_absent(self.entries@, name@);
        }
        None
    }

    /// The names of all signals, in no particular order.
    pub fn get_signal_names(&self) -> (r: Vec<String>)
        requires
            self.wf(),
        ensures
            name_set(r@) == self@.dom(),
            distinct_names(r@),
    {
        let mut names: Vec<String> = Vec::new();
        let mut i: usize = 0;
        while i < self.entries.len()
            invariant
                0 <= i <= self.entries@.len(),
                names@ == names_of(self.entries@).take(i as int),
            decreases self.entries@.len() - i,
        {
            names.push(self.entries[i].name.clone());
            assert(names@ =~= names_of(self.entries@).take(i + 1));
            i = i + 1;
        }
        proof {
            assert(names@ =~= names_of(self.entries@));
            lemma_tracks_dom(self.entries@);
            assert forall|a: int, b: int| 0 <= a < b < names@.len() implies names@[a]@ != names@[b]@ by {
                assert(self.entries@[a].name@ != self.entries@[b].name@);
            }
        }
        names
    }
}

impl<S, SM> TsDb<S, SM> where S: Clone, SM: Metrics<S> + From<S> + Clone {
    /// The names of all entries but the `i`-th.
    fn names_except(&self, i: usize) -> (r: Vec<String>)
        requires
            self.wf(),
            i < self.entries@.len(),
        ensures
            name_set(r@) == self@.dom().remove(self.entries@[i as int].name@),
    {
        let ghost es = self.entries@;
        let mut names: Vec<String> = Vec::new();
        let mut j: usize = 0;
        while j < self.entries.len()
            invariant
                es == self.entries@,
                0 <= j <= es.len(),
                i < es.len(),
                forall|s: Seq<char>| name_set(names@).contains(s) <==> exists|k: int|
                    0 <= k < j && k != i && (#[trigger] es[k]).name@ == s,
            decreases es.len() - j,
        {
            if j != i {
                let ghost before = names@;
                names.push(self.entries[j].name.clone());
                proof {
                    assert forall|s: Seq<char>| name_set(names@).contains(s) <==> exists|k: int|
                        0 <= k < j + 1 && k != i && (#[trigger] es[k]).name@ == s by {
                        if name_set(names@).contains(s) {
                            let m = choose|m: int| 0 <= m < names@.len() && names@[m]@ == s;
                            if m < before.len() {
                                assert(name_set(before).contains(s));
                            } else {
                                assert(es[j as int].name@ == s);
                            }
                        }
                        if exists|k: int| 0 <= k < j + 1 && k != i && (#[trigger] es[k]).name@ == s {
                            let k = choose|k: int| 0 <= k < j + 1 && k != i && (#[trigger] es[k]).name@ == s;
                            if k < j {
                                assert(exists|k2: int| 0 <= k2 < j && k2 != i && (#[trigger] es[k2]).name@ == s);
                                assert(name_set(before).contains(s));
                                let m = choose|m: int| 0 <= m < before.len() && before[m]@ == s;
                                assert(names@[m] == before[m]);
                            } else {
                                assert(names@[before.len() as int]@ == s);
                            }
                        }
                    }
                }
            }
            j = j + 1;
        }
        proof {
            lemma_tracks_dom(es);
            let nm = es[i as int].name@;
            assert forall|s: Seq<char>| name_set(names@).contains(s) <==> self@.dom().remove(nm).contains(s) by {
                if name_set(names@).contains(s) {
                    let k = choose|k: int| 0 <= k < j && k != i && (#[trigger] es[k]).name@ == s;
                    assert(names_of(es)[k]@ == s);
                    if k < i {
                        assert(es[k].name@ != es[i as int].name@);
                    } else {
                        assert(es[i as int].name@ != es[k].name@);
                    }
                }
                if self@.dom().remove(nm).contains(s) {
                    assert(name_set(names_of(es)).contains(s));
                    let k = choose|k: int| 0 <= k < names_of(es).len() && names_of(es)[k]@ == s;
                    assert(es[k].name@ == s);
                }
            }
            assert(name_set(names@) =~= self@.dom().remove(nm));
        }
        names
    }

    /// Tell every subscriber that the signal `name` was added.
    fn notify_signal_added(&mut self, name: &str)
        requires
            old(self).wf(),
        ensures
            final(self).wf(),
            final(self).entries@ == old(self).entries@,
            all_told(old(self).change_subscribers@, seq![Notice::Added(name@)], final(self).change_subscribers@),
    {
        let mut k: usize = 0;
        while k < self.change_subscribers.len()
            invariant
                self.wf(),
                self.entries@ == old(self).entries@,
                self.change_subscribers@.len() == old(self).change_subscribers@.len(),
                0 <= k <= self.change_subscribers@.len(),
                forall|j: int| 0 <= j < k ==> told(
                    old(self).change_subscribers@[j].state(),
                    seq![Notice::Added(name@)],
                    (#[trigger] self.change_subscribers@[j]).state(),
                ),
                forall|j: int| k <= j < self.change_subscribers@.len() ==> self.change_subscribers@[j]
                    == old(self).change_subscribers@[j],
            decreases self.change_subscribers@.len() - k,
        {
            let ghost before = self.change_subscribers@;
            let mut subscriber = self.change_subscribers.remove(k);
            subscriber.notify_signal_added(name);
            self.change_subscribers.insert(k, subscriber);
            proof {
                let o = old(self).change_subscribers@[k as int];
                let n = self.change_subscribers@[k as int];
                lemma_told_one(o.state(), Notice::Added(name@), n.state());
                assert forall|j: int| 0 <= j < k + 1 implies told(
                    old(self).change_subscribers@[j].state(),
                    seq![Notice::Added(name@)],
                    (#[trigger] self.change_subscribers@[j]).state(),
                ) by {
                    if j < k {
                        assert(self.change_subscribers@[j] == before[j]);
                    }
                }
                assert forall|j: int| k + 1 <= j < self.change_subscribers@.len() implies self.change_subscribers@[j]
                    == old(self).change_subscribers@[j] by {
                    assert(self.change_subscribers@[j] == before[j]);
                }
            }
            k = k + 1;
        }
    }

    /// Tell every subscriber that the signal `name` changed.
    fn notify_signal_changed(&mut self, name: &str)
        requires
            old(self).wf(),
        ensures
            final(self).wf(),
            final(self).entries@ == old(self).entries@,
            all_told(old(self).change_subscribers@, seq![Notice::Changed(name@)], final(self).change_subscribers@),
    {
        let mut k: usize = 0;
        while k < self.change_subscribers.len()
            invariant
                self.wf(),
                self.entries@ == old(self).entries@,
                self.change_subscribers@.len() == old(self).change_subscribers@.len(),
                0 <= k <= self.change_subscribers@.len(),
                forall|j: int| 0 <= j < k ==> told(
                    old(self).change_subscribers@[j].state(),
                    seq![Notice::Changed(name@)],
                    (#[trigger] self.change_subscribers@[j]).state(),
                ),
                forall|j: int| k <= j < self.change_subscribers@.len() ==> self.change_subscribers@[j]
                    == old(self).change_subscribers@[j],
            decreases self.change_subscribers@.len() - k,
        {
            let ghost before = self.change_subscribers@;
            let mut subscriber = self.change_subscribers.remove(k);
            subscriber.notify_signal_changed(name);
            self.change_subscribers.insert(k, subscriber);
            proof {
                let o = old(self).change_subscribers@[k as int];
                let n = self.change_subscribers@[k as int];
                lemma_told_one(o.state(), Notice::Changed(name@), n.state());
                assert forall|j: int| 0 <= j < k + 1 implies told(
                    old(self).change_subscribers@[j].state(),
                    seq![Notice::Changed(name@)],
                    (#[trigger] self.change_subscribers@[j]).state(),
                ) by {
                    if j < k {
                        assert(self.change_subscribers@[j] == before[j]);
                    }
                }
                assert forall|j: int| k + 1 <= j < self.change_subscribers@.len() implies self.change_subscribers@[j]
                    == old(self).change_subscribers@[j] by {
                    assert(self.change_subscribers@[j] == before[j]);
                }
            }
            k = k + 1;
        }
    }

    /// Tell every subscriber that all data was deleted.
    fn notify_delete_all(&mut self)
        requires
            old(self).wf(),
        ensures
            final(self).wf(),
            final(self).entries@ == old(self).entries@,
            all_told(old(self).change_subscribers@, seq![Notice::DeleteAll], final(self).change_subscribers@),
    {
        let mut k: usize = 0;
        while k < self.change_subscribers.len()
            invariant
                self.wf(),
                self.entries@ == old(self).entries@,
                self.change_subscribers@.len() == old(self).change_subscribers@.len(),
                0 <= k <= self.change_subscribers@.len(),
                forall|j: int| 0 <= j < k ==> told(
                    old(self).change_subscribers@[j].state(),
                    seq![Notice::DeleteAll],
                    (#[trigger] self.change_subscribers@[j]).state(),
                ),
                forall|j: int| k <= j < self.change_subscribers@.len() ==> self.change_subscribers@[j]
                    == old(self).change_subscribers@[j],
            decreases self.change_subscribers@.len() - k,
        {
            let ghost before = self.change_subscribers@;
            let mut subscriber = self.change_subscribers.remove(k);
            subscriber.notify_delete_all();
            self.change_subscribers.insert(k, subscriber);
            proof {
                let o = old(self).change_subscribers@[k as int];
                let n = self.change_subscribers@[k as int];
                lemma_told_one(o.state(), Notice::DeleteAll, n.state());
                assert forall|j: int| 0 <= j < k + 1 implies told(
                    old(self).change_subscribers@[j].state(),
                    seq![Notice::DeleteAll],
                    (#[trigger] self.change_subscribers@[j]).state(),
                ) by {
                    if j < k {
                        assert(self.change_subscribers@[j] == before[j]);
                    }
                }
                assert forall|j: int| k + 1 <= j < self.change_subscribers@.len() implies self.change_subscribers@[j]
                    == old(self).change_subscribers@[j] by {
                    assert(self.change_subscribers@[j] == before[j]);
                }
            }
            k = k + 1;
        }
    }

    /// Start an empty track of kind `typ` under the new name `name`; its
    /// entry is the last one.
    fn new_trace(&mut self, name: &str, typ: TrackType) -> (r: usize)
        requires
            old(self).wf(),
            !old(self)@.contains_key(name@),
        ensures
            final(self).wf(),
            final(self)@ == old(self)@.insert(name@, TrackView::<S>::empty_of(typ)),
            r == old(self).entries@.len(),
            r < final(self).entries@.len(),
            final(self).entries@[r as int].name@ == name@,
            final(self).change_subscribers@ == old(self).change_subscribers@,
    {
        let track = Track::new_with_type(typ);
        let r: usize = self.entries.len();
        proof {
            lemma_tracks_dom(self.entries@);
            assert forall|j: int| 0 <= j < self.entries@.len() implies (#[trigger] self.entries@[j]).name@ != name@ by {
                assert(names_of(self.entries@)[j]@ == self.entries@[j].name@);
            }
        }
        let ghost before = self.entries@;
        self.entries.push(Entry { name: name.to_owned(), track });
        proof {
            assert(self.entries@.drop_last() =~= before);
            assert forall|a: int, b: int| 0 <= a < b < self.entries@.len() implies
                (#[trigger] self.entries@[a]).name@ != (#[trigger] self.entries@[b]).name@ by {
                if b < before.len() {
                    assert(before[a] == self.entries@[a] && before[b] == self.entries@[b]);
                } else {
                    assert(before[a] == self.entries@[a]);
                }
            }
        }
        r
    }

    /// Move the track of the `i`-th entry aside under a backup name, and give
    /// that name.
    fn backup_track(&mut self, i: usize) -> (b: String)
        requires
            old(self).wf(),
            i < old(self).entries@.len(),
        ensures
            final(self).wf(),
            final(self).entries@.len() == old(self).entries@.len(),
            is_backup_name(
                old(self)@.remove(old(self).entries@[i as int].name@).dom(),
                old(self).entries@[i as int].name@,
                b@,
            ),
            final(self)@ == old(self)@.remove(old(self).entries@[i as int].name@).insert(
                b@,
                old(self)@[old(self).entries@[i as int].name@],
            ),
            b@ != old(self).entries@[i as int].name@,
            all_told(
                old(self).change_subscribers@,
                seq![Notice::Added(b@), Notice::Changed(b@)],
                final(self).change_subscribers@,
            ),
    {
        let ghost es = self.entries@;
        let ghost nm = es[i as int].name@;
        let marker = backup_marker();
        let taken = self.names_except(i);
        let backup = backup_name(self.entries[i].name.as_str(), marker.as_str(), &taken);
        proof {
            lemma_tracks_lookup(es, i as int);
            reveal_strlit("_BACKUP_");
            let k = choose|k: nat| {
                &&& backup@ == backup_candidate(nm, marker@, k)
                &&& forall|j: nat| j < k ==> name_set(taken@).contains(#[trigger] backup_candidate(nm, marker@, j))
            };
            assert(is_backup_name(self@.remove(nm).dom(), nm, backup@));
            assert(backup@.len() > nm.len());
            assert forall|j: int| 0 <= j < es.len() && j != i implies (#[trigger] es[j]).name@ != backup@ by {
                lemma_tracks_dom(es);
                assert(names_of(es)[j]@ == es[j].name@);
                if j < i {
                    assert(es[j].name@ != es[i as int].name@);
                } else {
                    assert(es[i as int].name@ != es[j].name@);
                }
                assert(self@.dom().remove(nm).contains(es[j].name@));
            }
        }
        let mut entry = self.entries.remove(i);
        entry.name = backup.clone();
        self.entries.insert(i, entry);
        proof {
            let e2 = self.entries@[i as int];
            assert(self.entries@ =~= es.update(i as int, e2));
            lemma_tracks_update(es, i as int, e2);
            assert forall|a: int, b: int| 0 <= a < b < self.entries@.len() implies
                (#[trigger] self.entries@[a]).name@ != (#[trigger] self.entries@[b]).name@ by {
                if a != i && b != i {
                    assert(es[a] == self.entries@[a] && es[b] == self.entries@[b]);
                } else if a == i {
                    assert(es[b] == self.entries@[b]);
                } else {
                    assert(es[a] == self.entries@[a]);
                }
            }
            assert forall|j: int| 0 <= j < self.entries@.len() implies (#[trigger] self.entries@[j]).track.wf() by {
                if j != i {
                    assert(es[j] == self.entries@[j]);
                } else {
                    assert(es[j].track == self.entries@[j].track);
                }
            }
        }
        let ghost subs0 = self.change_subscribers@;
        self.notify_signal_added(backup.as_str());
        let ghost subs1 = self.change_subscribers@;
        self.notify_signal_changed(backup.as_str());
        proof {
            lemma_all_told_concat(
                subs0,
                seq![Notice::Added(backup@)],
                subs1,
                seq![Notice::Changed(backup@)],
                self.change_subscribers@,
            );
            assert(seq![Notice::Added(backup@)] + seq![Notice::Changed(backup@)]
                =~= seq![Notice::Added(backup@), Notice::Changed(backup@)]);
        }
        backup
    }
}

impl<S, SM> TsDb<S, SM> where S: Clone, SM: Metrics<S> + From<S> + Clone {
    /// Make room under `name` for observations of kind `typ` that begin at
    /// `first_timestamp`, and give the index of the entry that takes them.
    fn get_or_create_trace(&mut self, name: &str, typ: TrackType, first_timestamp: &TimeStamp) -> (r: usize)
        requires
            old(self).wf(),
        ensures
            final(self).wf(),
            r < final(self).entries@.len(),
            final(self).entries@[r as int].name@ == name@,
            exists|backup: Seq<char>| {
                &&& #[trigger] prepared(old(self)@, final(self)@, name@, typ, *first_timestamp, backup)
                &&& all_told(
                    old(self).change_subscribers@,
                    prepare_notices(old(self)@, name@, typ, *first_timestamp, backup),
                    final(self).change_subscribers@,
                )
            },
    {
        match self.find(name) {
            Some(i) => {
                let existing = self.entries[i].track.get_type();
                let last = match self.entries[i].track.quick_summary() {
                    Some(summary) => Some(*summary.last_timestamp()),
                    None => None,
                };
                proof {
                    lemma_tracks_lookup(self.entries@, i as int);
                    let tv = self.entries@[i as int].track@;
                    if tv.spec_len() > 0 {
                        let q = choose|q: QuickSummary<S>| quick_summary_of(q, tv) && last == Some(q.last.spec_timestamp());
                        lemma_quick_summary_time(q, tv);
                    }
                    assert(last == self@[name@].last_timestamp());
                }
                let action = trace_action(Some(existing), last, typ, *first_timestamp);
                if action == TraceAction::Append {
                    proof {
                        lemma_all_told_nothing(self.change_subscribers@);
                        assert(prepared(old(self)@, self@, name@, typ, *first_timestamp, name@));
                    }
                    i
                } else {
                    let backup = self.backup_track(i);
                    proof {
                        assert(!self@.contains_key(name@));
                    }
                    let r = self.new_trace(name, typ);
                    proof {
                        assert(prepared(old(self)@, self@, name@, typ, *first_timestamp, backup@));
                    }
                    r
                }
            },
            None => {
                let r = self.new_trace(name, typ);
                self.notify_signal_added(name);
                proof {
                    assert(prepared(old(self)@, self@, name@, typ, *first_timestamp, name@));
                }
                r
            },
        }
    }

    /// Add a batch of values
    pub fn add_values(&mut self, name: &str, samples: Vec<Observation<S>>)
        requires
            old(self).wf(),
            old(self)@.contains_key(name@) ==> old(self)@[name@].spec_len() + samples@.len() <= usize::MAX,
        ensures
            final(self).wf(),
            samples@.len() == 0 ==> final(self)@ == old(self)@ && final(self).subscribers() == old(self).subscribers(),
            samples@.len() > 0 ==> exists|mid: Map<Seq<char>, TrackView<S>>, backup: Seq<char>| {
                &&& #[trigger] prepared(old(self)@, mid, name@, TrackType::Value, samples@[0].timestamp, backup)
                &&& final(self)@ == mid.insert(name@, TrackView::Value(mid[name@]->Value_0 + samples@))
                &&& all_told(
                    old(self).subscribers(),
                    prepare_notices(old(self)@, name@, TrackType::Value, samples@[0].timestamp, backup)
                        + seq![Notice::Changed(name@)],
                    final(self).subscribers(),
                )
            },
    {
        if samples.len() > 0 {
            let first = samples[0].timestamp;
            let i = self.get_or_create_trace(name, TrackType::Value, &first);
            let ghost mid = self@;
            let ghost subs_mid = self.change_subscribers@;
            let ghost backup = choose|backup: Seq<char>| {
                &&& #[trigger] prepared(old(self)@, mid, name@, TrackType::Value, first, backup)
                &&& all_told(
                    old(self).change_subscribers@,
                    prepare_notices(old(self)@, name@, TrackType::Value, first, backup),
                    subs_mid,
                )
            };
            proof {
                lemma_prepared_track(old(self)@, mid, name@, TrackType::Value, first, backup);
                lemma_tracks_lookup(self.entries@, i as int);
            }
            let ghost es = self.entries@;
            let mut entry = self.entries.remove(i);
            entry.track.add_value_observations(samples);
            self.entries.insert(i, entry);
            proof {
                assert(self.entries@ =~= es.update(i as int, self.entries@[i as int]));
                lemma_replace_track(es, i as int, self.entries@[i as int]);
                assert forall|j: int| 0 <= j < self.entries@.len() implies (#[trigger] self.entries@[j]).track.wf() by {
                    if j != i {
                        assert(es[j] == self.entries@[j]);
                    }
                }
            }
            self.notify_signal_changed(name);
            proof {
                lemma_all_told_concat(
                    old(self).change_subscribers@,
                    prepare_notices(old(self)@, name@, TrackType::Value, first, backup),
                    subs_mid,
                    seq![Notice::Changed(name@)],
                    self.change_subscribers@,
                );
            }
        }
    }

    /// Add a single observation to the database.
    pub fn add_value(&mut self, name: &str, observation: Observation<S>)
        requires
            old(self).wf(),
            old(self)@.contains_key(name@) ==> old(self)@[name@].spec_len() < usize::MAX,
        ensures
            final(self).wf(),
            exists|mid: Map<Seq<char>, TrackView<S>>, backup: Seq<char>| {
                &&& #[trigger] prepared(old(self)@, mid, name@, TrackType::Value, observation.timestamp, backup)
                &&& final(self)@ == mid.insert(name@, TrackView::Value(mid[name@]->Value_0.push(observation)))
                &&& all_told(
                    old(self).subscribers(),
                    prepare_notices(old(self)@, name@, TrackType::Value, observation.timestamp, backup)
                        + seq![Notice::Changed(name@)],
                    final(self).subscribers(),
                )
            },
    {
        let first = observation.timestamp;
        let i = self.get_or_create_trace(name, TrackType::Value, &first);
        let ghost mid = self@;
        let ghost subs_mid = self.change_subscribers@;
        let ghost backup = choose|backup: Seq<char>| {
            &&& #[trigger] prepared(old(self)@, mid, name@, TrackType::Value, first, backup)
            &&& all_told(
                old(self).change_subscribers@,
                prepare_notices(old(self)@, name@, TrackType::Value, first, backup),
                subs_mid,
            )
        };
        proof {
            lemma_prepared_track(old(self)@, mid, name@, TrackType::Value, first, backup);
            lemma_tracks_lookup(self.entries@, i as int);
        }
        let ghost es = self.entries@;
        let mut entry = self.entries.remove(i);
        entry.track.add_value_observation(observation);
        self.entries.insert(i, entry);
        proof {
            assert(self.entries@ =~= es.update(i as int, self.entries@[i as int]));
            lemma_replace_track(es, i as int, self.entries@[i as int]);
            assert forall|j: int| 0 <= j < self.entries@.len() implies (#[trigger] self.entries@[j]).track.wf() by {
                if j != i {
                    assert(es[j] == self.entries@[j]);
                }
            }
        }
        self.notify_signal_changed(name);
        proof {
            lemma_all_told_concat(
                old(self).change_subscribers@,
                prepare_notices(old(self)@, name@, TrackType::Value, first, backup),
                subs_mid,
                seq![Notice::Changed(name@)],
                self.change_subscribers@,
            );
        }
    }

    /// Add a text record.
    pub fn add_text(&mut self, name: &str, observation: Observation<Text>)
        requires
            old(self).wf(),
            old(self)@.contains_key(name@) ==> old(self)@[name@].spec_len() < usize::MAX,
        ensures
            final(self).wf(),
            exists|mid: Map<Seq<char>, TrackView<S>>, backup: Seq<char>| {
                &&& #[trigger] prepared(old(self)@, mid, name@, TrackType::Text, observation.timestamp, backup)
                &&& final(self)@ == mid.insert(name@, TrackView::Text(mid[name@]->Text_0.push(observation)))
                &&& all_told(
                    old(self).subscribers(),
                    prepare_notices(old(self)@, name@, TrackType::Text, observation.timestamp, backup)
                        + seq![Notice::Changed(name@)],
                    final(self).subscribers(),
                )
            },
    {
        let first = observation.timestamp;
        let i = self.get_or_create_trace(name, TrackType::Text, &first);
        let ghost mid = self@;
        let ghost subs_mid = self.change_subscribers@;
        let ghost backup = choose|backup: Seq<char>| {
            &&& #[trigger] prepared(old(self)@, mid, name@, TrackType::Text, first, backup)
            &&& all_told(
                old(self).change_subscribers@,
                prepare_notices(old(self)@, name@, TrackType::Text, first, backup),
                subs_mid,
            )
        };
        proof {
            lemma_prepared_track(old(self)@, mid, name@, TrackType::Text, first, backup);
            lemma_tracks_lookup(self.entries@, i as int);
        }
        let ghost es = self.entries@;
        let mut entry = self.entries.remove(i);
        entry.track.add_text_observation(observation);
        self.entries.insert(i, entry);
        proof {
            assert(self.entries@ =~= es.update(i as int, self.entries@[i as int]));
            lemma_replace_track(es, i as int, self.entries@[i as int]);
            assert forall|j: int| 0 <= j < self.entries@.len() implies (#[trigger] self.entries@[j]).track.wf() by {
                if j != i {
                    assert(es[j] == self.entries@[j]);
                }
            }
        }
        self.notify_signal_changed(name);
        proof {
            lemma_all_told_concat(
                old(self).change_subscribers@,
                prepare_notices(old(self)@, name@, TrackType::Text, first, backup),
                subs_mid,
                seq![Notice::Changed(name@)],
                self.change_subscribers@,
            );
        }
    }

    /// Add a profile event.
    pub fn add_profile_event(&mut self, name: &str, observation: Observation<ProfileEvent>)
        requires
            old(self).wf(),
            old(self)@.contains_key(name@) ==> old(self)@[name@].spec_len() < usize::MAX,
        ensures
            final(self).wf(),
            exists|mid: Map<Seq<char>, TrackView<S>>, backup: Seq<char>| {
                &&& #[trigger] prepared(old(self)@, mid, name@, TrackType::Profile, observation.timestamp, backup)
                &&& final(self)@ == mid.insert(name@, TrackView::Profile(mid[name@]->Profile_0.push(observation)))
                &&& all_told(
                    old(self).subscribers(),
                    prepare_notices(old(self)@, name@, TrackType::Profile, observation.timestamp, backup)
                        + seq![Notice::Changed(name@)],
                    final(self).subscribers(),
                )
            },
    {
        let first = observation.timestamp;
        let i = self.get_or_create_trace(name, TrackType::Profile, &first);
        let ghost mid = self@;
        let ghost subs_mid = self.change_subscribers@;
        let ghost backup = choose|backup: Seq<char>| {
            &&& #[trigger] prepared(old(self)@, mid, name@, TrackType::Profile, first, backup)
            &&& all_told(
                old(self).change_subscribers@,
                prepare_notices(old(self)@, name@, TrackType::Profile, first, backup),
                subs_mid,
            )
        };
        proof {
            lemma_prepared_track(old(self)@, mid, name@, TrackType::Profile, first, backup);
            lemma_tracks_lookup(self.entries@, i as int);
        }
        let ghost es = self.entries@;
        let mut entry = self.entries.remove(i);
        entry.track.add_profile_observation(observation);
        self.entries.insert(i, entry);
        proof {
            assert(self.entries@ =~= es.update(i as int, self.entries@[i as int]));
            lemma_replace_track(es, i as int, self.entries@[i as int]);
            assert forall|j: int| 0 <= j < self.entries@.len() implies (#[trigger] self.entries@[j]).track.wf() by {
                if j != i {
                    assert(es[j] == self.entries@[j]);
                }
            }
        }
        self.notify_signal_changed(name);
        proof {
            lemma_all_told_concat(
                old(self).change_subscribers@,
                prepare_notices(old(self)@, name@, TrackType::Profile, first, backup),
                subs_mid,
                seq![Notice::Changed(name@)],
                self.change_subscribers@,
            );
        }
    }
}

impl<S, SM> TsDb<S, SM> where S: Clone, SM: Metrics<S> + From<S> + Clone {
    /// Delete all data from the database.
    pub fn delete_all(&mut self)
        requires
            old(self).wf(),
        ensures
            final(self).wf(),
            final(self)@ == Map::<Seq<char>, TrackView<S>>::empty(),
            all_told(old(self).subscribers(), seq![Notice::DeleteAll], final(self).subscribers()),
            forall|k: int| 0 <= k < old(self).subscribers().len() ==> deletion_first(
                old(self).subscribers()[k].state(),
                (#[trigger] final(self).subscribers()[k]).state(),
            ),
    {
        self.entries.clear();
        self.notify_delete_all();
        proof {
            let before = old(self).subscribers();
            let after = self.subscribers();
            assert forall|k: int| 0 <= k < before.len() implies deletion_first(
                before[k].state(),
                (#[trigger] after[k]).state(),
            ) by {
                assert(told(before[k].state(), seq![Notice::DeleteAll], after[k].state()));
                lemma_told_deletion(before[k].state(), seq![Notice::DeleteAll], after[k].state());
            }
        }
    }

    /// Delete a single trace from the database.
    pub fn delete(&mut self, name: &str)
        requires
            old(self).wf(),
        ensures
            final(self).wf(),
            final(self)@ == old(self)@.remove(name@),
            final(self).subscribers() == old(self).subscribers(),
    {
        match self.find(name) {
            Some(i) => {
                let ghost es = self.entries@;
                proof {
                    lemma_tracks_remove(es, i as int);
                }
                self.entries.remove(i);
                assert forall|j: int| 0 <= j < self.entries@.len() implies (#[trigger] self.entries@[j]).track.wf() by {
                    if j < i {
                        assert(self.entries@[j] == es[j]);
                    } else {
                        assert(self.entries@[j] == es[j + 1]);
                    }
                }
            },
            None => {
                assert(self@.remove(name@) =~= self@);
            },
        }
    }

    /// Query the given trace for data.
    pub fn query(&self, name: &str, query: Query) -> (r: Option<QueryResult<S, SM>>)
        requires
            self.wf(),
        ensures
            r is None <==> !self@.contains_key(name@),
            r matches Some(x) ==> track_query_answers(self@[name@], query, x),
            r matches Some(x) ==> self.track(name@).answers_at_own_zoom(query, x),
    {
        match self.find(name) {
            Some(i) => {
                proof {
                    lemma_tracks_lookup(self.entries@, i as int);
                    self.lemma_track_at(i as int);
                }
                Some(self.entries[i].track.query(query))
            },
            None => None,
        }
    }

    /// The observations of the value track `name`; none for a track of
    /// another kind.
    pub fn get_raw_samples(&self, name: &str) -> (r: Option<Vec<Observation<S>>>)
        requires
            self.wf(),
        ensures
            r is None <==> !self@.contains_key(name@),
            r matches Some(v) ==> {
                &&& self@[name@] matches TrackView::Value(s) ==> are_copies_of(s, v@)
                &&& !(self@[name@] is Value) ==> v@.len() == 0
            },
    {
        match self.find(name) {
            Some(i) => {
                proof {
                    lemma_tracks_lookup(self.entries@, i as int);
                }
                Some(self.entries[i].track.to_vec())
            },
            None => None,
        }
    }

    /// The number of observations of the track `name` and its last one.
    pub fn quick_summary(&self, name: &str) -> (r: Option<QuickSummary<S>>)
        requires
            self.wf(),
        ensures
            r is None <==> !self@.contains_key(name@) || self@[name@].spec_len() == 0,
            r matches Some(q) ==> quick_summary_of(q, self@[name@]),
    {
        match self.find(name) {
            Some(i) => {
                proof {
                    lemma_tracks_lookup(self.entries@, i as int);
                }
                self.entries[i].track.quick_summary()
            },
            None => None,
        }
    }

    /// Get a summary for a certain timerange (or all time) the given trace.
    pub fn summary(&self, name: &str, timespan: Option<&TimeSpan>) -> (r: Option<Summary<S, SM>>)
        requires
            self.wf(),
        ensures
            r is None <==> !self@.contains_key(name@)
                || self@[name@].selected_len(match timespan { Some(t) => Some(*t), None => None }) == 0,
            r matches Some(sm) ==> summary_of(sm, self@[name@], match timespan { Some(t) => Some(*t), None => None }),
    {
        match self.find(name) {
            Some(i) => {
                proof {
                    lemma_tracks_lookup(self.entries@, i as int);
                }
                self.entries[i].track.summary(timespan)
            },
            None => None,
        }
    }

    /// Register a subscriber which will be notified of any change: it is
    /// first told of every signal there is.
    pub fn register_notifier(&mut self, subscriber: ChangeSubscriber)
        requires
            old(self).wf(),
            subscriber.wf(),
        ensures
            final(self).wf(),
            final(self)@ == old(self)@,
            final(self).subscriber_count() == old(self).subscriber_count() + 1,
            forall|k: int| 0 <= k < old(self).subscriber_count() ==> #[trigger] final(self).subscribers()[k]
                == old(self).subscribers()[k],
            exists|names: Seq<Seq<char>>, told_state: SubscriberState, polled: SubscriberState|
                #![trigger told(subscriber.state(), announcements(names), told_state), poll_step(told_state, polled)]
                {
                    &&& names.to_set() == old(self)@.dom()
                    &&& names.no_duplicates()
                    &&& told(subscriber.state(), announcements(names), told_state)
                    &&& poll_step(told_state, polled)
                    &&& poll_step(polled, final(self).subscribers().last().state())
                },
    {
        let mut subscriber = subscriber;
        let ghost es = self.entries@;
        let ghost names = names_of(es).map_values(|n: String| n@);
        let ghost s0 = subscriber.state();
        proof {
            lemma_told_nothing(s0);
            assert(names.take(0) =~= Seq::<Seq<char>>::empty());
        }
        // Add a new signal event for all currently present signals:
        let mut i: usize = 0;
        while i < self.entries.len()
            invariant
                subscriber.wf(),
                self.entries@ == es,
                0 <= i <= es.len(),
                names == names_of(es).map_values(|n: String| n@),
                told(s0, announcements(names.take(i as int)), subscriber.state()),
            decreases es.len() - i,
        {
            let ghost sa = subscriber.state();
            subscriber.notify_signal_added(self.entries[i].name.as_str());
            let ghost sb = subscriber.state();
            subscriber.notify_signal_changed(self.entries[i].name.as_str());
            proof {
                let n = es[i as int].name@;
                assert(names[i as int] == n);
                lemma_told_one(sa, Notice::Added(n), sb);
                lemma_told_one(sb, Notice::Changed(n), subscriber.state());
                lemma_told_concat(sa, seq![Notice::Added(n)], sb, seq![Notice::Changed(n)], subscriber.state());
                assert(seq![Notice::Added(n)] + seq![Notice::Changed(n)] =~= seq![Notice::Added(n), Notice::Changed(n)]);
                lemma_told_concat(
                    s0, announcements(names.take(i as int)), sa, seq![Notice::Added(n), Notice::Changed(n)],
                    subscriber.state(),
                );
                assert(names.take(i + 1).drop_last() =~= names.take(i as int));
                assert(names.take(i + 1).last() == n);
            }
            i = i + 1;
        }
        let ghost told_state = subscriber.state();
        // Poll once to flush the above 'new' signals.
        subscriber.poll_events();
        let ghost polled = subscriber.state();
        // Poll twice to mark the event as ready to be sent:
        subscriber.poll_events();
        self.change_subscribers.push(subscriber);
        assert forall|k: int| 0 <= k < self.change_subscribers@.len() implies (#[trigger] self.change_subscribers@[k]).wf() by {
            if k < old(self).change_subscribers@.len() {
                assert(self.change_subscribers@[k] == old(self).change_subscribers@[k]);
            }
        }
        proof {
            assert(names.take(es.len() as int) =~= names);
            lemma_tracks_dom(es);
            assert forall|x: Seq<char>| names.to_set().contains(x) <==> old(self)@.dom().contains(x) by {
                if names.to_set().contains(x) {
                    let j = choose|j: int| 0 <= j < names.len() && names[j] == x;
                    assert(names_of(es)[j]@ == x);
                }
                if old(self)@.dom().contains(x) {
                    assert(name_set(names_of(es)).contains(x));
                    let j = choose|j: int| 0 <= j < names_of(es).len() && names_of(es)[j]@ == x;
                    assert(names[j] == x);
                }
            }
            assert(names.to_set() =~= old(self)@.dom());
            assert forall|a: int, b: int| 0 <= a < names.len() && 0 <= b < names.len() && a != b implies names[a] != names[b] by {
                if a < b {
                    assert(es[a].name@ != es[b].name@);
                } else {
                    assert(es[b].name@ != es[a].name@);
                }
            }
            assert(told(s0, announcements(names), told_state));
        }
    }

    /// Check if we have pending events, and emit them to queues.
    pub fn poll_events(&mut self)
        requires
            old(self).wf(),
        ensures
            final(self).wf(),
            final(self)@ == old(self)@,
            final(self).subscriber_count() == old(self).subscriber_count(),
            forall|k: int| 0 <= k < old(self).subscriber_count() ==> poll_step(
                (#[trigger] old(self).subscribers()[k]).state(),
                final(self).subscribers()[k].state(),
            ),
    {
        let mut k: usize = 0;
        while k < self.change_subscribers.len()
            invariant
                self.wf(),
                self.entries@ == old(self).entries@,
                self.change_subscribers@.len() == old(self).change_subscribers@.len(),
                0 <= k <= self.change_subscribers@.len(),
                forall|j: int| 0 <= j < k ==> poll_step(
                    (#[trigger] old(self).change_subscribers@[j]).state(),
                    self.change_subscribers@[j].state(),
                ),
                forall|j: int| k <= j < self.change_subscribers@.len() ==> self.change_subscribers@[j]
                    == old(self).change_subscribers@[j],
            decreases self.change_subscribers@.len() - k,
        {
            let ghost before = self.change_subscribers@;
            let mut subscriber = self.change_subscribers.remove(k);
            subscriber.poll_events();
            self.change_subscribers.insert(k, subscriber);
            proof {
                assert forall|j: int| 0 <= j < k + 1 implies poll_step(
                    (#[trigger] old(self).change_subscribers@[j]).state(),
                    self.change_subscribers@[j].state(),
                ) by {
                    if j < k {
                        assert(self.change_subscribers@[j] == before[j]);
                    }
                }
                assert forall|j: int| k + 1 <= j < self.change_subscribers@.len() implies self.change_subscribers@[j]
                    == old(self).change_subscribers@[j] by {
                    assert(self.change_subscribers@[j] == before[j]);
                }
            }
            k = k + 1;
        }
    }
}

impl<S, SM> Default for TsDb<S, SM> where S: Clone, SM: Metrics<S> + From<S> + Clone {
    fn default() -> (r: Self)
        ensures
            r.wf(),
            r@ == Map::<Seq<char>, TrackView<S>>::empty(),
            r.subscriber_count() == 0,
    {
        TsDb::new()
    }
}

} // verus!
