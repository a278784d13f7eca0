//! The kinds of tracks, and the decisions about where new observations go.

use crate::notify::name_set;
use crate::time::TimeStamp;
use vstd::prelude::*;
use vstd::string::StringExecFns;

verus! {

/// The kind of observations that a track holds.
#[derive(Clone, Copy, Debug, PartialEq, Eq, Structural)]
pub enum TrackType {
    Value,
    Text,
    Profile,
}

/// Where observations of a signal go.
#[derive(Clone, Copy, Debug, PartialEq, Eq, Structural)]
pub enum TraceAction {
    /// Append them to the existing track.
    Append,
    /// Move the existing track aside under a backup name, and start a new one.
    BackupAndCreate,
    /// There is no track of that name yet: start one.
    Create,
}

/// Where observations of `typ` that begin at `first_timestamp` go, given the
/// type of the existing track of that name (if any) and the time of its last
/// observation (if it has any): a track of another type, or one whose last
/// observation is later than the new ones, is backed up.
pub open spec fn action_for(
    existing: Option<TrackType>,
    last_timestamp: Option<TimeStamp>,
    typ: TrackType,
    first_timestamp: TimeStamp,
) -> TraceAction {
    match existing {
        None => TraceAction::Create,
        Some(e) => if e != typ {
            TraceAction::BackupAndCreate
        } else {
            match last_timestamp {
                Some(last) => if first_timestamp.nanos < last.nanos {
                    TraceAction::BackupAndCreate
                } else {
                    TraceAction::Append
                },
                None => TraceAction::Append,
            }
        },
    }
}

/// Decide where observations of `typ` that begin at `first_timestamp` go,
/// given the type of the existing track of that name (if any) and the time
/// of its last observation (if it has any).
pub fn trace_action(
    existing: Option<TrackType>,
    last_timestamp: Option<TimeStamp>,
    typ: TrackType,
    first_timestamp: TimeStamp,
) -> (r: TraceAction)
    ensures
        r == action_for(existing, last_timestamp, typ, first_timestamp),
{
    match existing {
        Some(e) => {
            if e == typ {
                if let Some(last) = last_timestamp {
                    if first_timestamp.is_before(&last) {
                        TraceAction::BackupAndCreate
                    } else {
                        TraceAction::Append
                    }
                } else {
                    TraceAction::Append
                }
            } else {
                TraceAction::BackupAndCreate
            }
        },
        None => TraceAction::Create,
    }
}

/// `s` repeated `k` times.
pub open spec fn repeated(s: Seq<char>, k: nat) -> Seq<char>
    decreases k,
{
    if k == 0 {
        Seq::empty()
    } else {
        repeated(s, (k - 1) as nat) + s
    }
}

/// The `k`-th candidate name for a backup of the track `name`, made at the
/// time written as `marker`: `<name>_BACKUP_<marker>` followed by `k` times `_a`.
pub open spec fn backup_candidate(name: Seq<char>, marker: Seq<char>, k: nat) -> Seq<char> {
    name + "_BACKUP_"@ + marker + repeated("_a"@, k)
}

/// The length of the longest name in `names`.
pub open spec fn max_name_len(names: Seq<String>) -> nat
    decreases names.len(),
{
    if names.len() == 0 {
        0
    } else {
        let rest = max_name_len(names.drop_last());
        if names.last()@.len() > rest { names.last()@.len() } else { rest }
    }
}

/// No name is longer than the longest one.
proof fn lemma_max_name_len(names: Seq<String>, s: Seq<char>)
    requires
        name_set(names).contains(s),
    ensures
        s.len() <= max_name_len(names),
    decreases names.len(),
{
    let i = choose|i: int| 0 <= i < names.len() && names[i]@ == s;
    if i < names.len() - 1 {
        assert(names.drop_last()[i] == names[i]);
        assert(name_set(names.drop_last()).contains(s));
        lemma_max_name_len(names.drop_last(), s);
    } else {
        assert(names.last() == names[i]);
    }
}

/// Whether a name with the text of `s` is in `names`.
fn names_contain(names: &Vec<String>, s: &String) -> (r: bool)
    ensures
        r == name_set(names@).contains(s@),
{
    let mut i: usize = 0;
    while i < names.len()
        invariant
            0 <= i <= names@.len(),
            forall|k: int| 0 <= k < i ==> names@[k]@ != s@,
        decreases names@.len() - i,
    {
        if names[i] == *s {
            return true;
        }
        i = i + 1;
    }
    false
}

/// The name under which to keep a backup of the track `name`, made at the
/// time written as `marker`, given the names that are in use: the first
/// candidate `<name>_BACKUP_<marker>`, `<name>_BACKUP_<marker>_a`, ... that
/// is free.
pub fn backup_name(name: &str, marker: &str, taken: &Vec<String>) -> (r: String)
    ensures
        exists|k: nat| {
            &&& r@ == backup_candidate(name@, marker@, k)
            &&& forall|j: nat| j < k ==> name_set(taken@).contains(#[trigger] backup_candidate(name@, marker@, j))
        },
        !name_set(taken@).contains(r@),
{
    let mut candidate = name.to_owned();
    candidate.append("_BACKUP_");
    candidate.append(marker);
    let ghost mut k: nat = 0;
    assert(candidate@ =~= backup_candidate(name@, marker@, 0));
    while names_contain(taken, &candidate)
        invariant
            candidate@ == backup_candidate(name@, marker@, k),
            forall|j: nat| j < k ==> name_set(taken@).contains(#[trigger] backup_candidate(name@, marker@, j)),
        decreases max_name_len(taken@) + 2 - candidate@.len(),
    {
        proof {
            lemma_max_name_len(taken@, candidate@);
            reveal_strlit("_a");
        }
        let ghost previous = candidate@;
        candidate.append("_a");
        proof {
            assert forall|j: nat| j < k + 1 implies name_set(taken@).contains(#[trigger] backup_candidate(name@, marker@, j)) by {
                if j == k {
                    assert(backup_candidate(name@, marker@, j) == previous);
                }
            }
            assert(candidate@ =~= backup_candidate(name@, marker@, k + 1));
            k = k + 1;
        }
    }
    candidate
}

} // verus!
