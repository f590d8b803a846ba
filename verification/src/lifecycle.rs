//! The lifecycle of an election: which changes of a record are steps of it,
//! and which deferred transitions a new election needs.

use crate::record::{decode_election_spec, ElectionStatus, ElectionView};
use crate::store::{del, lemma_lookup_del, lemma_lookup_put, lookup, put, MAX_KEY_SIZE};
use crate::text::{key_bytes, lemma_key_bytes_injective};
use vstd::prelude::*;

verus! {

/// The election that a listing holds under an identifier.
pub open spec fn election_in(entries: Seq<(Seq<u8>, Seq<u8>)>, id: Seq<char>) -> Option<
    ElectionView,
> {
    if key_bytes(id).len() > MAX_KEY_SIZE {
        None
    } else {
        match lookup(entries, key_bytes(id)) {
            Some(bytes) => decode_election_spec(id, bytes),
            None => None,
        }
    }
}

/// The election with another status and nothing else changed.
pub open spec fn with_status(e: ElectionView, status: ElectionStatus) -> ElectionView {
    ElectionView { status, ..e }
}

/// What one operation may do to one election: leave it as it is, remove
/// it, create it as pending, or move it one status forward.
pub open spec fn lifecycle_step(before: Option<ElectionView>, after: Option<ElectionView>) -> bool {
    match (before, after) {
        (_, None) => true,
        (None, Some(a)) => a.status == ElectionStatus::Pending,
        (Some(b), Some(a)) => a == b || (a == with_status(b, a.status) && a.status.rank()
            == b.status.rank() + 1),
    }
}

/// Every election of the listing has made a step of the lifecycle, or none.
pub open spec fn elections_step(
    before: Seq<(Seq<u8>, Seq<u8>)>,
    after: Seq<(Seq<u8>, Seq<u8>)>,
) -> bool {
    forall|id: Seq<char>|
        lifecycle_step(election_in(before, id), #[trigger] election_in(after, id))
}

/// Every election but the one named is as it was.
pub open spec fn same_elsewhere(
    before: Seq<(Seq<u8>, Seq<u8>)>,
    after: Seq<(Seq<u8>, Seq<u8>)>,
    id: Seq<char>,
) -> bool {
    forall|other: Seq<char>|
        other != id ==> #[trigger] election_in(after, other) == election_in(before, other)
}

/// A step of the lifecycle never moves a status backward and never skips
/// one: a record that is still there afterwards has the same status or the
/// next.
pub proof fn lemma_step_is_forward(before: ElectionView, after: ElectionView)
    requires
        lifecycle_step(Some(before), Some(after)),
    ensures
        before.status.rank() <= after.status.rank() <= before.status.rank() + 1,
        after.status == ElectionStatus::Completed ==> before.status != ElectionStatus::Pending,
        after == with_status(before, after.status),
{
}

/// Writing a record under an identifier changes that election and no
/// other.
pub proof fn lemma_election_after_put(
    entries: Seq<(Seq<u8>, Seq<u8>)>,
    id: Seq<char>,
    record: Seq<u8>,
    other: Seq<char>,
)
    requires
        key_bytes(id).len() <= MAX_KEY_SIZE,
    ensures
        election_in(put(entries, key_bytes(id), record), other) == if other == id {
            decode_election_spec(id, record)
        } else {
            election_in(entries, other)
        },
{
    lemma_lookup_put(entries, key_bytes(id), record, key_bytes(other));
    if other != id && key_bytes(other) == key_bytes(id) {
        lemma_key_bytes_injective(other, id);
    }
}

/// Removing the record of an identifier removes that election and no other.
pub proof fn lemma_election_after_del(
    entries: Seq<(Seq<u8>, Seq<u8>)>,
    id: Seq<char>,
    other: Seq<char>,
)
    ensures
        election_in(del(entries, key_bytes(id)), other) == if other == id {
            None
        } else {
            election_in(entries, other)
        },
{
    lemma_lookup_del(entries, key_bytes(id), key_bytes(other));
    if other != id && key_bytes(other) == key_bytes(id) {
        lemma_key_bytes_injective(other, id);
    }
}

/// The delays after which a new election is to be activated and completed.
/// A transition whose time has passed gets no delay.
#[derive(Debug, Clone, Copy, PartialEq, Eq, Structural)]
pub struct TimerPlan {
    pub activate_after: Option<u64>,
    pub complete_after: Option<u64>,
}

/// The delay from `now` until `at`, where `at` lies ahead and the delay is
/// below what is left of the clock's range.
pub open spec fn delay_until_spec(at: u64, now: u64) -> Option<u64> {
    if at > now && at - now < u64::MAX - now {
        Some((at - now) as u64)
    } else {
        None
    }
}

pub fn delay_until(at: u64, now: u64) -> (r: Option<u64>)
    ensures
        r == delay_until_spec(at, now),
{
    if at > now && at - now < u64::MAX - now {
        Some(at - now)
    } else {
        None
    }
}

/// The deferred transitions of an election created at `now`.
pub fn plan_timers(start_time: u64, end_time: u64, now: u64) -> (r: TimerPlan)
    ensures
        r.activate_after == delay_until_spec(start_time, now),
        r.complete_after == delay_until_spec(end_time, now),
{
    TimerPlan {
        activate_after: delay_until(start_time, now),
        complete_after: delay_until(end_time, now),
    }
}

} // verus!
