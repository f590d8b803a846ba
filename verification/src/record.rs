//! Election records and their stored form.

use crate::details::{
    decode_details, decode_details_spec, encode_details, encode_details_spec,
    frameable, lemma_details_roundtrip, DetailsView, ElectionDetails,
};
use vstd::bytes::*;
use vstd::prelude::*;
use vstd::slice::*;

verus! {

/// Where an election stands in its lifecycle.
#[derive(Debug, Clone, Copy, PartialEq, Eq, Structural)]
pub enum ElectionStatus {
    Pending,
    Active,
    Completed,
}

/// Why an operation was refused.
#[derive(Debug, Clone, Copy, PartialEq, Eq, Structural)]
pub enum VotingError {
    NotFound,
    Unauthorized,
    InvalidState,
    InvalidInput,
    WindowClosed,
    DuplicateVote,
    SizeExceeded,
}

impl ElectionStatus {
    /// The position of the status in the lifecycle.
    pub open spec fn rank(self) -> nat {
        match self {
            ElectionStatus::Pending => 0,
            ElectionStatus::Active => 1,
            ElectionStatus::Completed => 2,
        }
    }

    /// The byte that stands for the status in a stored record.
    pub open spec fn code(self) -> u8 {
        match self {
            ElectionStatus::Pending => 0,
            ElectionStatus::Active => 1,
            ElectionStatus::Completed => 2,
        }
    }

    pub open spec fn from_code(code: u8) -> ElectionStatus {
        if code == 0 {
            ElectionStatus::Pending
        } else if code == 1 {
            ElectionStatus::Active
        } else {
            ElectionStatus::Completed
        }
    }
}

/// An election: its identifier, what it shows to the voters, the window in
/// which votes are taken, and where it stands in its lifecycle.
#[derive(Debug, Clone)]
pub struct Election {
    pub id: String,
    pub details: ElectionDetails,
    pub start_time: u64,
    pub end_time: u64,
    pub status: ElectionStatus,
}

pub ghost struct ElectionView {
    pub id: Seq<char>,
    pub details: DetailsView,
    pub start_time: u64,
    pub end_time: u64,
    pub status: ElectionStatus,
}

impl View for Election {
    type V = ElectionView;

    open spec fn view(&self) -> ElectionView {
        ElectionView {
            id: self.id@,
            details: self.details@,
            start_time: self.start_time,
            end_time: self.end_time,
            status: self.status,
        }
    }
}

/// The bytes of a stored election record that come before the details.
pub const ELECTION_HEADER_SIZE: usize = 17;

/// The longest stored election record, in bytes.
pub const MAX_ELECTION_SIZE: usize = 2048;

/// The stored form of an election: status, start, end, then the details.
pub open spec fn encode_election_spec(e: ElectionView) -> Seq<u8> {
    seq![e.status.code()] + spec_u64_to_le_bytes(e.start_time) + spec_u64_to_le_bytes(e.end_time)
        + encode_details_spec(e.details)
}

/// The election that a stored record under the key of `id` stands for, if it
/// is a well-formed record.
pub open spec fn decode_election_spec(id: Seq<char>, bytes: Seq<u8>) -> Option<ElectionView> {
    if bytes.len() < ELECTION_HEADER_SIZE || bytes[0] > 2 {
        None
    } else {
        match decode_details_spec(bytes.skip(17)) {
            Some(details) => Some(
                ElectionView {
                    id,
                    details,
                    start_time: spec_u64_from_le_bytes(bytes.subrange(1, 9)),
                    end_time: spec_u64_from_le_bytes(bytes.subrange(9, 17)),
                    status: ElectionStatus::from_code(bytes[0]),
                },
            ),
            None => None,
        }
    }
}

/// A record reads back as the election it was written from.
pub proof fn lemma_election_roundtrip(e: ElectionView)
    requires
        frameable(e.details),
    ensures
        decode_election_spec(e.id, encode_election_spec(e)) == Some(e),
{
    lemma_auto_spec_u64_to_from_le_bytes();
    lemma_details_roundtrip(e.details);
    let bytes = encode_election_spec(e);
    assert(bytes.subrange(1, 9) =~= spec_u64_to_le_bytes(e.start_time));
    assert(bytes.subrange(9, 17) =~= spec_u64_to_le_bytes(e.end_time));
    assert(bytes.skip(17) =~= encode_details_spec(e.details));
    assert(bytes[0] == e.status.code());
}

/// The record with the byte of its status replaced.
pub open spec fn restamp(bytes: Seq<u8>, status: ElectionStatus) -> Seq<u8> {
    bytes.update(0, status.code())
}

/// A restamped record stands for the same election in the new status.
pub proof fn lemma_restamp(id: Seq<char>, bytes: Seq<u8>, status: ElectionStatus)
    requires
        decode_election_spec(id, bytes) is Some,
    ensures
        decode_election_spec(id, restamp(bytes, status)) == Some(
            ElectionView { status, ..decode_election_spec(id, bytes).unwrap() },
        ),
{
    let after = restamp(bytes, status);
    assert(after.skip(17) =~= bytes.skip(17));
    assert(after.subrange(1, 9) =~= bytes.subrange(1, 9));
    assert(after.subrange(9, 17) =~= bytes.subrange(9, 17));
    assert(ElectionStatus::from_code(status.code()) == status);
}

/// The byte that stands for the status in a stored record.
pub fn status_byte(status: ElectionStatus) -> (r: u8)
    ensures
        r == status.code(),
{
    match status {
        ElectionStatus::Pending => 0,
        ElectionStatus::Active => 1,
        ElectionStatus::Completed => 2,
    }
}

/// Writes the stored form of an election.
pub fn encode_election(e: &Election) -> (r: Vec<u8>)
    ensures
        r@ == encode_election_spec(e@),
        decode_election_spec(e.id@, r@) == Some(e@),
{
    let mut out: Vec<u8> = Vec::new();
    out.push(status_byte(e.status));
    let mut start = u64_to_le_bytes(e.start_time);
    out.append(&mut start);
    let mut end = u64_to_le_bytes(e.end_time);
    out.append(&mut end);
    let mut details = encode_details(&e.details);
    proof {
        lemma_election_roundtrip(e@);
    }
    out.append(&mut details);
    assert(out@ =~= encode_election_spec(e@));
    out
}

/// Reads a stored record back, under the identifier it is keyed by.
pub fn decode_election(id: String, bytes: &Vec<u8>) -> (r: Option<Election>)
    ensures
        r is Some <==> decode_election_spec(id@, bytes@) is Some,
        r matches Some(e) ==> decode_election_spec(id@, bytes@) == Some(e@),
{
    if bytes.len() < ELECTION_HEADER_SIZE || bytes[0] > 2 {
        return None;
    }
    let code = bytes[0];
    let status = if code == 0 {
        ElectionStatus::Pending
    } else if code == 1 {
        ElectionStatus::Active
    } else {
        ElectionStatus::Completed
    };
    let all = bytes.as_slice();
    let start_time = u64_from_le_bytes(slice_subrange(all, 1, 9));
    let end_time = u64_from_le_bytes(slice_subrange(all, 9, 17));
    let rest = slice_to_vec(slice_subrange(all, 17, bytes.len()));
    assert(rest@ =~= bytes@.skip(17));
    match decode_details(&rest) {
        Some(details) => Some(Election { id, details, start_time, end_time, status }),
        None => None,
    }
}

} // verus!
