//! Votes, their stored form, and the receipts that identify them.

use crate::text::key_bytes;
use vstd::bytes::*;
use vstd::prelude::*;
use vstd::slice::*;
use sha2::{Digest, Sha256};
use vstd::string::*;
use vstd::utf8::*;

verus! {

/// One voter's choice in one election.
#[derive(Debug, Clone)]
pub struct Vote {
    pub election_id: String,
    pub option_index: u32,
    pub voter_id: String,
    pub timestamp: u64,
    pub verification_hash: String,
}

/// What a voter gets back for a vote that was accepted.
#[derive(Debug, Clone)]
pub struct VoteReceipt {
    pub verification_hash: String,
    pub timestamp: u64,
}

/// The bytes of a stored vote that come before the two identifiers.
pub const VOTE_HEADER_SIZE: usize = 20;

/// The longest stored vote, in bytes.
pub const MAX_VOTE_SIZE: usize = 1024;

/// The SHA-256 digest of a message.
pub uninterp spec fn sha256(message: Seq<u8>) -> Seq<u8>;

/// The length of a digest, in bytes.
pub const DIGEST_SIZE: usize = 32;

/// `Sha256::digest` of the crate sha2: the SHA-256 digest of the message,
/// which is a function of the message alone and has 32 bytes.
#[verifier::external_body]
fn digest_of(message: &Vec<u8>) -> (r: Vec<u8>)
    ensures
        r@ == sha256(message@),
        r@.len() == DIGEST_SIZE,
{
    Sha256::digest(message.as_slice()).to_vec()
}

/// The lower-case hexadecimal digit of a value below sixteen.
pub open spec fn hex_char(n: u8) -> char {
    if n == 0 {
        '0'
    } else if n == 1 {
        '1'
    } else if n == 2 {
        '2'
    } else if n == 3 {
        '3'
    } else if n == 4 {
        '4'
    } else if n == 5 {
        '5'
    } else if n == 6 {
        '6'
    } else if n == 7 {
        '7'
    } else if n == 8 {
        '8'
    } else if n == 9 {
        '9'
    } else if n == 10 {
        'a'
    } else if n == 11 {
        'b'
    } else if n == 12 {
        'c'
    } else if n == 13 {
        'd'
    } else if n == 14 {
        'e'
    } else {
        'f'
    }
}

/// The bytes in hexadecimal, two digits each, the high one first.
pub open spec fn hex_text_spec(bytes: Seq<u8>) -> Seq<char>
    decreases bytes.len(),
{
    if bytes.len() == 0 {
        Seq::empty()
    } else {
        hex_text_spec(bytes.drop_last()).push(hex_char(bytes.last() / 16)).push(
            hex_char(bytes.last() % 16),
        )
    }
}

/// The hexadecimal text of bytes is twice as long as the bytes, and so is
/// its stored form, since every digit is one byte of text.
pub proof fn lemma_hex_text_len(bytes: Seq<u8>)
    ensures
        hex_text_spec(bytes).len() == 2 * bytes.len(),
        is_ascii_chars(hex_text_spec(bytes)),
        key_bytes(hex_text_spec(bytes)).len() == 2 * bytes.len(),
    decreases bytes.len(),
{
    if bytes.len() > 0 {
        lemma_hex_text_len(bytes.drop_last());
    }
    is_ascii_chars_encode_utf8(hex_text_spec(bytes));
}

fn hex_digit(n: u8) -> (r: &'static str)
    requires
        n < 16,
    ensures
        r@ == seq![hex_char(n)],
{
    proof {
        reveal_strlit("0");
        reveal_strlit("1");
        reveal_strlit("2");
        reveal_strlit("3");
        reveal_strlit("4");
        reveal_strlit("5");
        reveal_strlit("6");
        reveal_strlit("7");
        reveal_strlit("8");
        reveal_strlit("9");
        reveal_strlit("a");
        reveal_strlit("b");
        reveal_strlit("c");
        reveal_strlit("d");
        reveal_strlit("e");
        reveal_strlit("f");
    }
    let r = if n == 0 {
        "0"
    } else if n == 1 {
        "1"
    } else if n == 2 {
        "2"
    } else if n == 3 {
        "3"
    } else if n == 4 {
        "4"
    } else if n == 5 {
        "5"
    } else if n == 6 {
        "6"
    } else if n == 7 {
        "7"
    } else if n == 8 {
        "8"
    } else if n == 9 {
        "9"
    } else if n == 10 {
        "a"
    } else if n == 11 {
        "b"
    } else if n == 12 {
        "c"
    } else if n == 13 {
        "d"
    } else if n == 14 {
        "e"
    } else {
        "f"
    };
    assert(r@ =~= seq![hex_char(n)]);
    r
}

/// Writes the bytes in hexadecimal.
pub fn hex_text(bytes: &Vec<u8>) -> (r: String)
    ensures
        r@ == hex_text_spec(bytes@),
{
    let mut text = String::new();
    let mut i: usize = 0;
    assert(bytes@.take(0) =~= Seq::<u8>::empty());
    while i < bytes.len()
        invariant
            i <= bytes@.len(),
            text@ == hex_text_spec(bytes@.take(i as int)),
        decreases bytes@.len() - i,
    {
        let b = bytes[i];
        proof {
            assert(bytes@.take(i + 1).drop_last() =~= bytes@.take(i as int));
            assert(bytes@.take(i + 1).last() == b);
        }
        let ghost before = text@;
        text.append(hex_digit(b / 16));
        text.append(hex_digit(b % 16));
        assert(text@ =~= before.push(hex_char(b / 16)).push(hex_char(b % 16)));
        i += 1;
    }
    assert(bytes@.take(i as int) =~= bytes@);
    text
}

/// The receipt of a vote: the digest of its stored form, in hexadecimal.
pub open spec fn receipt_text(stored_vote: Seq<u8>) -> Seq<char> {
    hex_text_spec(sha256(stored_vote))
}

/// Computes the receipt of the vote with the given stored form: sixty-four
/// hexadecimal digits.
pub fn receipt_for(stored_vote: &Vec<u8>) -> (r: String)
    ensures
        r@ == receipt_text(stored_vote@),
        r@.len() == 2 * DIGEST_SIZE,
        key_bytes(r@).len() == 2 * DIGEST_SIZE,
{
    let digest = digest_of(stored_vote);
    proof {
        lemma_hex_text_len(digest@);
    }
    hex_text(&digest)
}

/// The stored form of a vote: option, time, length of the election's key,
/// the election's key, the voter's identity.
pub open spec fn encode_vote_spec(
    election: Seq<u8>,
    voter: Seq<u8>,
    option_index: u32,
    timestamp: u64,
) -> Seq<u8> {
    spec_u32_to_le_bytes(option_index) + spec_u64_to_le_bytes(timestamp) + spec_u64_to_le_bytes(
        election.len() as u64,
    ) + election + voter
}

/// The key of the election that a stored vote was cast in, if the bytes are
/// a well-formed vote.
pub open spec fn vote_election(bytes: Seq<u8>) -> Option<Seq<u8>> {
    if bytes.len() < VOTE_HEADER_SIZE {
        None
    } else {
        let n = spec_u64_from_le_bytes(bytes.subrange(12, 20));
        if n > bytes.len() - VOTE_HEADER_SIZE {
            None
        } else {
            Some(bytes.subrange(20, 20 + n))
        }
    }
}

/// The identity of the voter of a stored vote, if the bytes are a
/// well-formed vote.
pub open spec fn vote_voter(bytes: Seq<u8>) -> Option<Seq<u8>> {
    if bytes.len() < VOTE_HEADER_SIZE {
        None
    } else {
        let n = spec_u64_from_le_bytes(bytes.subrange(12, 20));
        if n > bytes.len() - VOTE_HEADER_SIZE {
            None
        } else {
            Some(bytes.skip(20 + n))
        }
    }
}

/// Whether the bytes are the stored vote of the voter in the election.
pub open spec fn is_vote_of(bytes: Seq<u8>, election: Seq<u8>, voter: Seq<u8>) -> bool {
    vote_election(bytes) == Some(election) && vote_voter(bytes) == Some(voter)
}

/// The option that a stored vote chose.
pub open spec fn vote_option(bytes: Seq<u8>) -> u32 {
    spec_u32_from_le_bytes(bytes.subrange(0, 4))
}

/// A stored vote reads back as the election and the option it was written
/// with.
pub proof fn lemma_vote_roundtrip(
    election: Seq<u8>,
    voter: Seq<u8>,
    option_index: u32,
    timestamp: u64,
)
    requires
        election.len() <= u64::MAX,
    ensures
        encode_vote_spec(election, voter, option_index, timestamp).len() == VOTE_HEADER_SIZE
            + election.len() + voter.len(),
        vote_election(encode_vote_spec(election, voter, option_index, timestamp)) == Some(
            election,
        ),
        vote_option(encode_vote_spec(election, voter, option_index, timestamp)) == option_index,
        vote_voter(encode_vote_spec(election, voter, option_index, timestamp)) == Some(voter),
{
    lemma_auto_spec_u64_to_from_le_bytes();
    lemma_auto_spec_u32_to_from_le_bytes();
    let bytes = encode_vote_spec(election, voter, option_index, timestamp);
    assert(bytes.subrange(0, 4) =~= spec_u32_to_le_bytes(option_index));
    assert(bytes.subrange(12, 20) =~= spec_u64_to_le_bytes(election.len() as u64));
    assert(bytes.subrange(20, 20 + election.len() as int) =~= election);
    assert(bytes.skip(20 + election.len() as int) =~= voter);
}

/// Writes the stored form of a vote.
pub fn encode_vote(vote: &Vote) -> (r: Vec<u8>)
    ensures
        r@ == encode_vote_spec(
            key_bytes(vote.election_id@),
            key_bytes(vote.voter_id@),
            vote.option_index,
            vote.timestamp,
        ),
        r@.len() == VOTE_HEADER_SIZE + key_bytes(vote.election_id@).len() + key_bytes(
            vote.voter_id@,
        ).len(),
{
    let mut election = vote.election_id.as_str().as_bytes_vec();
    let mut voter = vote.voter_id.as_str().as_bytes_vec();
    let n = election.len();
    proof {
        lemma_vote_roundtrip(election@, voter@, vote.option_index, vote.timestamp);
    }
    let mut out = u32_to_le_bytes(vote.option_index);
    let mut time = u64_to_le_bytes(vote.timestamp);
    out.append(&mut time);
    let mut width = u64_to_le_bytes(n as u64);
    out.append(&mut width);
    out.append(&mut election);
    out.append(&mut voter);
    out
}

/// Whether two byte strings are the same.
pub fn bytes_equal(a: &[u8], b: &[u8]) -> (r: bool)
    ensures
        r == (a@ == b@),
{
    if a.len() != b.len() {
        return false;
    }
    let mut i: usize = 0;
    while i < a.len()
        invariant
            a@.len() == b@.len(),
            i <= a@.len(),
            forall|j: int| 0 <= j < i ==> a@[j] == b@[j],
        decreases a@.len() - i,
    {
        if a[i] != b[i] {
            return false;
        }
        i += 1;
    }
    assert(a@ =~= b@);
    true
}

/// Whether the stored vote is the vote of the voter in the election.
pub fn vote_is_of(value: &Vec<u8>, election: &Vec<u8>, voter: &Vec<u8>) -> (r: bool)
    ensures
        r == is_vote_of(value@, election@, voter@),
{
    if value.len() < VOTE_HEADER_SIZE {
        return false;
    }
    let all = value.as_slice();
    let n = u64_from_le_bytes(slice_subrange(all, 12, 20));
    if n > (value.len() - VOTE_HEADER_SIZE) as u64 {
        return false;
    }
    let split = 20 + n as usize;
    assert(all@.skip(split as int) =~= all@.subrange(split as int, all@.len() as int));
    bytes_equal(slice_subrange(all, 20, split), election.as_slice()) && bytes_equal(
        slice_subrange(all, split, value.len()),
        voter.as_slice(),
    )
}

/// The option chosen by a stored vote, if it is a vote in the election with
/// the given key.
pub fn vote_target(value: &Vec<u8>, election: &Vec<u8>) -> (r: Option<u32>)
    ensures
        r == if vote_election(value@) == Some(election@) {
            Some(vote_option(value@))
        } else {
            None
        },
{
    if value.len() < VOTE_HEADER_SIZE {
        return None;
    }
    let all = value.as_slice();
    let n = u64_from_le_bytes(slice_subrange(all, 12, 20));
    if n > (value.len() - VOTE_HEADER_SIZE) as u64 {
        return None;
    }
    if bytes_equal(slice_subrange(all, 20, 20 + n as usize), election.as_slice()) {
        Some(u32_from_le_bytes(slice_subrange(all, 0, 4)))
    } else {
        None
    }
}

} // verus!
