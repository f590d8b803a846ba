//! Who has voted in which election, read off the votes that are stored.

use crate::ballot::{is_vote_of, vote_is_of};
use crate::store::{bytes_lt, lookup, put};
use crate::tally::listing_view;
use vstd::prelude::*;

verus! {

/// Whether the listing holds a vote of the voter in the election.
pub open spec fn voted(entries: Seq<(Seq<u8>, Seq<u8>)>, election: Seq<u8>, voter: Seq<u8>) -> bool
    decreases entries.len(),
{
    if entries.len() == 0 {
        false
    } else {
        is_vote_of(entries[0].1, election, voter) || voted(entries.skip(1), election, voter)
    }
}

pub proof fn lemma_voted_cons(
    head: (Seq<u8>, Seq<u8>),
    rest: Seq<(Seq<u8>, Seq<u8>)>,
    election: Seq<u8>,
    voter: Seq<u8>,
)
    ensures
        voted(seq![head] + rest, election, voter) == (is_vote_of(head.1, election, voter) || voted(
            rest,
            election,
            voter,
        )),
{
    let all = seq![head] + rest;
    assert(all[0] == head);
    assert(all.skip(1) =~= rest);
}

/// A vote written under a key that was free adds its voter to those who
/// have voted in its election, and takes none away.
pub proof fn lemma_voted_after_put(
    entries: Seq<(Seq<u8>, Seq<u8>)>,
    key: Seq<u8>,
    value: Seq<u8>,
    election: Seq<u8>,
    voter: Seq<u8>,
)
    requires
        lookup(entries, key) is None,
    ensures
        voted(put(entries, key, value), election, voter) == (voted(entries, election, voter)
            || is_vote_of(value, election, voter)),
    decreases entries.len(),
{
    if entries.len() == 0 {
        lemma_voted_cons((key, value), entries, election, voter);
        assert(seq![(key, value)] + entries =~= seq![(key, value)]);
    } else if bytes_lt(key, entries[0].0) {
        lemma_voted_cons((key, value), entries, election, voter);
    } else {
        lemma_voted_after_put(entries.skip(1), key, value, election, voter);
        lemma_voted_cons(entries[0], put(entries.skip(1), key, value), election, voter);
    }
}

/// Whether the listed votes hold one of the voter in the election.
pub fn has_vote_of(listing: &Vec<(Vec<u8>, Vec<u8>)>, election: &Vec<u8>, voter: &Vec<u8>) -> (r:
    bool)
    ensures
        r == voted(listing_view(listing@), election@, voter@),
{
    let ghost all = listing_view(listing@);
    let mut i: usize = 0;
    assert(all.skip(0) =~= all);
    while i < listing.len()
        invariant
            i <= listing@.len(),
            all == listing_view(listing@),
            voted(all, election@, voter@) == voted(all.skip(i as int), election@, voter@),
        decreases listing@.len() - i,
    {
        proof {
            assert(all.skip(i as int)[0] == all[i as int]);
            assert(all.skip(i as int).skip(1) =~= all.skip(i + 1));
            assert(all[i as int].1 == listing@[i as int].1@);
        }
        if vote_is_of(&listing[i].1, election, voter) {
            return true;
        }
        i += 1;
    }
    false
}

} // verus!
