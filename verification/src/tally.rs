//! Counting the votes of an election out of the listing of the vote region.

use crate::ballot::{vote_election, vote_option, vote_target};
use crate::store::{bytes_lt, lookup, put};
use vstd::prelude::*;

verus! {

/// The listing that a vector of entries stands for.
pub open spec fn listing_view(entries: Seq<(Vec<u8>, Vec<u8>)>) -> Seq<(Seq<u8>, Seq<u8>)> {
    entries.map_values(|e: (Vec<u8>, Vec<u8>)| (e.0@, e.1@))
}

/// The number of listed votes in `election` that chose `option`.
pub open spec fn count_option(
    listing: Seq<(Seq<u8>, Seq<u8>)>,
    election: Seq<u8>,
    option: int,
) -> nat
    decreases listing.len(),
{
    if listing.len() == 0 {
        0
    } else {
        let value = listing.last().1;
        let here: nat = if vote_election(value) == Some(election) && vote_option(value)
            == option {
            1
        } else {
            0
        };
        count_option(listing.drop_last(), election, option) + here
    }
}

/// The number of listed votes in `election` that chose one of its first
/// `option_count` options.
pub open spec fn count_election(
    listing: Seq<(Seq<u8>, Seq<u8>)>,
    election: Seq<u8>,
    option_count: nat,
) -> nat
    decreases listing.len(),
{
    if listing.len() == 0 {
        0
    } else {
        let value = listing.last().1;
        let here: nat = if vote_election(value) == Some(election) && vote_option(value)
            < option_count {
            1
        } else {
            0
        };
        count_election(listing.drop_last(), election, option_count) + here
    }
}

/// The number of listed votes in `election`, whatever they chose.
pub open spec fn count_cast(listing: Seq<(Seq<u8>, Seq<u8>)>, election: Seq<u8>) -> nat
    decreases listing.len(),
{
    if listing.len() == 0 {
        0
    } else {
        let here: nat = if vote_election(listing.last().1) == Some(election) {
            1
        } else {
            0
        };
        count_cast(listing.drop_last(), election) + here
    }
}

/// Whether every listed vote in the election chose one of its first
/// `option_count` options.
pub open spec fn votes_in_range(
    listing: Seq<(Seq<u8>, Seq<u8>)>,
    election: Seq<u8>,
    option_count: nat,
) -> bool {
    forall|i: int|
        0 <= i < listing.len() && vote_election(#[trigger] listing[i].1) == Some(election)
            ==> vote_option(listing[i].1) < option_count
}

/// Where every listed vote in the election chose one of its options, the
/// total of the tally is the number of votes in the election.
pub proof fn lemma_total_is_votes_cast(
    listing: Seq<(Seq<u8>, Seq<u8>)>,
    election: Seq<u8>,
    option_count: nat,
)
    requires
        votes_in_range(listing, election, option_count),
    ensures
        count_election(listing, election, option_count) == count_cast(listing, election),
    decreases listing.len(),
{
    if listing.len() > 0 {
        let front = listing.drop_last();
        assert forall|i: int|
            0 <= i < front.len() && vote_election(#[trigger] front[i].1) == Some(
                election,
            ) implies vote_option(front[i].1) < option_count by {
            assert(front[i] == listing[i]);
        }
        lemma_total_is_votes_cast(front, election, option_count);
        assert(listing.last() == listing[listing.len() - 1]);
    }
}

/// The sum of the counts.
pub open spec fn sum(counts: Seq<u64>) -> nat
    decreases counts.len(),
{
    if counts.len() == 0 {
        0
    } else {
        sum(counts.drop_last()) + counts.last() as nat
    }
}

/// Raising one count by one raises the sum by one.
pub proof fn lemma_sum_bump(counts: Seq<u64>, j: int)
    requires
        0 <= j < counts.len(),
        counts[j] < u64::MAX,
    ensures
        sum(counts.update(j, (counts[j] + 1) as u64)) == sum(counts) + 1,
    decreases counts.len(),
{
    let bumped = counts.update(j, (counts[j] + 1) as u64);
    if j == counts.len() - 1 {
        assert(bumped.drop_last() =~= counts.drop_last());
    } else {
        assert(bumped.drop_last() =~= counts.drop_last().update(j, (counts[j] + 1) as u64));
        lemma_sum_bump(counts.drop_last(), j);
    }
}

/// Counts, for each of the first `option_count` options, the listed votes
/// in the election that chose it, and their total.
pub fn tally_votes(listing: &Vec<(Vec<u8>, Vec<u8>)>, election: &Vec<u8>, option_count: usize) -> (r:
    (Vec<u64>, u64))
    ensures
        r.0@.len() == option_count,
        forall|j: int|
            0 <= j < option_count ==> #[trigger] r.0@[j] == count_option(
                listing_view(listing@),
                election@,
                j,
            ),
        r.1 == count_election(listing_view(listing@), election@, option_count as nat),
        sum(r.0@) == r.1,
{
    let ghost all = listing_view(listing@);
    let mut counts: Vec<u64> = Vec::new();
    let mut k: usize = 0;
    while k < option_count
        invariant
            k <= option_count,
            counts@.len() == k,
            sum(counts@) == 0,
            forall|j: int| 0 <= j < k ==> counts@[j] == 0,
        decreases option_count - k,
    {
        let ghost before = counts@;
        counts.push(0);
        assert(counts@.drop_last() =~= before);
        k += 1;
    }
    let mut total: u64 = 0;
    let mut i: usize = 0;
    while i < listing.len()
        invariant
            i <= listing@.len(),
            all == listing_view(listing@),
            counts@.len() == option_count,
            forall|j: int|
                0 <= j < option_count ==> #[trigger] counts@[j] == count_option(
                    all.take(i as int),
                    election@,
                    j,
                ),
            forall|j: int| 0 <= j < option_count ==> #[trigger] counts@[j] <= i,
            total == count_election(all.take(i as int), election@, option_count as nat),
            total <= i,
            sum(counts@) == total,
        decreases listing@.len() - i,
    {
        proof {
            assert(all.take(i + 1).drop_last() =~= all.take(i as int));
            assert(all.take(i + 1).last() == all[i as int]);
            assert(all[i as int].1 == listing@[i as int].1@);
        }
        match vote_target(&listing[i].1, election) {
            Some(option) => {
                if (option as usize) < option_count {
                    let at = option as usize;
                    let seen = counts[at];
                    proof {
                        lemma_sum_bump(counts@, at as int);
                    }
                    counts.set(at, seen + 1);
                    total += 1;
                }
            },
            None => {},
        }
        i += 1;
    }
    assert(all.take(i as int) =~= all);
    (counts, total)
}

/// No option and no range of options has more votes than were cast in the
/// election.
pub proof fn lemma_counts_within_cast(
    listing: Seq<(Seq<u8>, Seq<u8>)>,
    election: Seq<u8>,
    option: int,
    option_count: nat,
)
    ensures
        count_option(listing, election, option) <= count_cast(listing, election),
        count_election(listing, election, option_count) <= count_cast(listing, election),
    decreases listing.len(),
{
    if listing.len() > 0 {
        lemma_counts_within_cast(listing.drop_last(), election, option, option_count);
    }
}

/// The counts of two listings put end to end are the sums of their counts.
pub proof fn lemma_counts_concat(
    a: Seq<(Seq<u8>, Seq<u8>)>,
    b: Seq<(Seq<u8>, Seq<u8>)>,
    election: Seq<u8>,
    option: int,
    option_count: nat,
)
    ensures
        count_option(a + b, election, option) == count_option(a, election, option) + count_option(
            b,
            election,
            option,
        ),
        count_election(a + b, election, option_count) == count_election(
            a,
            election,
            option_count,
        ) + count_election(b, election, option_count),
        count_cast(a + b, election) == count_cast(a, election) + count_cast(b, election),
    decreases b.len(),
{
    if b.len() == 0 {
        assert(a + b =~= a);
    } else {
        assert((a + b).drop_last() =~= a + b.drop_last());
        assert((a + b).last() == b.last());
        lemma_counts_concat(a, b.drop_last(), election, option, option_count);
    }
}

/// Where a new key is put into a listing: before the first key that is
/// not below it.
pub open spec fn insertion_point(entries: Seq<(Seq<u8>, Seq<u8>)>, key: Seq<u8>) -> int
    decreases entries.len(),
{
    if entries.len() == 0 || entries[0].0 == key || bytes_lt(key, entries[0].0) {
        0
    } else {
        1 + insertion_point(entries.skip(1), key)
    }
}

/// Putting a new key into a listing parts the listing at the insertion
/// point and leaves both parts as they were.
pub proof fn lemma_put_splits(entries: Seq<(Seq<u8>, Seq<u8>)>, key: Seq<u8>, value: Seq<u8>)
    requires
        lookup(entries, key) is None,
    ensures
        0 <= insertion_point(entries, key) <= entries.len(),
        put(entries, key, value) == entries.take(insertion_point(entries, key)).push((key, value))
            + entries.skip(insertion_point(entries, key)),
    decreases entries.len(),
{
    let p = insertion_point(entries, key);
    if entries.len() == 0 {
        assert(put(entries, key, value) =~= entries.take(p).push((key, value)) + entries.skip(p));
    } else if bytes_lt(key, entries[0].0) {
        assert(put(entries, key, value) =~= entries.take(p).push((key, value)) + entries.skip(p));
    } else {
        let rest = entries.skip(1);
        lemma_put_splits(rest, key, value);
        let q = insertion_point(rest, key);
        assert(entries.take(p) =~= seq![entries[0]] + rest.take(q));
        assert(entries.skip(p) =~= rest.skip(q));
        assert(put(entries, key, value) =~= entries.take(p).push((key, value)) + entries.skip(p));
    }
}

/// What a vote adds to each count.
pub open spec fn counted(hit: bool) -> nat {
    if hit {
        1
    } else {
        0
    }
}

/// A value written under a new key adds one to each count that it falls
/// under, and nothing to any other.
pub proof fn lemma_counts_after_put(
    entries: Seq<(Seq<u8>, Seq<u8>)>,
    key: Seq<u8>,
    value: Seq<u8>,
    election: Seq<u8>,
    option: int,
    option_count: nat,
)
    requires
        lookup(entries, key) is None,
    ensures
        count_option(put(entries, key, value), election, option) == count_option(
            entries,
            election,
            option,
        ) + counted(vote_election(value) == Some(election) && vote_option(value) == option),
        count_election(put(entries, key, value), election, option_count) == count_election(
            entries,
            election,
            option_count,
        ) + counted(vote_election(value) == Some(election) && vote_option(value) < option_count),
        count_cast(put(entries, key, value), election) == count_cast(entries, election) + counted(
            vote_election(value) == Some(election),
        ),
{
    let p = insertion_point(entries, key);
    lemma_put_splits(entries, key, value);
    let a = entries.take(p);
    let b = entries.skip(p);
    let with = a.push((key, value));
    assert(with.drop_last() =~= a);
    assert(with.last() == (key, value));
    assert(entries =~= a + b);
    lemma_counts_concat(with, b, election, option, option_count);
    lemma_counts_concat(a, b, election, option, option_count);
}

/// Where no vote was cast in an election, every vote cast in it is within
/// any range of options.
pub proof fn lemma_none_cast_in_range(
    listing: Seq<(Seq<u8>, Seq<u8>)>,
    election: Seq<u8>,
    option_count: nat,
)
    requires
        count_cast(listing, election) == 0,
    ensures
        votes_in_range(listing, election, option_count),
    decreases listing.len(),
{
    if listing.len() > 0 {
        let front = listing.drop_last();
        lemma_none_cast_in_range(front, election, option_count);
        assert forall|i: int|
            0 <= i < listing.len() && vote_election(#[trigger] listing[i].1) == Some(
                election,
            ) implies vote_option(listing[i].1) < option_count by {
            if i < listing.len() - 1 {
                assert(front[i] == listing[i]);
            } else {
                assert(listing[i] == listing.last());
            }
        }
    }
}

/// A vote within the range, written under a new key, leaves the votes of
/// its election within the range.
pub proof fn lemma_in_range_after_put(
    entries: Seq<(Seq<u8>, Seq<u8>)>,
    key: Seq<u8>,
    value: Seq<u8>,
    election: Seq<u8>,
    option_count: nat,
)
    requires
        lookup(entries, key) is None,
        votes_in_range(entries, election, option_count),
        vote_election(value) == Some(election) ==> vote_option(value) < option_count,
    ensures
        votes_in_range(put(entries, key, value), election, option_count),
{
    let p = insertion_point(entries, key);
    lemma_put_splits(entries, key, value);
    let out = put(entries, key, value);
    assert forall|i: int|
        0 <= i < out.len() && vote_election(#[trigger] out[i].1) == Some(
            election,
        ) implies vote_option(out[i].1) < option_count by {
        if i < p {
            assert(out[i] == entries[i]);
        } else if i == p {
            assert(out[i] == (key, value));
        } else {
            assert(out[i] == entries[i - 1]);
        }
    }
}

/// The number of listed votes in the election.
pub fn votes_cast_in(listing: &Vec<(Vec<u8>, Vec<u8>)>, election: &Vec<u8>) -> (r: usize)
    ensures
        r == count_cast(listing_view(listing@), election@),
{
    let ghost all = listing_view(listing@);
    let mut found: usize = 0;
    let mut i: usize = 0;
    while i < listing.len()
        invariant
            i <= listing@.len(),
            all == listing_view(listing@),
            found == count_cast(all.take(i as int), election@),
            found <= i,
        decreases listing@.len() - i,
    {
        proof {
            assert(all.take(i + 1).drop_last() =~= all.take(i as int));
            assert(all.take(i + 1).last() == all[i as int]);
            assert(all[i as int].1 == listing@[i as int].1@);
        }
        if vote_target(&listing[i].1, election).is_some() {
            found += 1;
        }
        i += 1;
    }
    assert(all.take(i as int) =~= all);
    found
}

} // verus!
