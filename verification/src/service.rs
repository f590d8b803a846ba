//! The voting service: the object that owns the two regions and the set of
//! administrators, and the operations on them.

use crate::ballot::{
    encode_vote, encode_vote_spec, lemma_vote_roundtrip, receipt_for, receipt_text, Vote,
    VoteReceipt, MAX_VOTE_SIZE,
};
use crate::details::{texts_of, DetailsView, ElectionDetails};
use crate::lifecycle::{
    delay_until_spec, election_in, elections_step, lemma_election_after_del,
    lemma_election_after_put, plan_timers, same_elsewhere, with_status, TimerPlan,
};
use crate::record::{
    decode_election, encode_election, encode_election_spec, lemma_restamp, restamp, status_byte,
    Election, ElectionStatus, ElectionView, VotingError, MAX_ELECTION_SIZE,
};
use crate::registry::{has_vote_of, lemma_voted_after_put, voted};
use crate::store::{del, holdable, lemma_lookup_put, lookup, put, BoundedStore, MAX_KEY_SIZE};
use crate::tally::{
    count_cast, count_election, count_option, counted, lemma_counts_after_put,
    lemma_counts_within_cast, lemma_in_range_after_put, lemma_none_cast_in_range,
    lemma_total_is_votes_cast, sum, tally_votes, votes_cast_in,
    votes_in_range,
};
use crate::text::{key_bytes, StableString};
use vstd::prelude::*;
use vstd::utf8::*;

verus! {

/// The tally of a completed election.
#[derive(Debug, Clone)]
pub struct ElectionResult {
    pub election_id: String,
    pub title: String,
    pub options: Vec<String>,
    pub vote_counts: Vec<u64>,
    pub total_votes: u64,
}

/// The service. `elections` is keyed by election identifier, `votes` by
/// receipt; `system_id` is the identity under which deferred transitions
/// run.
pub struct VotingService {
    elections: BoundedStore,
    votes: BoundedStore,
    admins: Vec<String>,
    system_id: String,
}

/// Whether a vote is listed under the receipt.
pub open spec fn receipt_in(entries: Seq<(Seq<u8>, Seq<u8>)>, receipt: Seq<char>) -> bool {
    key_bytes(receipt).len() <= MAX_KEY_SIZE && lookup(entries, key_bytes(receipt)) is Some
}

/// The stored form of the vote of `voter` in the election `id`.
pub open spec fn stored_vote(voter: Seq<char>, id: Seq<char>, option_index: u32, now: u64) -> Seq<
    u8,
> {
    encode_vote_spec(key_bytes(id), key_bytes(voter), option_index, now)
}

/// Whether every listed vote in a listed election chose one of that
/// election's options.
pub open spec fn whole(
    elections: Seq<(Seq<u8>, Seq<u8>)>,
    votes: Seq<(Seq<u8>, Seq<u8>)>,
) -> bool {
    forall|id: Seq<char>|
        (#[trigger] election_in(elections, id)) matches Some(e) ==> votes_in_range(
            votes,
            key_bytes(id),
            e.details.options.len(),
        )
}

/// Whether no identity is listed twice.
pub open spec fn distinct(admins: Seq<String>) -> bool {
    forall|i: int, j: int|
        0 <= i < j < admins.len() ==> (#[trigger] admins[i])@ != (#[trigger] admins[j])@
}

/// Whether the identity is among the listed ones.
pub open spec fn listed(admins: Seq<String>, who: Seq<char>) -> bool {
    exists|i: int| 0 <= i < admins.len() && (#[trigger] admins[i])@ == who
}

/// The election that a record under a stored key stands for.
pub open spec fn decode_election_spec_at(key: Seq<u8>, value: Seq<u8>) -> Option<ElectionView> {
    crate::record::decode_election_spec(decode_utf8(key), value)
}

/// The elections that a listing holds, in the order of their keys. An entry
/// that is no well-formed record under a textual key is passed over.
pub open spec fn elections_listed(entries: Seq<(Seq<u8>, Seq<u8>)>) -> Seq<ElectionView>
    decreases entries.len(),
{
    if entries.len() == 0 {
        Seq::empty()
    } else {
        let rest = elections_listed(entries.drop_last());
        let (key, value) = entries.last();
        if valid_utf8(key) && decode_election_spec_at(key, value) is Some {
            rest.push(decode_election_spec_at(key, value).unwrap())
        } else {
            rest
        }
    }
}

impl VotingService {
    /// The listing of the region that holds the elections.
    pub closed spec fn election_entries(&self) -> Seq<(Seq<u8>, Seq<u8>)> {
        self.elections@
    }

    /// The listing of the region that holds the votes.
    pub closed spec fn vote_entries(&self) -> Seq<(Seq<u8>, Seq<u8>)> {
        self.votes@
    }

    /// The administrators, in the order in which they were added.
    pub closed spec fn admin_list(&self) -> Seq<String> {
        self.admins@
    }

    /// The identity of the system itself.
    pub closed spec fn system(&self) -> Seq<char> {
        self.system_id@
    }

    /// The identity of the system itself, as which deferred transitions
    /// run.
    pub fn system_id(&self) -> (r: &String)
        ensures
            r@ == self.system(),
    {
        &self.system_id
    }

    /// The number of administrators.
    pub fn admin_count(&self) -> (r: usize)
        ensures
            r == self.admin_list().len(),
    {
        self.admins.len()
    }

    /// The election with the identifier, if the service holds one.
    pub open spec fn election(&self, id: Seq<char>) -> Option<ElectionView> {
        election_in(self.election_entries(), id)
    }

    /// Whether anything is stored under the identifier.
    pub open spec fn has_record(&self, id: Seq<char>) -> bool {
        key_bytes(id).len() <= MAX_KEY_SIZE && lookup(self.election_entries(), key_bytes(id)) is Some
    }

    /// Whether the identity may perform privileged operations.
    pub open spec fn admin(&self, who: Seq<char>) -> bool {
        listed(self.admin_list(), who)
    }

    /// Whether the identity may start and end elections: an administrator,
    /// or the system itself, under whose identity the deferred transitions
    /// run.
    pub open spec fn may_run(&self, who: Seq<char>) -> bool {
        self.admin(who) || who == self.system()
    }

    /// Whether every stored vote in an election that the service holds
    /// chose one of that election's options, so that the tally of the
    /// election leaves no vote out.
    pub open spec fn tallies_whole(&self) -> bool {
        whole(self.election_entries(), self.vote_entries())
    }

    /// Whether no administrator is listed twice.
    pub open spec fn admins_distinct(&self) -> bool {
        distinct(self.admin_list())
    }

    /// Whether the receipt was handed out for a stored vote.
    pub open spec fn receipt_known(&self, receipt: Seq<char>) -> bool {
        receipt_in(self.vote_entries(), receipt)
    }

    /// Whether the voter has voted in the election.
    pub open spec fn has_voted(&self, voter: Seq<char>, election: Seq<char>) -> bool {
        voted(self.vote_entries(), key_bytes(election), key_bytes(voter))
    }

    /// Why an election cannot be moved on from `from`, if it cannot.
    pub open spec fn advance_refusal(&self, id: Seq<char>, from: ElectionStatus) -> Option<
        VotingError,
    > {
        match self.election(id) {
            None => Some(VotingError::NotFound),
            Some(e) => if e.status != from {
                Some(VotingError::InvalidState)
            } else {
                None
            },
        }
    }

    /// The record under the identifier, as it is stored.
    pub open spec fn record(&self, id: Seq<char>) -> Seq<u8> {
        lookup(self.election_entries(), key_bytes(id)).unwrap()
    }

    /// Why the election cannot be created, if it cannot.
    pub open spec fn create_refusal(&self, e: ElectionView) -> Option<VotingError> {
        if e.details.options.len() == 0 || e.start_time >= e.end_time || self.has_record(e.id)
            || count_cast(self.vote_entries(), key_bytes(e.id)) > 0 {
            Some(VotingError::InvalidInput)
        } else if key_bytes(e.id).len() > MAX_KEY_SIZE || encode_election_spec(e).len()
            > MAX_ELECTION_SIZE {
            Some(VotingError::SizeExceeded)
        } else {
            None
        }
    }

    /// Why a vote cannot be accepted, if it cannot.
    pub open spec fn cast_refusal(
        &self,
        voter: Seq<char>,
        id: Seq<char>,
        option_index: u32,
        now: u64,
    ) -> Option<VotingError> {
        match self.election(id) {
            None => Some(VotingError::NotFound),
            Some(e) => if e.status != ElectionStatus::Active {
                Some(VotingError::InvalidState)
            } else if now < e.start_time || now > e.end_time {
                Some(VotingError::WindowClosed)
            } else if option_index >= e.details.options.len() {
                Some(VotingError::InvalidInput)
            } else if self.has_voted(voter, id) || self.receipt_known(
                receipt_text(stored_vote(voter, id, option_index, now)),
            ) {
                Some(VotingError::DuplicateVote)
            } else if stored_vote(voter, id, option_index, now).len() > MAX_VOTE_SIZE {
                Some(VotingError::SizeExceeded)
            } else {
                None
            },
        }
    }

    /// Opens the service over the two regions, with the deploying identity
    /// as its one administrator. The regions come with what they held
    /// before. They lie in the one persistent memory of the process, so a
    /// process opens the service once.
    pub fn new(deployer: String, system_id: String) -> (r: Self)
        ensures
            r.system() == system_id@,
            r.admin_list().len() == 1,
            r.admins_distinct(),
            forall|who: Seq<char>| r.admin(who) <==> who == deployer@,
            holdable(r.election_entries()),
            holdable(r.vote_entries()),
    {
        let (elections, votes) = BoundedStore::open_pair();
        let mut admins: Vec<String> = Vec::new();
        admins.push(deployer);
        let r = VotingService { elections, votes, admins, system_id };
        assert(r.admin_list()[0]@ == deployer@);
        r
    }

    pub fn is_admin(&self, identity: &String) -> (r: bool)
        ensures
            r == self.admin(identity@),
    {
        let mut i: usize = 0;
        while i < self.admins.len()
            invariant
                i <= self.admin_list().len(),
                forall|j: int| 0 <= j < i ==> (#[trigger] self.admin_list()[j])@ != identity@,
            decreases self.admin_list().len() - i,
        {
            if self.admins[i] == *identity {
                return true;
            }
            i += 1;
        }
        false
    }

    /// Adds an administrator, on the word of one.
    pub fn add_admin(&mut self, caller: &String, identity: String) -> (r: Result<(), VotingError>)
        ensures
            r is Ok <==> old(self).admin(caller@),
            r is Err ==> r == Err::<(), VotingError>(VotingError::Unauthorized) && final(self).admin_list() == old(self).admin_list(),
            r is Ok ==> forall|who: Seq<char>|
                final(self).admin(who) <==> old(self).admin(who) || who == identity@,
            old(self).admins_distinct() ==> final(self).admins_distinct(),
            final(self).election_entries() == old(self).election_entries(),
            old(self).tallies_whole() ==> final(self).tallies_whole(),
            final(self).vote_entries() == old(self).vote_entries(),
            final(self).system() == old(self).system(),
    {
        if !self.is_admin(caller) {
            return Err(VotingError::Unauthorized);
        }
        if !self.is_admin(&identity) {
            let ghost before = self.admin_list();
            self.admins.push(identity);
            proof {
                let after = self.admin_list();
                assert(after[before.len() as int]@ == identity@);
                assert forall|who: Seq<char>| listed(after, who) <==> listed(before, who) || who
                    == identity@ by {
                    if listed(before, who) {
                        let i = choose|i: int| 0 <= i < before.len() && (#[trigger] before[i])@
                            == who;
                        assert(after[i]@ == who);
                    }
                    if listed(after, who) && who != identity@ {
                        let i = choose|i: int| 0 <= i < after.len() && (#[trigger] after[i])@
                            == who;
                        assert(before[i]@ == who);
                    }
                }
            }
        }
        Ok(())
    }

    /// Stores a new election as pending under the identifier the caller
    /// made for it, and says which deferred transitions to schedule.
    pub fn create_election(
        &mut self,
        election_id: String,
        title: String,
        description: String,
        options: Vec<String>,
        start_time: u64,
        end_time: u64,
        now: u64,
    ) -> (r: Result<TimerPlan, VotingError>)
        ensures
            ({
                let e = ElectionView {
                    id: election_id@,
                    details: DetailsView {
                        title: title@,
                        description: description@,
                        options: texts_of(options@),
                    },
                    start_time,
                    end_time,
                    status: ElectionStatus::Pending,
                };
                match r {
                    Ok(plan) => {
                        &&& old(self).create_refusal(e) is None
                        &&& plan.activate_after == delay_until_spec(start_time, now)
                        &&& plan.complete_after == delay_until_spec(end_time, now)
                        &&& final(self).election_entries() == put(
                            old(self).election_entries(),
                            key_bytes(election_id@),
                            encode_election_spec(e),
                        )
                        &&& final(self).election(election_id@) == Some(e)
                        &&& count_cast(final(self).vote_entries(), key_bytes(election_id@)) == 0
                        &&& forall|option: int| #[trigger]
                            count_option(final(self).vote_entries(), key_bytes(election_id@), option) == 0
                        &&& forall|option_count: nat| #[trigger]
                            count_election(
                                final(self).vote_entries(),
                                key_bytes(election_id@),
                                option_count,
                            ) == 0
                    },
                    Err(why) => {
                        &&& old(self).create_refusal(e) == Some(why)
                        &&& final(self).election_entries() == old(self).election_entries()
                    },
                }
            }),
            elections_step(old(self).election_entries(), final(self).election_entries()),
            same_elsewhere(old(self).election_entries(), final(self).election_entries(), election_id@),
            old(self).tallies_whole() ==> final(self).tallies_whole(),
            final(self).vote_entries() == old(self).vote_entries(),
            final(self).admin_list() == old(self).admin_list(),
            final(self).system() == old(self).system(),
    {
        if options.len() == 0 || start_time >= end_time {
            return Err(VotingError::InvalidInput);
        }
        let key = StableString::new(election_id.clone()).to_bytes();
        let election = Election {
            id: election_id,
            details: ElectionDetails { title, description, options },
            start_time,
            end_time,
            status: ElectionStatus::Pending,
        };
        let bytes = encode_election(&election);
        if self.elections.contains(&key) {
            return Err(VotingError::InvalidInput);
        }
        let listing = self.votes.iterate();
        if votes_cast_in(&listing, &key) > 0 {
            return Err(VotingError::InvalidInput);
        }
        proof {
            assert forall|option: int| #[trigger]
                count_option(self.vote_entries(), key@, option) == 0 by {
                lemma_counts_within_cast(self.vote_entries(), key@, option, 0);
            }
            assert forall|option_count: nat| #[trigger]
                count_election(self.vote_entries(), key@, option_count) == 0 by {
                lemma_counts_within_cast(self.vote_entries(), key@, 0, option_count);
            }
        }
        let ghost before = self.election_entries();
        match self.elections.insert(&key, &bytes, MAX_ELECTION_SIZE) {
            Ok(_) => {},
            Err(why) => {
                return Err(why);
            },
        }
        proof {
            assert forall|other: Seq<char>|
                #[trigger] election_in(self.election_entries(), other) == if other == election@.id {
                    Some(election@)
                } else {
                    election_in(before, other)
                } by {
                lemma_election_after_put(before, election@.id, bytes@, other);
            }
            if old(self).tallies_whole() {
                assert forall|other: Seq<char>|
                    (#[trigger] election_in(self.election_entries(), other)) is Some
                    implies votes_in_range(
                    self.vote_entries(),
                    key_bytes(other),
                    self.election(other).unwrap().details.options.len(),
                ) by {
                    if other == election@.id {
                        lemma_none_cast_in_range(
                            self.vote_entries(),
                            key@,
                            election@.details.options.len(),
                        );
                    } else {
                        assert(old(self).election(other) == self.election(other));
                    }
                }
            }
        }
        Ok(plan_timers(start_time, end_time, now))
    }

    /// Moves an election from `from` to the status after it.
    fn advance(&mut self, id: &String, from: ElectionStatus, to: ElectionStatus) -> (r: Result<
        (),
        VotingError,
    >)
        requires
            to.rank() == from.rank() + 1,
        ensures
            match r {
                Ok(_) => {
                    &&& old(self).election(id@) matches Some(e)
                    &&& e.status == from
                    &&& final(self).election_entries() == put(
                        old(self).election_entries(),
                        key_bytes(id@),
                        restamp(old(self).record(id@), to),
                    )
                    &&& final(self).election(id@) == Some(with_status(e, to))
                },
                Err(why) => {
                    &&& old(self).advance_refusal(id@, from) == Some(why)
                    &&& final(self).election_entries() == old(self).election_entries()
                },
            },
            elections_step(old(self).election_entries(), final(self).election_entries()),
            same_elsewhere(old(self).election_entries(), final(self).election_entries(), id@),
            old(self).tallies_whole() ==> final(self).tallies_whole(),
            final(self).vote_entries() == old(self).vote_entries(),
            final(self).admin_list() == old(self).admin_list(),
            final(self).system() == old(self).system(),
    {
        let key = StableString::new(id.clone()).to_bytes();
        let mut stored = match self.elections.get(&key) {
            Some(bytes) => bytes,
            None => {
                return Err(VotingError::NotFound);
            },
        };
        let election = match decode_election(id.clone(), &stored) {
            Some(e) => e,
            None => {
                return Err(VotingError::NotFound);
            },
        };
        if election.status != from {
            return Err(VotingError::InvalidState);
        }
        let ghost found = stored@;
        stored.set(0, status_byte(to));
        let ghost before = self.election_entries();
        match self.elections.insert(&key, &stored, MAX_ELECTION_SIZE) {
            Ok(_) => {},
            Err(why) => {
                return Err(why);
            },
        }
        proof {
            assert(stored@ == restamp(found, to));
            lemma_restamp(id@, found, to);
            assert forall|other: Seq<char>|
                #[trigger] election_in(self.election_entries(), other) == if other == id@ {
                    Some(with_status(election@, to))
                } else {
                    election_in(before, other)
                } by {
                lemma_election_after_put(before, id@, stored@, other);
            }
            if old(self).tallies_whole() {
                assert forall|other: Seq<char>|
                    (#[trigger] election_in(self.election_entries(), other)) is Some
                    implies votes_in_range(
                    self.vote_entries(),
                    key_bytes(other),
                    self.election(other).unwrap().details.options.len(),
                ) by {
                    assert(old(self).election(other) is Some);
                }
            }
        }
        Ok(())
    }

    /// Makes a pending election active, on the word of an administrator or
    /// of the system itself, as which the deferred activation runs. For any
    /// other caller, and for an election that is not pending, nothing
    /// changes.
    pub fn start_election(&mut self, caller: &String, election_id: &String) -> (r: bool)
        ensures
            r == (old(self).may_run(caller@) && old(self).advance_refusal(
                election_id@,
                ElectionStatus::Pending,
            ) is None),
            r ==> final(self).election(election_id@) == Some(
                with_status(old(self).election(election_id@).unwrap(), ElectionStatus::Active),
            ),
            !r ==> final(self).election_entries() == old(self).election_entries(),
            elections_step(old(self).election_entries(), final(self).election_entries()),
            same_elsewhere(old(self).election_entries(), final(self).election_entries(), election_id@),
            old(self).tallies_whole() ==> final(self).tallies_whole(),
            final(self).vote_entries() == old(self).vote_entries(),
            final(self).admin_list() == old(self).admin_list(),
            final(self).system() == old(self).system(),
    {
        if !self.is_admin(caller) && *caller != self.system_id {
            return false;
        }
        self.advance(election_id, ElectionStatus::Pending, ElectionStatus::Active).is_ok()
    }

    /// The deferred completion: makes an active election completed, and
    /// does nothing to any other.
    pub fn end_election_sync(&mut self, election_id: &String) -> (r: bool)
        ensures
            r == (old(self).advance_refusal(election_id@, ElectionStatus::Active) is None),
            r ==> final(self).election(election_id@) == Some(
                with_status(old(self).election(election_id@).unwrap(), ElectionStatus::Completed),
            ),
            !r ==> final(self).election_entries() == old(self).election_entries(),
            elections_step(old(self).election_entries(), final(self).election_entries()),
            same_elsewhere(old(self).election_entries(), final(self).election_entries(), election_id@),
            old(self).tallies_whole() ==> final(self).tallies_whole(),
            final(self).vote_entries() == old(self).vote_entries(),
            final(self).admin_list() == old(self).admin_list(),
            final(self).system() == old(self).system(),
    {
        self.advance(election_id, ElectionStatus::Active, ElectionStatus::Completed).is_ok()
    }

    /// Activates a pending election on the word of an administrator.
    pub fn activate_election(&mut self, caller: &String, election_id: &String) -> (r: Result<
        (),
        VotingError,
    >)
        ensures
            match r {
                Ok(_) => {
                    &&& old(self).admin(caller@)
                    &&& old(self).advance_refusal(election_id@, ElectionStatus::Pending) is None
                    &&& final(self).election(election_id@) == Some(
                        with_status(
                            old(self).election(election_id@).unwrap(),
                            ElectionStatus::Active,
                        ),
                    )
                },
                Err(why) => {
                    &&& final(self).election_entries() == old(self).election_entries()
                    &&& Some(why) == if !old(self).admin(caller@) {
                        Some(VotingError::Unauthorized)
                    } else {
                        old(self).advance_refusal(election_id@, ElectionStatus::Pending)
                    }
                },
            },
            elections_step(old(self).election_entries(), final(self).election_entries()),
            same_elsewhere(old(self).election_entries(), final(self).election_entries(), election_id@),
            old(self).tallies_whole() ==> final(self).tallies_whole(),
            final(self).vote_entries() == old(self).vote_entries(),
            final(self).admin_list() == old(self).admin_list(),
            final(self).system() == old(self).system(),
    {
        if !self.is_admin(caller) {
            return Err(VotingError::Unauthorized);
        }
        self.advance(election_id, ElectionStatus::Pending, ElectionStatus::Active)
    }

    /// Completes an active election on the word of an administrator or of
    /// the system itself.
    pub fn end_election(&mut self, caller: &String, election_id: &String) -> (r: Result<
        (),
        VotingError,
    >)
        ensures
            match r {
                Ok(_) => {
                    &&& old(self).admin(caller@) || caller@ == old(self).system()
                    &&& old(self).advance_refusal(election_id@, ElectionStatus::Active) is None
                    &&& final(self).election(election_id@) == Some(
                        with_status(
                            old(self).election(election_id@).unwrap(),
                            ElectionStatus::Completed,
                        ),
                    )
                },
                Err(why) => {
                    &&& final(self).election_entries() == old(self).election_entries()
                    &&& Some(why) == if !(old(self).admin(caller@) || caller@ == old(self).system()) {
                        Some(VotingError::Unauthorized)
                    } else {
                        old(self).advance_refusal(election_id@, ElectionStatus::Active)
                    }
                },
            },
            elections_step(old(self).election_entries(), final(self).election_entries()),
            same_elsewhere(old(self).election_entries(), final(self).election_entries(), election_id@),
            old(self).tallies_whole() ==> final(self).tallies_whole(),
            final(self).vote_entries() == old(self).vote_entries(),
            final(self).admin_list() == old(self).admin_list(),
            final(self).system() == old(self).system(),
    {
        if !self.is_admin(caller) && *caller != self.system_id {
            return Err(VotingError::Unauthorized);
        }
        self.advance(election_id, ElectionStatus::Active, ElectionStatus::Completed)
    }

    /// Removes an election, whatever its status, on the word of an
    /// administrator.
    pub fn delete_election(&mut self, caller: &String, election_id: &String) -> (r: Result<
        (),
        VotingError,
    >)
        ensures
            match r {
                Ok(_) => {
                    &&& old(self).admin(caller@)
                    &&& old(self).has_record(election_id@)
                    &&& final(self).election_entries() == del(
                        old(self).election_entries(),
                        key_bytes(election_id@),
                    )
                    &&& !final(self).has_record(election_id@)
                    &&& final(self).election(election_id@) is None
                },
                Err(why) => {
                    &&& final(self).election_entries() == old(self).election_entries()
                    &&& why == if !old(self).admin(caller@) {
                        VotingError::Unauthorized
                    } else {
                        VotingError::NotFound
                    }
                    &&& old(self).admin(caller@) ==> !old(self).has_record(election_id@)
                },
            },
            elections_step(old(self).election_entries(), final(self).election_entries()),
            same_elsewhere(old(self).election_entries(), final(self).election_entries(), election_id@),
            old(self).tallies_whole() ==> final(self).tallies_whole(),
            final(self).vote_entries() == old(self).vote_entries(),
            final(self).admin_list() == old(self).admin_list(),
            final(self).system() == old(self).system(),
    {
        if !self.is_admin(caller) {
            return Err(VotingError::Unauthorized);
        }
        let key = StableString::new(election_id.clone()).to_bytes();
        let ghost before = self.election_entries();
        if !self.elections.remove(&key) {
            return Err(VotingError::NotFound);
        }
        proof {
            crate::store::lemma_lookup_del(before, key@, key@);
            assert forall|other: Seq<char>|
                #[trigger] election_in(self.election_entries(), other) == if other == election_id@ {
                    None
                } else {
                    election_in(before, other)
                } by {
                lemma_election_after_del(before, election_id@, other);
            }
            if old(self).tallies_whole() {
                assert forall|other: Seq<char>|
                    (#[trigger] election_in(self.election_entries(), other)) is Some
                    implies votes_in_range(
                    self.vote_entries(),
                    key_bytes(other),
                    self.election(other).unwrap().details.options.len(),
                ) by {
                    assert(old(self).election(other) == self.election(other));
                }
            }
        }
        Ok(())
    }

    /// The election with the identifier.
    pub fn get_election(&self, election_id: &String) -> (r: Option<Election>)
        ensures
            r is Some <==> self.election(election_id@) is Some,
            r matches Some(e) ==> self.election(election_id@) == Some(e@),
    {
        let key = StableString::new(election_id.clone()).to_bytes();
        match self.elections.get(&key) {
            Some(bytes) => decode_election(election_id.clone(), &bytes),
            None => None,
        }
    }

    /// Every election, in the order of the keys.
    pub fn get_elections(&self) -> (r: Vec<Election>)
        ensures
            r@.map_values(|e: Election| e@) == elections_listed(self.election_entries()),
    {
        let listing = self.elections.iterate();
        let ghost all = self.election_entries();
        assert forall|j: int| 0 <= j < listing@.len() implies (#[trigger] listing@[j]).0@
            == all[j].0 && listing@[j].1@ == all[j].1 by {
            assert(listing@.map_values(|e: (Vec<u8>, Vec<u8>)| (e.0@, e.1@))[j] == all[j]);
        }
        let mut out: Vec<Election> = Vec::new();
        let mut i: usize = 0;
        while i < listing.len()
            invariant
                i <= listing@.len(),
                listing@.len() == all.len(),
                forall|j: int|
                    0 <= j < listing@.len() ==> (#[trigger] listing@[j]).0@ == all[j].0
                        && listing@[j].1@ == all[j].1,
                out@.map_values(|e: Election| e@) == elections_listed(all.take(i as int)),
            decreases listing@.len() - i,
        {
            proof {
                assert(all.take(i + 1).drop_last() =~= all.take(i as int));
                assert(all.take(i + 1).last() == all[i as int]);
                assert(listing@[i as int].0@ == all[i as int].0);
            }
            let ghost before = out@;
            match StableString::from_bytes(listing[i].0.clone()) {
                Some(id) => {
                    proof {
                        encode_utf8_decode_utf8(id@);
                    }
                    match decode_election(id.into_string(), &listing[i].1) {
                        Some(e) => {
                            out.push(e);
                            assert(out@.map_values(|e: Election| e@) =~= before.map_values(
                                |e: Election| e@,
                            ).push(e@));
                        },
                        None => {},
                    }
                },
                None => {},
            }
            i += 1;
        }
        assert(all.take(i as int) =~= all);
        out
    }

    /// Accepts the vote of `caller` in an active election, once, and hands
    /// out its receipt. A vote that is refused changes nothing.
    pub fn cast_vote(
        &mut self,
        caller: &String,
        election_id: &String,
        option_index: u32,
        now: u64,
    ) -> (r: Result<VoteReceipt, VotingError>)
        ensures
            match r {
                Ok(receipt) => {
                    let stored = stored_vote(caller@, election_id@, option_index, now);
                    &&& old(self).cast_refusal(caller@, election_id@, option_index, now) is None
                    &&& receipt.verification_hash@ == receipt_text(stored)
                    &&& receipt.timestamp == now
                    &&& final(self).vote_entries() == put(
                        old(self).vote_entries(),
                        key_bytes(receipt.verification_hash@),
                        stored,
                    )
                    &&& forall|other: Seq<char>|
                        #[trigger] final(self).receipt_known(other) <==> old(self).receipt_known(
                            other,
                        ) || other == receipt.verification_hash@
                    &&& forall|voter: Seq<char>, election: Seq<char>|
                        #[trigger] final(self).has_voted(voter, election) <==> old(self).has_voted(
                            voter,
                            election,
                        ) || (voter == caller@ && election == election_id@)
                    &&& forall|election: Seq<u8>, option: int| #[trigger]
                        count_option(final(self).vote_entries(), election, option) == count_option(
                            old(self).vote_entries(),
                            election,
                            option,
                        ) + counted(election == key_bytes(election_id@) && option == option_index)
                    &&& forall|election: Seq<u8>, option_count: nat| #[trigger]
                        count_election(final(self).vote_entries(), election, option_count)
                            == count_election(old(self).vote_entries(), election, option_count) + counted(
                            election == key_bytes(election_id@) && option_index < option_count,
                        )
                    &&& forall|election: Seq<u8>| #[trigger]
                        count_cast(final(self).vote_entries(), election) == count_cast(
                            old(self).vote_entries(),
                            election,
                        ) + counted(election == key_bytes(election_id@))
                },
                Err(why) => {
                    &&& old(self).cast_refusal(caller@, election_id@, option_index, now) == Some(
                        why,
                    )
                    &&& final(self).vote_entries() == old(self).vote_entries()
                },
            },
            final(self).election_entries() == old(self).election_entries(),
            old(self).tallies_whole() ==> final(self).tallies_whole(),
            final(self).admin_list() == old(self).admin_list(),
            final(self).system() == old(self).system(),
    {
        let election = match self.get_election(election_id) {
            Some(e) => e,
            None => {
                return Err(VotingError::NotFound);
            },
        };
        if election.status != ElectionStatus::Active {
            return Err(VotingError::InvalidState);
        }
        if now < election.start_time || now > election.end_time {
            return Err(VotingError::WindowClosed);
        }
        if option_index as usize >= election.details.options.len() {
            return Err(VotingError::InvalidInput);
        }
        let election_key = StableString::new(election_id.clone()).to_bytes();
        let voter_key = StableString::new(caller.clone()).to_bytes();
        let listing = self.votes.iterate();
        if has_vote_of(&listing, &election_key, &voter_key) {
            return Err(VotingError::DuplicateVote);
        }
        let mut vote = Vote {
            election_id: election_id.clone(),
            option_index,
            voter_id: caller.clone(),
            timestamp: now,
            verification_hash: String::new(),
        };
        let bytes = encode_vote(&vote);
        let hash = receipt_for(&bytes);
        vote.verification_hash = hash;
        let key = StableString::new(vote.verification_hash.clone()).to_bytes();
        if self.votes.contains(&key) {
            return Err(VotingError::DuplicateVote);
        }
        let ghost before = self.vote_entries();
        match self.votes.insert(&key, &bytes, MAX_VOTE_SIZE) {
            Ok(_) => {},
            Err(why) => {
                return Err(why);
            },
        }
        proof {
            let hash_text = vote.verification_hash@;
            assert forall|other: Seq<char>| #[trigger]
                receipt_in(self.vote_entries(), other) <==> receipt_in(before, other) || other
                    == hash_text by {
                lemma_lookup_put(before, key@, bytes@, key_bytes(other));
                if other != hash_text && key_bytes(other) == key@ {
                    crate::text::lemma_key_bytes_injective(other, hash_text);
                }
            }
            lemma_vote_roundtrip(election_key@, voter_key@, option_index, now);
            assert forall|election: Seq<u8>, option: int| #[trigger]
                count_option(self.vote_entries(), election, option) == count_option(
                    before,
                    election,
                    option,
                ) + counted(election == election_key@ && option == option_index) by {
                lemma_counts_after_put(before, key@, bytes@, election, option, 0);
            }
            assert forall|election: Seq<u8>, option_count: nat| #[trigger]
                count_election(self.vote_entries(), election, option_count) == count_election(
                    before,
                    election,
                    option_count,
                ) + counted(election == election_key@ && option_index < option_count) by {
                lemma_counts_after_put(before, key@, bytes@, election, 0, option_count);
            }
            assert forall|election: Seq<u8>| #[trigger]
                count_cast(self.vote_entries(), election) == count_cast(before, election) + counted(
                    election == election_key@,
                ) by {
                lemma_counts_after_put(before, key@, bytes@, election, 0, 0);
            }
            if old(self).tallies_whole() {
                assert forall|other: Seq<char>|
                    (#[trigger] election_in(self.election_entries(), other)) is Some
                    implies votes_in_range(
                    self.vote_entries(),
                    key_bytes(other),
                    self.election(other).unwrap().details.options.len(),
                ) by {
                    let e = self.election(other).unwrap();
                    assert(old(self).election(other) == Some(e));
                    if key_bytes(other) == election_key@ {
                        crate::text::lemma_key_bytes_injective(other, election_id@);
                    }
                    lemma_in_range_after_put(
                        before,
                        key@,
                        bytes@,
                        key_bytes(other),
                        e.details.options.len(),
                    );
                }
            }
            assert forall|voter: Seq<char>, election: Seq<char>| #[trigger]
                voted(self.vote_entries(), key_bytes(election), key_bytes(voter)) <==> voted(
                    before,
                    key_bytes(election),
                    key_bytes(voter),
                ) || (voter == caller@ && election == election_id@) by {
                lemma_voted_after_put(
                    before,
                    key@,
                    bytes@,
                    key_bytes(election),
                    key_bytes(voter),
                );
                if key_bytes(election) == election_key@ {
                    crate::text::lemma_key_bytes_injective(election, election_id@);
                }
                if key_bytes(voter) == voter_key@ {
                    crate::text::lemma_key_bytes_injective(voter, caller@);
                }
            }
        }
        Ok(VoteReceipt { verification_hash: vote.verification_hash, timestamp: now })
    }

    /// Whether the receipt belongs to a stored vote.
    pub fn verify_vote(&self, verification_hash: &String) -> (r: bool)
        ensures
            r == self.receipt_known(verification_hash@),
    {
        let key = StableString::new(verification_hash.clone()).to_bytes();
        self.votes.contains(&key)
    }

    /// The tally of a completed election: for each option the number of
    /// stored votes in the election that chose it, and their total.
    pub fn get_election_results(&self, election_id: &String) -> (r: Option<ElectionResult>)
        ensures
            r is Some <==> (self.election(election_id@) matches Some(e) && e.status
                == ElectionStatus::Completed),
            r matches Some(res) ==> {
                let e = self.election(election_id@).unwrap();
                &&& res.election_id@ == election_id@
                &&& res.title@ == e.details.title
                &&& texts_of(res.options@) == e.details.options
                &&& res.vote_counts@.len() == e.details.options.len()
                &&& forall|j: int|
                    0 <= j < e.details.options.len() ==> #[trigger] res.vote_counts@[j]
                        == count_option(self.vote_entries(), key_bytes(election_id@), j)
                &&& res.total_votes == count_election(
                    self.vote_entries(),
                    key_bytes(election_id@),
                    e.details.options.len(),
                )
                &&& sum(res.vote_counts@) == res.total_votes
                &&& votes_in_range(
                    self.vote_entries(),
                    key_bytes(election_id@),
                    e.details.options.len(),
                ) ==> res.total_votes == count_cast(self.vote_entries(), key_bytes(election_id@))
                &&& self.tallies_whole() ==> res.total_votes == count_cast(
                    self.vote_entries(),
                    key_bytes(election_id@),
                )
            },
    {
        let election = match self.get_election(election_id) {
            Some(e) => e,
            None => {
                return None;
            },
        };
        if election.status != ElectionStatus::Completed {
            return None;
        }
        let key = StableString::new(election_id.clone()).to_bytes();
        let listing = self.votes.iterate();
        proof {
            let cast = self.vote_entries();
            let options = election.details.options@.len() as nat;
            if votes_in_range(cast, key@, options) {
                lemma_total_is_votes_cast(cast, key@, options);
            }
        }
        let (vote_counts, total_votes) = tally_votes(
            &listing,
            &key,
            election.details.options.len(),
        );
        Some(
            ElectionResult {
                election_id: election_id.clone(),
                title: election.details.title,
                options: election.details.options,
                vote_counts,
                total_votes,
            },
        )
    }
}

/// A voter whose vote in an election is stored gets no second one: every
/// further attempt is refused, and as a duplicate wherever the election
/// still takes votes at that time for that option.
pub proof fn lemma_one_vote_per_voter(
    service: VotingService,
    voter: Seq<char>,
    election: Seq<char>,
    option_index: u32,
    now: u64,
)
    requires
        service.has_voted(voter, election),
    ensures
        service.cast_refusal(voter, election, option_index, now) is Some,
        service.election(election) matches Some(e) && e.status == ElectionStatus::Active
            && e.start_time <= now <= e.end_time && option_index < e.details.options.len()
            ==> service.cast_refusal(voter, election, option_index, now) == Some(
            VotingError::DuplicateVote,
        ),
{
}

/// The first vote of a voter in an election that takes votes at that time
/// is accepted, where its stored form is within the bound of a vote and its
/// receipt is not the receipt of another stored vote.
pub proof fn lemma_first_vote_is_taken(
    service: VotingService,
    voter: Seq<char>,
    election: Seq<char>,
    option_index: u32,
    now: u64,
)
    requires
        service.election(election) matches Some(e) && e.status == ElectionStatus::Active
            && e.start_time <= now <= e.end_time && option_index < e.details.options.len(),
        !service.has_voted(voter, election),
        !service.receipt_known(receipt_text(stored_vote(voter, election, option_index, now))),
        stored_vote(voter, election, option_index, now).len() <= MAX_VOTE_SIZE,
    ensures
        service.cast_refusal(voter, election, option_index, now) is None,
{
}

/// A vote that would be refused for the election's status, for the time or
/// for the option is refused whether or not the voter has voted before.
pub proof fn lemma_closed_election_takes_no_vote(
    service: VotingService,
    voter: Seq<char>,
    election: Seq<char>,
    option_index: u32,
    now: u64,
)
    requires
        service.election(election) matches Some(e) ==> e.status != ElectionStatus::Active || now
            < e.start_time || now > e.end_time || option_index >= e.details.options.len(),
    ensures
        service.cast_refusal(voter, election, option_index, now) is Some,
        service.cast_refusal(voter, election, option_index, now) != Some(
            VotingError::DuplicateVote,
        ),
        service.cast_refusal(voter, election, option_index, now) != Some(
            VotingError::SizeExceeded,
        ),
{
}

} // verus!
