//! A persistent, size-bounded key/value region with keys in byte order.

use ic_stable_structures::memory_manager::{MemoryId, MemoryManager, VirtualMemory};
use ic_stable_structures::storable::Blob;
use ic_stable_structures::{DefaultMemoryImpl, StableBTreeMap};
use crate::record::VotingError;
use vstd::prelude::*;

verus! {

/// The longest key a region accepts, in bytes.
pub const MAX_KEY_SIZE: usize = 1024;

/// The number of the region that holds the elections.
pub const ELECTION_REGION: u8 = 0;

/// The number of the region that holds the votes.
pub const VOTE_REGION: u8 = 1;

/// The longest value a region can physically hold, in bytes.
pub const MAX_VALUE_SIZE: usize = 2048;

/// One region of the partitioned stable memory, holding a B-tree map from
/// byte keys to byte values.
#[verifier::external_body]
pub struct BoundedStore {
    inner: StableBTreeMap<Blob<1024>, Blob<2048>, VirtualMemory<DefaultMemoryImpl>>,
}

/// What a region holds: its entries, listed in the order of their keys.
pub uninterp spec fn store_entries(store: BoundedStore) -> Seq<(Seq<u8>, Seq<u8>)>;

impl View for BoundedStore {
    type V = Seq<(Seq<u8>, Seq<u8>)>;

    open spec fn view(&self) -> Seq<(Seq<u8>, Seq<u8>)> {
        store_entries(*self)
    }
}

/// Lexicographic order on byte strings, the order in which keys are kept.
pub open spec fn bytes_lt(a: Seq<u8>, b: Seq<u8>) -> bool
    decreases a.len(),
{
    if b.len() == 0 {
        false
    } else if a.len() == 0 {
        true
    } else if a[0] != b[0] {
        a[0] < b[0]
    } else {
        bytes_lt(a.skip(1), b.skip(1))
    }
}

/// Whether the entries stand in the strict order of their keys, so that no
/// key is listed twice.
pub open spec fn ordered(entries: Seq<(Seq<u8>, Seq<u8>)>) -> bool {
    forall|i: int, j: int|
        0 <= i < j < entries.len() ==> bytes_lt(#[trigger] entries[i].0, #[trigger] entries[j].0)
}

/// Whether the listing is one that a region can hold: the entries stand in
/// the strict order of their keys, and every key and every value is within
/// the region's bounds.
pub open spec fn holdable(entries: Seq<(Seq<u8>, Seq<u8>)>) -> bool {
    &&& ordered(entries)
    &&& forall|i: int|
        0 <= i < entries.len() ==> (#[trigger] entries[i]).0.len() <= MAX_KEY_SIZE
            && entries[i].1.len() <= MAX_VALUE_SIZE
}

/// The value listed under `key`, if any.
pub open spec fn lookup(entries: Seq<(Seq<u8>, Seq<u8>)>, key: Seq<u8>) -> Option<Seq<u8>>
    decreases entries.len(),
{
    if entries.len() == 0 {
        None
    } else if entries[0].0 == key {
        Some(entries[0].1)
    } else {
        lookup(entries.skip(1), key)
    }
}

/// The listing after `key` is bound to `value`: an existing entry is
/// replaced in place, a new one is put before the first greater key.
pub open spec fn put(entries: Seq<(Seq<u8>, Seq<u8>)>, key: Seq<u8>, value: Seq<u8>) -> Seq<
    (Seq<u8>, Seq<u8>),
>
    decreases entries.len(),
{
    if entries.len() == 0 {
        seq![(key, value)]
    } else if entries[0].0 == key {
        seq![(key, value)] + entries.skip(1)
    } else if bytes_lt(key, entries[0].0) {
        seq![(key, value)] + entries
    } else {
        seq![entries[0]] + put(entries.skip(1), key, value)
    }
}

/// The listing without the entries under `key`.
pub open spec fn del(entries: Seq<(Seq<u8>, Seq<u8>)>, key: Seq<u8>) -> Seq<(Seq<u8>, Seq<u8>)>
    decreases entries.len(),
{
    if entries.len() == 0 {
        entries
    } else if entries[0].0 == key {
        del(entries.skip(1), key)
    } else {
        seq![entries[0]] + del(entries.skip(1), key)
    }
}

pub proof fn lemma_lookup_cons(
    head: (Seq<u8>, Seq<u8>),
    rest: Seq<(Seq<u8>, Seq<u8>)>,
    key: Seq<u8>,
)
    ensures
        lookup(seq![head] + rest, key) == if head.0 == key {
            Some(head.1)
        } else {
            lookup(rest, key)
        },
{
    let all = seq![head] + rest;
    assert(all[0] == head);
    assert(all.skip(1) =~= rest);
}

/// After `put`, the key reads as the new value and every other key as before.
pub proof fn lemma_lookup_put(
    entries: Seq<(Seq<u8>, Seq<u8>)>,
    key: Seq<u8>,
    value: Seq<u8>,
    other: Seq<u8>,
)
    ensures
        lookup(put(entries, key, value), other) == if other == key {
            Some(value)
        } else {
            lookup(entries, other)
        },
    decreases entries.len(),
{
    if entries.len() == 0 {
        lemma_lookup_cons((key, value), Seq::empty(), other);
        assert(seq![(key, value)] + Seq::<(Seq<u8>, Seq<u8>)>::empty() =~= seq![(key, value)]);
    } else if entries[0].0 == key {
        lemma_lookup_cons((key, value), entries.skip(1), other);
    } else if bytes_lt(key, entries[0].0) {
        lemma_lookup_cons((key, value), entries, other);
    } else {
        lemma_lookup_put(entries.skip(1), key, value, other);
        lemma_lookup_cons(entries[0], put(entries.skip(1), key, value), other);
    }
}

/// After `del`, the key reads as absent and every other key as before.
pub proof fn lemma_lookup_del(entries: Seq<(Seq<u8>, Seq<u8>)>, key: Seq<u8>, other: Seq<u8>)
    ensures
        lookup(del(entries, key), other) == if other == key {
            None
        } else {
            lookup(entries, other)
        },
    decreases entries.len(),
{
    if entries.len() == 0 {
    } else {
        lemma_lookup_del(entries.skip(1), key, other);
        if entries[0].0 != key {
            lemma_lookup_cons(entries[0], del(entries.skip(1), key), other);
        }
    }
}

/// `MemoryManager::init`, `MemoryManager::get` and `StableBTreeMap::init`:
/// opens the two regions of the partitioned memory. A region that was
/// written before is loaded with what it held, so of the contents only what
/// holds of every such map is claimed: its entries are sorted by key, and
/// its keys and values are blobs within their bounds. A region that was
/// written with smaller bounds is not loaded: the call does not return.
/// The two numbers name the regions; the number 255 names none.
#[verifier::external_body]
fn open_regions(first: u8, second: u8) -> (r: (BoundedStore, BoundedStore))
    requires
        first != 255,
        second != 255,
        first != second,
    ensures
        holdable(store_entries(r.0)),
        holdable(store_entries(r.1)),
{
    let manager = MemoryManager::init(DefaultMemoryImpl::default());
    let one = StableBTreeMap::init(manager.get(MemoryId::new(first)));
    let other = StableBTreeMap::init(manager.get(MemoryId::new(second)));
    (BoundedStore { inner: one }, BoundedStore { inner: other })
}

impl BoundedStore {
    /// `StableBTreeMap::get`: the value stored under the key, if there is one.
    /// No stored value is longer than the region's bound.
    #[verifier::external_body]
    fn raw_get(&self, key: &Vec<u8>) -> (r: Option<Vec<u8>>)
        requires
            key@.len() <= MAX_KEY_SIZE,
        ensures
            r is Some <==> lookup(store_entries(*self), key@) is Some,
            r matches Some(v) ==> lookup(store_entries(*self), key@) == Some(v@) && v@.len()
                <= MAX_VALUE_SIZE,
    {
        let k = Blob::<1024>::try_from(key.as_slice()).unwrap();
        match self.inner.get(&k) {
            Some(v) => Some(v.as_slice().to_vec()),
            None => None,
        }
    }

    /// `StableBTreeMap::contains_key`: whether the key has an entry.
    #[verifier::external_body]
    fn raw_contains_key(&self, key: &Vec<u8>) -> (r: bool)
        requires
            key@.len() <= MAX_KEY_SIZE,
        ensures
            r == lookup(store_entries(*self), key@) is Some,
    {
        let k = Blob::<1024>::try_from(key.as_slice()).unwrap();
        self.inner.contains_key(&k)
    }

    /// `StableBTreeMap::insert`: binds the key to the value, replacing the
    /// entry the key had; every other entry stays where it was. The call
    /// does not return where the memory cannot grow any further.
    #[verifier::external_body]
    fn raw_insert(&mut self, key: &Vec<u8>, value: &Vec<u8>)
        requires
            key@.len() <= MAX_KEY_SIZE,
            value@.len() <= MAX_VALUE_SIZE,
        ensures
            store_entries(*final(self)) == put(store_entries(*old(self)), key@, value@),
    {
        let k = Blob::<1024>::try_from(key.as_slice()).unwrap();
        let v = Blob::<2048>::try_from(value.as_slice()).unwrap();
        self.inner.insert(k, v);
    }

    /// `StableBTreeMap::remove`: drops the key's entry; every other entry
    /// stays where it was.
    #[verifier::external_body]
    fn raw_remove(&mut self, key: &Vec<u8>)
        requires
            key@.len() <= MAX_KEY_SIZE,
        ensures
            store_entries(*final(self)) == del(store_entries(*old(self)), key@),
    {
        let k = Blob::<1024>::try_from(key.as_slice()).unwrap();
        self.inner.remove(&k);
    }

    /// `StableBTreeMap::iter`: every entry, in the ascending order of the
    /// keys, which are compared as byte strings.
    #[verifier::external_body]
    fn raw_iter(&self) -> (r: Vec<(Vec<u8>, Vec<u8>)>)
        ensures
            forall|i: int, j: int|
                0 <= i < j < r@.len() ==> bytes_lt(#[trigger] r@[i].0@, #[trigger] r@[j].0@),
            r@.len() == store_entries(*self).len(),
            forall|i: int|
                0 <= i < r@.len() ==> (#[trigger] r@[i]).0@ == store_entries(*self)[i].0 && r@[i].1@
                    == store_entries(*self)[i].1,
    {
        let mut out = Vec::new();
        for (k, v) in self.inner.iter() {
            out.push((k.as_slice().to_vec(), v.as_slice().to_vec()));
        }
        out
    }

    /// The value under the key, where the key is one that the region can
    /// hold.
    pub open spec fn value_at(&self, key: Seq<u8>) -> Option<Seq<u8>> {
        if key.len() > MAX_KEY_SIZE {
            None
        } else {
            lookup(self@, key)
        }
    }

    /// Opens the two regions of the partitioned memory: the first for
    /// elections, the second for votes. Each comes with what it held
    /// before, which is a listing that a region can hold. The memory is the
    /// one persistent memory of the process, so a process opens the pair
    /// once: a second pair would be laid over the same bytes as the first.
    pub fn open_pair() -> (r: (BoundedStore, BoundedStore))
        ensures
            holdable(r.0@),
            holdable(r.1@),
    {
        open_regions(ELECTION_REGION, VOTE_REGION)
    }

    /// The value stored under the key.
    pub fn get(&self, key: &Vec<u8>) -> (r: Option<Vec<u8>>)
        ensures
            r is Some <==> self.value_at(key@) is Some,
            r matches Some(v) ==> self.value_at(key@) == Some(v@) && v@.len() <= MAX_VALUE_SIZE,
    {
        if key.len() > MAX_KEY_SIZE {
            None
        } else {
            self.raw_get(key)
        }
    }

    /// Whether the key has an entry.
    pub fn contains(&self, key: &Vec<u8>) -> (r: bool)
        ensures
            r == self.value_at(key@) is Some,
    {
        key.len() <= MAX_KEY_SIZE && self.raw_contains_key(key)
    }

    /// Binds the key to the value, in place of the value it had. A key
    /// longer than the region's bound, or a value longer than `limit` or
    /// than the region can hold, is refused and nothing is written.
    pub fn insert(&mut self, key: &Vec<u8>, value: &Vec<u8>, limit: usize) -> (r: Result<
        (),
        VotingError,
    >)
        ensures
            r is Err <==> key@.len() > MAX_KEY_SIZE || value@.len() > limit || value@.len()
                > MAX_VALUE_SIZE,
            r is Err ==> r == Err::<(), VotingError>(VotingError::SizeExceeded) && final(self)@
                == old(self)@,
            r is Ok ==> final(self)@ == put(old(self)@, key@, value@),
            r is Ok ==> forall|other: Seq<u8>|
                #[trigger] final(self).value_at(other) == if other == key@ {
                    Some(value@)
                } else {
                    old(self).value_at(other)
                },
    {
        if key.len() > MAX_KEY_SIZE || value.len() > limit || value.len() > MAX_VALUE_SIZE {
            return Err(VotingError::SizeExceeded);
        }
        let ghost before = self@;
        self.raw_insert(key, value);
        proof {
            assert forall|other: Seq<u8>|
                #[trigger] self.value_at(other) == if other == key@ {
                    Some(value@)
                } else {
                    if other.len() > MAX_KEY_SIZE {
                        None
                    } else {
                        lookup(before, other)
                    }
                } by {
                lemma_lookup_put(before, key@, value@, other);
            }
        }
        Ok(())
    }

    /// Drops the entry of the key, and says whether there was one.
    pub fn remove(&mut self, key: &Vec<u8>) -> (r: bool)
        ensures
            r == old(self).value_at(key@) is Some,
            r ==> final(self)@ == del(old(self)@, key@),
            !r ==> final(self)@ == old(self)@,
            forall|other: Seq<u8>|
                #[trigger] final(self).value_at(other) == if other == key@ {
                    None
                } else {
                    old(self).value_at(other)
                },
    {
        if !self.contains(key) {
            return false;
        }
        let ghost before = self@;
        self.raw_remove(key);
        proof {
            assert forall|other: Seq<u8>|
                #[trigger] self.value_at(other) == if other == key@ {
                    None
                } else {
                    if other.len() > MAX_KEY_SIZE {
                        None
                    } else {
                        lookup(before, other)
                    }
                } by {
                lemma_lookup_del(before, key@, other);
            }
        }
        true
    }

    /// Every entry, in the order of the keys.
    pub fn iterate(&self) -> (r: Vec<(Vec<u8>, Vec<u8>)>)
        ensures
            r@.map_values(|e: (Vec<u8>, Vec<u8>)| (e.0@, e.1@)) == self@,
            ordered(self@),
    {
        let r = self.raw_iter();
        assert(r@.map_values(|e: (Vec<u8>, Vec<u8>)| (e.0@, e.1@)) =~= self@);
        assert forall|i: int, j: int| 0 <= i < j < self@.len() implies bytes_lt(
            #[trigger] self@[i].0,
            #[trigger] self@[j].0,
        ) by {
            assert(bytes_lt(r@[i].0@, r@[j].0@));
        }
        r
    }
}

} // verus!
