use digivoter::record::VotingError;
use digivoter::store::{BoundedStore, MAX_KEY_SIZE, MAX_VALUE_SIZE};

fn bytes(s: &str) -> Vec<u8> {
    s.as_bytes().to_vec()
}

#[test]
fn region_keeps_what_is_inserted() {
    let (mut first, second) = BoundedStore::open_pair();
    assert_eq!(first.get(&bytes("k")), None);
    assert!(!first.contains(&bytes("k")));
    assert_eq!(first.insert(&bytes("k"), &bytes("one"), 16), Ok(()));
    assert_eq!(first.get(&bytes("k")), Some(bytes("one")));
    assert!(first.contains(&bytes("k")));
    assert!(!first.contains(&bytes("k2")));
    assert_eq!(first.insert(&bytes("k"), &bytes("two"), 16), Ok(()));
    assert_eq!(first.get(&bytes("k")), Some(bytes("two")));
    assert_eq!(first.iterate(), vec![(bytes("k"), bytes("two"))]);
    assert_eq!(second.get(&bytes("k")), None);
    assert!(second.iterate().is_empty());
}

#[test]
fn regions_do_not_share_keys() {
    let (mut first, mut second) = BoundedStore::open_pair();
    assert_eq!(first.insert(&bytes("k"), &bytes("a"), 8), Ok(()));
    assert_eq!(second.insert(&bytes("k"), &bytes("b"), 8), Ok(()));
    assert_eq!(first.get(&bytes("k")), Some(bytes("a")));
    assert_eq!(second.get(&bytes("k")), Some(bytes("b")));
    assert!(first.remove(&bytes("k")));
    assert_eq!(first.get(&bytes("k")), None);
    assert_eq!(second.get(&bytes("k")), Some(bytes("b")));
}

#[test]
fn region_lists_entries_in_key_order() {
    let (mut region, _) = BoundedStore::open_pair();
    for key in ["b", "", "ab", "a", "c", "b0"] {
        assert_eq!(region.insert(&bytes(key), &bytes(&key.to_uppercase()), 8), Ok(()));
    }
    assert_eq!(region.insert(&vec![0xff], &vec![1], 8), Ok(()));
    assert_eq!(region.insert(&bytes("ab"), &bytes("again"), 8), Ok(()));
    let listed = region.iterate();
    let keys: Vec<Vec<u8>> = listed.iter().map(|e| e.0.clone()).collect();
    assert_eq!(
        keys,
        vec![bytes(""), bytes("a"), bytes("ab"), bytes("b"), bytes("b0"), bytes("c"), vec![0xff]]
    );
    assert_eq!(listed[2].1, bytes("again"));
    assert_eq!(listed[3].1, bytes("B"));
}

#[test]
fn region_removes_only_the_named_entry() {
    let (mut region, _) = BoundedStore::open_pair();
    assert_eq!(region.insert(&bytes("a"), &bytes("1"), 8), Ok(()));
    assert_eq!(region.insert(&bytes("b"), &bytes("2"), 8), Ok(()));
    assert!(!region.remove(&bytes("c")));
    assert!(region.remove(&bytes("a")));
    assert!(!region.remove(&bytes("a")));
    assert_eq!(region.iterate(), vec![(bytes("b"), bytes("2"))]);
    assert!(!region.remove(&vec![7; MAX_KEY_SIZE + 1]));
}

#[test]
fn region_refuses_what_exceeds_its_bounds() {
    let (mut region, _) = BoundedStore::open_pair();
    let long_key = vec![1u8; MAX_KEY_SIZE + 1];
    assert_eq!(
        region.insert(&long_key, &bytes("v"), 8),
        Err(VotingError::SizeExceeded)
    );
    assert_eq!(region.get(&long_key), None);
    assert!(!region.contains(&long_key));
    assert_eq!(
        region.insert(&bytes("k"), &vec![0; 9], 8),
        Err(VotingError::SizeExceeded)
    );
    assert_eq!(
        region.insert(&bytes("k"), &vec![0; MAX_VALUE_SIZE + 1], usize::MAX),
        Err(VotingError::SizeExceeded)
    );
    assert!(region.iterate().is_empty());
    assert_eq!(region.insert(&vec![1u8; MAX_KEY_SIZE], &vec![2; MAX_VALUE_SIZE], usize::MAX), Ok(()));
    assert_eq!(region.get(&vec![1u8; MAX_KEY_SIZE]), Some(vec![2; MAX_VALUE_SIZE]));
    assert_eq!(region.insert(&bytes("k"), &vec![0; 8], 8), Ok(()));
    assert_eq!(region.insert(&bytes("e"), &vec![], 0), Ok(()));
    assert_eq!(region.get(&bytes("e")), Some(vec![]));
}
