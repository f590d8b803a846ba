use digivoter::ballot::{
    bytes_equal, encode_vote, hex_text, receipt_for, vote_is_of, vote_target, Vote,
};
use digivoter::registry::has_vote_of;
use digivoter::details::{decode_details, encode_details, ElectionDetails};
use digivoter::lifecycle::{delay_until, plan_timers};
use digivoter::record::{
    decode_election, encode_election, Election, ElectionStatus, VotingError,
};
use digivoter::service::VotingService;
use digivoter::tally::tally_votes;
use digivoter::text::StableString;

const T0: u64 = 5_000;

fn text(s: &str) -> String {
    s.to_string()
}

fn labels(n: usize) -> Vec<String> {
    (0..n).map(|i| format!("option {}", i)).collect()
}

fn pending(svc: &mut VotingService, id: &str, options: usize, now: u64) {
    svc.create_election(text(id), text("T"), text("D"), labels(options), T0, T0 + 100, now)
        .unwrap();
}

fn active_election(id: &str, options: usize) -> VotingService {
    let mut svc = VotingService::new(text("admin"), text("system"));
    pending(&mut svc, id, options, T0);
    assert!(svc.start_election(&text("system"), &text(id)));
    svc
}

#[test]
fn second_vote_of_a_voter_is_a_duplicate() {
    let mut svc = active_election("e1", 3);
    let first = svc.cast_vote(&text("V1"), &text("e1"), 0, T0 + 1).unwrap();
    assert_eq!(
        svc.cast_vote(&text("V1"), &text("e1"), 0, T0 + 2).unwrap_err(),
        VotingError::DuplicateVote
    );
    assert_eq!(
        svc.cast_vote(&text("V1"), &text("e1"), 2, T0 + 3).unwrap_err(),
        VotingError::DuplicateVote
    );
    assert!(svc.cast_vote(&text("V2"), &text("e1"), 2, T0 + 3).is_ok());
    assert!(svc.verify_vote(&first.verification_hash));
    assert!(svc.end_election_sync(&text("e1")));
    let result = svc.get_election_results(&text("e1")).unwrap();
    assert_eq!(result.vote_counts, vec![1, 0, 1]);
    assert_eq!(result.total_votes, 2);
}

#[test]
fn one_voter_may_vote_in_two_elections() {
    let mut svc = active_election("e1", 2);
    pending(&mut svc, "e2", 2, T0);
    assert!(svc.start_election(&text("system"), &text("e2")));
    let r1 = svc.cast_vote(&text("V1"), &text("e1"), 0, T0).unwrap();
    let r2 = svc.cast_vote(&text("V1"), &text("e2"), 1, T0).unwrap();
    assert_ne!(r1.verification_hash, r2.verification_hash);
    assert!(svc.end_election_sync(&text("e1")));
    assert!(svc.end_election_sync(&text("e2")));
    let a = svc.get_election_results(&text("e1")).unwrap();
    let b = svc.get_election_results(&text("e2")).unwrap();
    assert_eq!((a.vote_counts, a.total_votes), (vec![1, 0], 1));
    assert_eq!((b.vote_counts, b.total_votes), (vec![0, 1], 1));
}

#[test]
fn only_handed_out_receipts_verify() {
    let mut svc = active_election("e1", 2);
    let expected = "5042e0787594949c8f9579904db8ed83943106bf2d9c02e06ef8460716bdd49f";
    assert!(!svc.verify_vote(&text(expected)));
    let receipt = svc.cast_vote(&text("V1"), &text("e1"), 1, T0 + 1).unwrap();
    assert_eq!(receipt.verification_hash, expected);
    assert_eq!(receipt.timestamp, T0 + 1);
    assert!(svc.verify_vote(&receipt.verification_hash));
    assert!(!svc.verify_vote(&expected[..63].to_string()));
    assert!(!svc.verify_vote(&format!("{}0", expected)));
    assert!(!svc.verify_vote(&expected.to_uppercase()));
    assert!(!svc.verify_vote(&text("e1:V1")));
    assert!(!svc.verify_vote(&text("")));
    assert!(!svc.verify_vote(&"z".repeat(2000)));
    let other = svc.cast_vote(&text("V2"), &text("e1"), 1, T0 + 1).unwrap();
    assert_ne!(other.verification_hash, receipt.verification_hash);
    assert!(svc.verify_vote(&other.verification_hash));
    assert!(svc.verify_vote(&receipt.verification_hash));
}

#[test]
fn results_are_withheld_until_completion() {
    let mut svc = VotingService::new(text("admin"), text("system"));
    pending(&mut svc, "e1", 2, T0);
    assert!(svc.get_election_results(&text("e1")).is_none());
    assert!(svc.start_election(&text("system"), &text("e1")));
    svc.cast_vote(&text("V1"), &text("e1"), 0, T0).unwrap();
    assert!(svc.get_election_results(&text("e1")).is_none());
    assert!(svc.end_election_sync(&text("e1")));
    let result = svc.get_election_results(&text("e1")).unwrap();
    assert_eq!(result.vote_counts.iter().sum::<u64>(), result.total_votes);
    assert_eq!(result.total_votes, 1);
}

#[test]
fn tally_counts_every_vote_of_the_election_once() {
    let mut svc = active_election("e1", 3);
    pending(&mut svc, "e10", 3, T0);
    assert!(svc.start_election(&text("system"), &text("e10")));
    let picks = [0u32, 2, 2, 1, 2, 0, 2];
    for (i, pick) in picks.iter().enumerate() {
        svc.cast_vote(&format!("voter{}", i), &text("e1"), *pick, T0 + 1).unwrap();
    }
    svc.cast_vote(&text("voter0"), &text("e10"), 1, T0 + 1).unwrap();
    assert!(svc.end_election_sync(&text("e1")));
    let result = svc.get_election_results(&text("e1")).unwrap();
    assert_eq!(result.vote_counts, vec![2, 1, 4]);
    assert_eq!(result.total_votes, 7);
    assert_eq!(result.vote_counts.iter().sum::<u64>(), result.total_votes);
}

#[test]
fn refused_votes_change_nothing() {
    let mut svc = VotingService::new(text("admin"), text("system"));
    pending(&mut svc, "e1", 2, T0 - 1);
    assert_eq!(
        svc.cast_vote(&text("V1"), &text("e1"), 0, T0 + 1).unwrap_err(),
        VotingError::InvalidState
    );
    assert!(svc.start_election(&text("system"), &text("e1")));
    assert_eq!(
        svc.cast_vote(&text("V1"), &text("e1"), 0, T0 - 1).unwrap_err(),
        VotingError::WindowClosed
    );
    assert_eq!(
        svc.cast_vote(&text("V1"), &text("e1"), 0, T0 + 101).unwrap_err(),
        VotingError::WindowClosed
    );
    assert_eq!(
        svc.cast_vote(&text("V1"), &text("e1"), 2, T0 + 1).unwrap_err(),
        VotingError::InvalidInput
    );
    assert_eq!(
        svc.cast_vote(&text("V1"), &text("e1"), u32::MAX, T0 + 1).unwrap_err(),
        VotingError::InvalidInput
    );
    assert!(svc.end_election_sync(&text("e1")));
    assert_eq!(svc.get_election_results(&text("e1")).unwrap().total_votes, 0);
    let mut svc = active_election("e1", 2);
    assert!(svc.cast_vote(&text("V1"), &text("e1"), 1, T0).is_ok());
    assert!(svc.cast_vote(&text("V2"), &text("e1"), 1, T0 + 100).is_ok());
    assert!(svc.end_election_sync(&text("e1")));
    assert_eq!(
        svc.cast_vote(&text("V3"), &text("e1"), 0, T0 + 50).unwrap_err(),
        VotingError::InvalidState
    );
    let result = svc.get_election_results(&text("e1")).unwrap();
    assert_eq!(result.vote_counts, vec![0, 2]);
    assert_eq!(result.total_votes, 2);
}

#[test]
fn oversized_vote_is_refused() {
    let mut svc = active_election("e1", 2);
    let voter = "v".repeat(1100);
    assert_eq!(
        svc.cast_vote(&voter, &text("e1"), 0, T0).unwrap_err(),
        VotingError::SizeExceeded
    );
    let fits = "v".repeat(1024 - 20 - 2);
    assert!(svc.cast_vote(&fits, &text("e1"), 0, T0).is_ok());
    let one_more = "w".repeat(1024 - 20 - 2 + 1);
    assert_eq!(
        svc.cast_vote(&one_more, &text("e1"), 0, T0).unwrap_err(),
        VotingError::SizeExceeded
    );
}

#[test]
fn receipt_is_the_digest_in_hexadecimal() {
    assert_eq!(hex_text(&vec![0x00, 0x0f, 0xa5, 0xff, 0x10]), "000fa5ff10");
    assert_eq!(hex_text(&vec![]), "");
    assert_eq!(
        receipt_for(&b"abc".to_vec()),
        "ba7816bf8f01cfea414140de5dae2223b00361a396177a9cb410ff61f20015ad"
    );
    assert_eq!(
        receipt_for(&vec![]),
        "e3b0c44298fc1c149afbf4c8996fb92427ae41e4649b934ca495991b7852b855"
    );
}

#[test]
fn voters_are_read_off_the_stored_votes() {
    let vote = stored_vote("e1", "alice", 0);
    assert!(vote_is_of(&vote, &b"e1".to_vec(), &b"alice".to_vec()));
    assert!(!vote_is_of(&vote, &b"e1".to_vec(), &b"alic".to_vec()));
    assert!(!vote_is_of(&vote, &b"e1a".to_vec(), &b"lice".to_vec()));
    assert!(!vote_is_of(&vote, &b"e".to_vec(), &b"1alice".to_vec()));
    assert!(!vote_is_of(&vote[..19].to_vec(), &b"e1".to_vec(), &b"alice".to_vec()));
    assert!(!vote_is_of(&vec![], &vec![], &vec![]));
    let listing = vec![
        (b"k1".to_vec(), stored_vote("e1", "a", 0)),
        (b"k2".to_vec(), vec![9, 9]),
        (b"k3".to_vec(), stored_vote("e2", "b", 1)),
    ];
    assert!(has_vote_of(&listing, &b"e1".to_vec(), &b"a".to_vec()));
    assert!(has_vote_of(&listing, &b"e2".to_vec(), &b"b".to_vec()));
    assert!(!has_vote_of(&listing, &b"e1".to_vec(), &b"b".to_vec()));
    assert!(!has_vote_of(&listing, &b"e2".to_vec(), &b"a".to_vec()));
    assert!(!has_vote_of(&Vec::new(), &b"e1".to_vec(), &b"a".to_vec()));
}

#[test]
fn a_voter_named_like_part_of_an_election_is_another_voter() {
    let mut svc = active_election("e1", 2);
    pending(&mut svc, "e", 2, T0);
    assert!(svc.start_election(&text("system"), &text("e")));
    assert!(svc.cast_vote(&text("1x"), &text("e"), 0, T0).is_ok());
    assert!(svc.cast_vote(&text("x"), &text("e1"), 0, T0).is_ok());
    assert!(svc.cast_vote(&text("V:1"), &text("e1"), 1, T0).is_ok());
    assert_eq!(
        svc.cast_vote(&text("x"), &text("e1"), 1, T0 + 9).unwrap_err(),
        VotingError::DuplicateVote
    );
}

#[test]
fn timers_are_planned_for_times_ahead() {
    let plan = plan_timers(100, 200, 50);
    assert_eq!(plan.activate_after, Some(50));
    assert_eq!(plan.complete_after, Some(150));
    let plan = plan_timers(100, 200, 150);
    assert_eq!(plan.activate_after, None);
    assert_eq!(plan.complete_after, Some(50));
    let plan = plan_timers(100, 200, 200);
    assert_eq!(plan.activate_after, None);
    assert_eq!(plan.complete_after, None);
    assert_eq!(delay_until(100, 100), None);
    assert_eq!(delay_until(101, 100), Some(1));
    assert_eq!(delay_until(u64::MAX, 0), None);
    assert_eq!(delay_until(u64::MAX - 1, 0), Some(u64::MAX - 1));
    assert_eq!(delay_until(u64::MAX, u64::MAX / 2 + 1), None);
    assert_eq!(delay_until(u64::MAX - 1, u64::MAX / 2), Some(u64::MAX / 2));
}

#[test]
fn election_record_has_the_stated_layout() {
    let e = Election {
        id: text("e1"),
        details: ElectionDetails {
            title: text("T"),
            description: text(""),
            options: vec![text("yes"), text("no")],
        },
        start_time: 1,
        end_time: 0x0102,
        status: ElectionStatus::Active,
    };
    let bytes = encode_election(&e);
    let mut want = vec![1u8, 1, 0, 0, 0, 0, 0, 0, 0, 2, 1, 0, 0, 0, 0, 0, 0];
    want.extend_from_slice(&[1, 0, 0, 0, 0, 0, 0, 0, b'T']);
    want.extend_from_slice(&[0, 0, 0, 0, 0, 0, 0, 0]);
    want.extend_from_slice(&[3, 0, 0, 0, 0, 0, 0, 0, b'y', b'e', b's']);
    want.extend_from_slice(&[2, 0, 0, 0, 0, 0, 0, 0, b'n', b'o']);
    assert_eq!(bytes, want);
    let back = decode_election(text("e1"), &bytes).unwrap();
    assert_eq!(back.id, "e1");
    assert_eq!(back.status, ElectionStatus::Active);
    assert_eq!(back.start_time, 1);
    assert_eq!(back.end_time, 0x0102);
    assert_eq!(back.details.title, "T");
    assert_eq!(back.details.description, "");
    assert_eq!(back.details.options, vec![text("yes"), text("no")]);
    assert!(decode_election(text("e1"), &bytes[..16].to_vec()).is_none());
    assert!(decode_election(text("e1"), &bytes[..bytes.len() - 1].to_vec()).is_none());
    let mut bad = bytes.clone();
    bad[0] = 3;
    assert!(decode_election(text("e1"), &bad).is_none());
}

#[test]
fn details_are_framed_text() {
    let d = ElectionDetails {
        title: text("é"),
        description: text("about"),
        options: vec![],
    };
    let bytes = encode_details(&d);
    let mut want = vec![2u8, 0, 0, 0, 0, 0, 0, 0, 0xc3, 0xa9];
    want.extend_from_slice(&[5, 0, 0, 0, 0, 0, 0, 0]);
    want.extend_from_slice(b"about");
    assert_eq!(bytes, want);
    let back = decode_details(&bytes).unwrap();
    assert_eq!(back.title, "é");
    assert_eq!(back.description, "about");
    assert!(back.options.is_empty());
    assert!(decode_details(&vec![]).is_none());
    assert!(decode_details(&vec![0, 0, 0, 0, 0, 0, 0, 0]).is_none());
    assert!(decode_details(&vec![0; 16]).is_some());
    assert!(decode_details(&vec![0; 15]).is_none());
    assert!(decode_details(&bytes[..bytes.len() - 1].to_vec()).is_none());
    let mut not_text = vec![1u8, 0, 0, 0, 0, 0, 0, 0, 0xff];
    not_text.extend_from_slice(&[0; 8]);
    assert!(decode_details(&not_text).is_none());
    let mut huge = vec![0xffu8; 8];
    huge.extend_from_slice(&[0; 8]);
    assert!(decode_details(&huge).is_none());
}

fn stored_vote(election: &str, voter: &str, option_index: u32) -> Vec<u8> {
    encode_vote(&Vote {
        election_id: text(election),
        option_index,
        voter_id: text(voter),
        timestamp: 5,
        verification_hash: String::new(),
    })
}

#[test]
fn vote_record_has_the_stated_layout() {
    let bytes = stored_vote("e1", "v", 1);
    assert_eq!(
        bytes,
        vec![1, 0, 0, 0, 5, 0, 0, 0, 0, 0, 0, 0, 2, 0, 0, 0, 0, 0, 0, 0, b'e', b'1', b'v']
    );
    assert_eq!(vote_target(&bytes, &b"e1".to_vec()), Some(1));
    assert_eq!(vote_target(&bytes, &b"e".to_vec()), None);
    assert_eq!(vote_target(&bytes, &b"e1v".to_vec()), None);
    assert_eq!(vote_target(&bytes[..19].to_vec(), &b"e1".to_vec()), None);
    assert_eq!(vote_target(&bytes[..21].to_vec(), &b"e1".to_vec()), None);
    assert_eq!(vote_target(&bytes[..22].to_vec(), &b"e1".to_vec()), Some(1));
    assert!(bytes_equal(b"abc", b"abc"));
    assert!(!bytes_equal(b"abc", b"abd"));
    assert!(!bytes_equal(b"abc", b"ab"));
    assert!(bytes_equal(b"", b""));
}

#[test]
fn tally_passes_over_what_is_no_vote_of_the_election() {
    let listing = vec![
        (b"k1".to_vec(), stored_vote("e1", "a", 0)),
        (b"k2".to_vec(), stored_vote("e1", "b", 1)),
        (b"k3".to_vec(), stored_vote("e2", "a", 1)),
        (b"k4".to_vec(), stored_vote("e1", "c", 5)),
        (b"k5".to_vec(), vec![1, 2, 3]),
        (b"k6".to_vec(), stored_vote("e1", "d", 1)),
    ];
    let (counts, total) = tally_votes(&listing, &b"e1".to_vec(), 2);
    assert_eq!(counts, vec![1, 2]);
    assert_eq!(total, 3);
    let (counts, total) = tally_votes(&listing, &b"e2".to_vec(), 3);
    assert_eq!(counts, vec![0, 1, 0]);
    assert_eq!(total, 1);
    let (counts, total) = tally_votes(&listing, &b"e1".to_vec(), 0);
    assert_eq!(counts, Vec::<u64>::new());
    assert_eq!(total, 0);
    let (counts, total) = tally_votes(&Vec::new(), &b"e1".to_vec(), 2);
    assert_eq!(counts, vec![0, 0]);
    assert_eq!(total, 0);
}

#[test]
fn stable_string_keeps_its_text() {
    let s = StableString::new(text("héllo"));
    assert_eq!(s.as_str(), "héllo");
    assert_eq!(s.to_bytes(), "héllo".as_bytes().to_vec());
    assert_eq!(s.clone().into_string(), "héllo");
    let back = StableString::from_bytes("héllo".as_bytes().to_vec()).unwrap();
    assert_eq!(back.as_str(), "héllo");
    assert!(StableString::from_bytes(vec![0xff, 0xfe]).is_none());
    assert!(StableString::from_bytes(vec![0xc3]).is_none());
    assert_eq!(StableString::from_bytes(vec![]).unwrap().as_str(), "");
}

#[test]
fn votes_outlive_a_deleted_election() {
    let mut svc = active_election("e1", 3);
    let receipt = svc.cast_vote(&text("V1"), &text("e1"), 2, T0).unwrap();
    svc.cast_vote(&text("V2"), &text("e1"), 0, T0).unwrap();
    assert_eq!(svc.delete_election(&text("admin"), &text("e1")), Ok(()));
    assert!(svc.verify_vote(&receipt.verification_hash));
    assert!(svc.get_election_results(&text("e1")).is_none());
    assert_eq!(
        svc.create_election(text("e1"), text("T"), text("D"), labels(2), T0, T0 + 100, T0),
        Err(VotingError::InvalidInput)
    );
    assert!(svc.get_election(&text("e1")).is_none());
    pending(&mut svc, "e2", 2, T0);
    assert!(svc.start_election(&text("system"), &text("e2")));
    svc.cast_vote(&text("V1"), &text("e2"), 0, T0 + 1).unwrap();
    assert!(svc.end_election_sync(&text("e2")));
    let result = svc.get_election_results(&text("e2")).unwrap();
    assert_eq!(result.vote_counts, vec![1, 0]);
    assert_eq!(result.total_votes, 1);
}

#[test]
fn two_elections_are_tallied_apart() {
    let mut svc = VotingService::new(text("admin"), text("system"));
    svc.create_election(text("e1"), text("T"), text("D"), labels(2), 100, 200, 50).unwrap();
    svc.create_election(text("e2"), text("T"), text("D"), labels(3), 100, 200, 50).unwrap();
    assert_eq!(svc.activate_election(&text("admin"), &text("e1")), Ok(()));
    assert_eq!(svc.activate_election(&text("admin"), &text("e2")), Ok(()));
    svc.cast_vote(&text("V1"), &text("e1"), 0, 150).unwrap();
    svc.cast_vote(&text("V1"), &text("e2"), 2, 150).unwrap();
    svc.cast_vote(&text("V2"), &text("e2"), 1, 150).unwrap();
    assert_eq!(svc.end_election(&text("admin"), &text("e1")), Ok(()));
    assert_eq!(svc.end_election(&text("admin"), &text("e2")), Ok(()));
    let a = svc.get_election_results(&text("e1")).unwrap();
    let b = svc.get_election_results(&text("e2")).unwrap();
    assert_eq!((a.vote_counts, a.total_votes), (vec![1, 0], 1));
    assert_eq!((b.vote_counts, b.total_votes), (vec![0, 1, 1], 2));
}

#[test]
fn receipt_has_sixty_four_digits() {
    let mut svc = active_election("e1", 2);
    let receipt = svc.cast_vote(&"v".repeat(900), &text("e1"), 0, T0).unwrap();
    assert_eq!(receipt.verification_hash.len(), 64);
    assert!(receipt.verification_hash.bytes().all(|b| b.is_ascii_hexdigit()));
    assert_eq!(receipt_for(&vec![7; 3000]).len(), 64);
}

#[test]
fn stable_string_converts_and_orders_as_its_text() {
    let a = StableString::from(text("a"));
    let b: StableString = "b".into();
    assert_eq!(a.as_str(), "a");
    assert_eq!(b.as_str(), "b");
    assert_eq!(a, StableString::new(text("a")));
    assert_ne!(a, b);
    assert!(a < b);
    assert!(StableString::from("ab") > a);
    assert!(StableString::from("ab") < b);
    assert_eq!(a.clone().max(b.clone()), b);
}
