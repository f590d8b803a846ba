use digivoter::lifecycle::TimerPlan;
use digivoter::record::{ElectionStatus, VotingError};
use digivoter::service::VotingService;

const T0: u64 = 1_000_000;

fn text(s: &str) -> String {
    s.to_string()
}

fn service() -> VotingService {
    VotingService::new(text("admin"), text("system"))
}

fn labels(names: &[&str]) -> Vec<String> {
    names.iter().map(|s| s.to_string()).collect()
}

fn create(
    svc: &mut VotingService,
    id: String,
    options: &[&str],
    start: u64,
    end: u64,
) -> Result<TimerPlan, VotingError> {
    svc.create_election(id, text("Title"), text("About"), labels(options), start, end, 0)
}

fn two_option_election(svc: &mut VotingService, id: &str) -> TimerPlan {
    svc.create_election(
        text(id),
        text("Board"),
        text("Who chairs the board"),
        labels(&["A", "B"]),
        T0,
        T0 + 100,
        T0 - 10,
    )
    .unwrap()
}

fn status_of(svc: &VotingService, id: &str) -> Option<ElectionStatus> {
    svc.get_election(&text(id)).map(|e| e.status)
}

#[test]
fn vote_is_counted_after_scheduled_completion() {
    let mut svc = service();
    let plan = two_option_election(&mut svc, "e1");
    assert_eq!(plan.activate_after, Some(10));
    assert_eq!(plan.complete_after, Some(110));
    assert!(svc.start_election(&text("system"), &text("e1")));
    let receipt = svc.cast_vote(&text("V1"), &text("e1"), 1, T0 + 1).unwrap();
    assert_eq!(receipt.timestamp, T0 + 1);
    assert!(svc.end_election_sync(&text("e1")));
    let result = svc.get_election_results(&text("e1")).unwrap();
    assert_eq!(result.election_id, "e1");
    assert_eq!(result.title, "Board");
    assert_eq!(result.options, labels(&["A", "B"]));
    assert_eq!(result.vote_counts, vec![0, 1]);
    assert_eq!(result.total_votes, 1);
}

#[test]
fn non_admin_cannot_activate() {
    let mut svc = service();
    two_option_election(&mut svc, "e1");
    let r = svc.activate_election(&text("mallory"), &text("e1"));
    assert_eq!(r, Err(VotingError::Unauthorized));
    assert_eq!(status_of(&svc, "e1"), Some(ElectionStatus::Pending));
}

#[test]
fn timer_after_delete_is_a_no_op() {
    let mut svc = service();
    two_option_election(&mut svc, "e1");
    assert_eq!(svc.activate_election(&text("admin"), &text("e1")), Ok(()));
    assert_eq!(status_of(&svc, "e1"), Some(ElectionStatus::Active));
    assert_eq!(svc.delete_election(&text("admin"), &text("e1")), Ok(()));
    assert!(!svc.end_election_sync(&text("e1")));
    assert!(!svc.start_election(&text("system"), &text("e1")));
    assert!(svc.get_election(&text("e1")).is_none());
    assert!(svc.get_elections().is_empty());
}

#[test]
fn new_election_is_pending_and_reads_back() {
    let mut svc = service();
    two_option_election(&mut svc, "e1");
    let e = svc.get_election(&text("e1")).unwrap();
    assert_eq!(e.id, "e1");
    assert_eq!(e.status, ElectionStatus::Pending);
    assert_eq!(e.start_time, T0);
    assert_eq!(e.end_time, T0 + 100);
    assert_eq!(e.details.title, "Board");
    assert_eq!(e.details.description, "Who chairs the board");
    assert_eq!(e.details.options, labels(&["A", "B"]));
    assert!(svc.get_election(&text("e2")).is_none());
}

#[test]
fn status_only_moves_forward() {
    let mut svc = service();
    two_option_election(&mut svc, "e1");
    assert!(!svc.end_election_sync(&text("e1")));
    assert_eq!(
        svc.end_election(&text("admin"), &text("e1")),
        Err(VotingError::InvalidState)
    );
    assert_eq!(status_of(&svc, "e1"), Some(ElectionStatus::Pending));
    assert!(svc.start_election(&text("system"), &text("e1")));
    assert!(!svc.start_election(&text("system"), &text("e1")));
    assert_eq!(
        svc.activate_election(&text("admin"), &text("e1")),
        Err(VotingError::InvalidState)
    );
    assert_eq!(status_of(&svc, "e1"), Some(ElectionStatus::Active));
    assert_eq!(svc.end_election(&text("admin"), &text("e1")), Ok(()));
    assert_eq!(status_of(&svc, "e1"), Some(ElectionStatus::Completed));
    assert!(!svc.start_election(&text("system"), &text("e1")));
    assert!(!svc.end_election_sync(&text("e1")));
    assert_eq!(
        svc.activate_election(&text("admin"), &text("e1")),
        Err(VotingError::InvalidState)
    );
    assert_eq!(
        svc.end_election(&text("admin"), &text("e1")),
        Err(VotingError::InvalidState)
    );
    assert_eq!(status_of(&svc, "e1"), Some(ElectionStatus::Completed));
}

#[test]
fn transition_leaves_other_elections_alone() {
    let mut svc = service();
    two_option_election(&mut svc, "e1");
    two_option_election(&mut svc, "e2");
    assert!(svc.start_election(&text("system"), &text("e1")));
    assert_eq!(status_of(&svc, "e1"), Some(ElectionStatus::Active));
    assert_eq!(status_of(&svc, "e2"), Some(ElectionStatus::Pending));
    assert_eq!(svc.delete_election(&text("admin"), &text("e1")), Ok(()));
    assert_eq!(status_of(&svc, "e2"), Some(ElectionStatus::Pending));
}

#[test]
fn system_identity_may_end_but_not_activate() {
    let mut svc = service();
    two_option_election(&mut svc, "e1");
    assert_eq!(
        svc.activate_election(&text("system"), &text("e1")),
        Err(VotingError::Unauthorized)
    );
    assert!(svc.start_election(&text("system"), &text("e1")));
    assert_eq!(
        svc.end_election(&text("mallory"), &text("e1")),
        Err(VotingError::Unauthorized)
    );
    assert_eq!(svc.end_election(&text("system"), &text("e1")), Ok(()));
    assert_eq!(status_of(&svc, "e1"), Some(ElectionStatus::Completed));
}

#[test]
fn missing_election_is_not_found() {
    let mut svc = service();
    assert_eq!(
        svc.activate_election(&text("admin"), &text("nope")),
        Err(VotingError::NotFound)
    );
    assert_eq!(
        svc.end_election(&text("admin"), &text("nope")),
        Err(VotingError::NotFound)
    );
    assert_eq!(
        svc.delete_election(&text("admin"), &text("nope")),
        Err(VotingError::NotFound)
    );
    assert_eq!(
        svc.delete_election(&text("mallory"), &text("nope")),
        Err(VotingError::Unauthorized)
    );
    assert_eq!(
        svc.cast_vote(&text("V1"), &text("nope"), 0, T0).unwrap_err(),
        VotingError::NotFound
    );
    let long_id = "x".repeat(1025);
    assert_eq!(
        svc.activate_election(&text("admin"), &long_id),
        Err(VotingError::NotFound)
    );
    assert!(svc.get_election(&long_id).is_none());
    assert!(svc.get_election_results(&text("nope")).is_none());
}

#[test]
fn create_rejects_bad_input() {
    let mut svc = service();
    assert_eq!(
        create(&mut svc, text("e"), &[], T0, T0 + 1),
        Err(VotingError::InvalidInput)
    );
    assert_eq!(
        create(&mut svc, text("e"), &["A"], T0, T0),
        Err(VotingError::InvalidInput)
    );
    assert_eq!(
        create(&mut svc, text("e"), &["A"], T0 + 1, T0),
        Err(VotingError::InvalidInput)
    );
    assert!(svc.get_election(&text("e")).is_none());
    assert!(create(&mut svc, text("e"), &["A"], T0, T0 + 1).is_ok());
    assert_eq!(
        create(&mut svc, text("e"), &["X", "Y", "Z"], T0, T0 + 5),
        Err(VotingError::InvalidInput)
    );
    let e = svc.get_election(&text("e")).unwrap();
    assert_eq!(e.details.options, labels(&["A"]));
    assert_eq!(e.end_time, T0 + 1);
}

#[test]
fn create_rejects_oversized_records() {
    let mut svc = service();
    let room = 2048 - 17 - 3 * 8 - 1;
    let r = svc.create_election(
        text("big"),
        "t".repeat(room + 1),
        text(""),
        labels(&["A"]),
        T0,
        T0 + 1,
        0,
    );
    assert_eq!(r, Err(VotingError::SizeExceeded));
    assert!(svc.get_election(&text("big")).is_none());
    let r = svc.create_election(
        text("big"),
        "t".repeat(room),
        text(""),
        labels(&["A"]),
        T0,
        T0 + 1,
        0,
    );
    assert!(r.is_ok());
    assert_eq!(svc.get_election(&text("big")).unwrap().details.title, "t".repeat(room));
    assert_eq!(
        create(&mut svc, "k".repeat(1025), &["A"], T0, T0 + 1),
        Err(VotingError::SizeExceeded)
    );
    assert!(create(&mut svc, "k".repeat(1024), &["A"], T0, T0 + 1).is_ok());
    assert!(svc.get_election(&"k".repeat(1024)).is_some());
}

#[test]
fn deleted_identifier_can_be_created_anew() {
    let mut svc = service();
    two_option_election(&mut svc, "e1");
    assert!(svc.start_election(&text("system"), &text("e1")));
    assert_eq!(svc.delete_election(&text("admin"), &text("e1")), Ok(()));
    two_option_election(&mut svc, "e1");
    assert_eq!(status_of(&svc, "e1"), Some(ElectionStatus::Pending));
}

#[test]
fn elections_are_listed_in_key_order() {
    let mut svc = service();
    two_option_election(&mut svc, "b");
    two_option_election(&mut svc, "a");
    two_option_election(&mut svc, "c");
    two_option_election(&mut svc, "ab");
    assert!(svc.start_election(&text("system"), &text("a")));
    let all = svc.get_elections();
    let ids: Vec<&str> = all.iter().map(|e| e.id.as_str()).collect();
    assert_eq!(ids, vec!["a", "ab", "b", "c"]);
    assert_eq!(all[0].status, ElectionStatus::Active);
    assert_eq!(all[1].status, ElectionStatus::Pending);
}

#[test]
fn admins_are_added_by_admins_only() {
    let mut svc = service();
    assert!(svc.is_admin(&text("admin")));
    assert!(!svc.is_admin(&text("bob")));
    assert!(!svc.is_admin(&text("system")));
    assert_eq!(
        svc.add_admin(&text("bob"), text("bob")),
        Err(VotingError::Unauthorized)
    );
    assert!(!svc.is_admin(&text("bob")));
    assert_eq!(svc.add_admin(&text("admin"), text("bob")), Ok(()));
    assert!(svc.is_admin(&text("bob")));
    assert!(svc.is_admin(&text("admin")));
    assert_eq!(svc.add_admin(&text("bob"), text("carol")), Ok(()));
    assert_eq!(svc.add_admin(&text("bob"), text("carol")), Ok(()));
    assert!(svc.is_admin(&text("carol")));
    assert_eq!(svc.admin_count(), 3);
    two_option_election(&mut svc, "e1");
    assert_eq!(svc.activate_election(&text("carol"), &text("e1")), Ok(()));
}

#[test]
fn start_is_refused_to_strangers() {
    let mut svc = service();
    two_option_election(&mut svc, "e1");
    two_option_election(&mut svc, "e2");
    assert!(!svc.start_election(&text("mallory"), &text("e1")));
    assert!(!svc.start_election(&text(""), &text("e1")));
    assert_eq!(status_of(&svc, "e1"), Some(ElectionStatus::Pending));
    assert!(svc.start_election(&text("admin"), &text("e1")));
    assert_eq!(status_of(&svc, "e1"), Some(ElectionStatus::Active));
    assert!(svc.start_election(&text("system"), &text("e2")));
    assert_eq!(status_of(&svc, "e2"), Some(ElectionStatus::Active));
    assert!(!svc.start_election(&text("admin"), &text("nope")));
    assert_eq!(svc.system_id(), "system");
}
