use challenge_bot::database::{Challenge, Database, Submission, Timestamp};

fn sub(user: u64, message: u64, content: &str) -> Submission {
    Submission { user, message, content: content.to_string() }
}

fn challenge(name: &str, channel: u64, submissions: Vec<Submission>) -> Challenge {
    Challenge {
        active: true,
        name: name.to_string(),
        time: Timestamp { secs: 1_000, nanos: 0 },
        channel,
        submissions,
    }
}

fn messages(c: &Challenge) -> Vec<u64> {
    c.submissions.iter().map(|s| s.message).collect()
}

#[test]
fn has_and_get_challenge_find_the_first_by_name() {
    let mut db = Database {
        challenges: vec![challenge("art", 1, vec![]), challenge("code", 2, vec![]), challenge("code", 3, vec![])],
    };
    assert!(db.has_challenge("code"));
    assert!(!db.has_challenge("Code"));
    assert!(!db.has_challenge("music"));
    assert_eq!(db.get_challenge("code").map(|c| c.channel), Some(2));
    assert!(db.get_challenge("music").is_none());
    db.get_challenge("code").unwrap().active = false;
    assert!(!db.challenges[1].active);
    assert!(db.challenges[2].active);
}

#[test]
fn has_and_get_submission_find_the_first_by_message() {
    let mut c = challenge("art", 1, vec![sub(7, 10, "a"), sub(8, 11, "b"), sub(9, 11, "c")]);
    assert!(c.has_submission(11));
    assert!(!c.has_submission(12));
    assert_eq!(c.get_submission(11).map(|s| s.user), Some(8));
    assert!(c.get_submission(12).is_none());
    c.get_submission(11).unwrap().content = "changed".to_string();
    assert_eq!(c.submissions[1].content, "changed");
    assert_eq!(c.submissions[2].content, "c");
}

#[test]
fn remove_submission_removes_a_single_match() {
    let mut c = challenge("art", 1, vec![sub(1, 10, "a"), sub(2, 11, "b"), sub(3, 12, "c")]);
    assert!(c.removal_in_bounds(11));
    c.remove_submission(11);
    assert_eq!(messages(&c), vec![10, 12]);
    assert!(!c.has_submission(11));
}

#[test]
fn remove_submission_without_match_changes_nothing() {
    let mut c = challenge("art", 1, vec![sub(1, 10, "a")]);
    assert!(c.removal_in_bounds(99));
    c.remove_submission(99);
    assert_eq!(messages(&c), vec![10]);
}

#[test]
fn remove_submission_removes_positions_in_turn() {
    // Positions 0 and 2 are collected; after removing 0, position 2 holds 13.
    let mut c = challenge("art", 1, vec![sub(1, 5, "a"), sub(2, 11, "b"), sub(3, 5, "c"), sub(4, 13, "d")]);
    assert!(c.removal_in_bounds(5));
    c.remove_submission(5);
    assert_eq!(messages(&c), vec![11, 5]);
}

#[test]
fn removal_out_of_bounds_is_detected() {
    let c = challenge("art", 1, vec![sub(1, 5, "a"), sub(2, 5, "b")]);
    assert!(!c.removal_in_bounds(5));
    let c = challenge("art", 1, vec![sub(1, 5, "a"), sub(2, 6, "b"), sub(3, 5, "c")]);
    assert!(!c.removal_in_bounds(5));
}

#[test]
fn find_positions() {
    let c = challenge("art", 1, vec![sub(1, 5, "a"), sub(2, 6, "b")]);
    assert_eq!(c.find_submission(6), Some(1));
    assert_eq!(c.find_submission(7), None);
    let db = Database { challenges: vec![challenge("x", 1, vec![]), challenge("y", 2, vec![])] };
    assert_eq!(db.find_challenge("y"), Some(1));
    assert_eq!(db.find_challenge("z"), None);
}

#[test]
fn timestamps_compare_by_seconds_then_nanoseconds() {
    let a = Timestamp { secs: 5, nanos: 10 };
    let b = Timestamp { secs: 5, nanos: 20 };
    let c = Timestamp { secs: 6, nanos: 0 };
    assert!(b.is_after(&a));
    assert!(!a.is_after(&b));
    assert!(c.is_after(&b));
    assert!(!a.is_after(&a));
}
