use challenge_bot::database::{Challenge, Database, Submission, Timestamp};
use challenge_bot::submissions::{
    message_delete, message_update, reaction_add, reaction_kind, ReactionKind, ReactionOutcome,
};

fn challenge(name: &str, submissions: Vec<Submission>) -> Challenge {
    Challenge {
        active: true,
        name: name.to_string(),
        time: Timestamp { secs: 0, nanos: 0 },
        channel: 1,
        submissions,
    }
}

fn sub(user: u64, message: u64, content: &str) -> Submission {
    Submission { user, message, content: content.to_string() }
}

fn db() -> Database {
    Database { challenges: vec![challenge("art", vec![sub(1, 100, "old")]), challenge("code", vec![])] }
}

fn register(db: &mut Database, name: &str, user: u64, author: u64, moderator: Option<bool>, message: u64) -> ReactionOutcome {
    reaction_add(db, ReactionKind::Register, name, user, author, moderator, message, &"entry".to_string())
}

#[test]
fn emojis_are_classified() {
    assert_eq!(reaction_kind(Some("\u{1F3C5}")), ReactionKind::Register);
    assert_eq!(reaction_kind(Some("\u{274C}")), ReactionKind::Withdraw);
    assert_eq!(reaction_kind(Some("\u{2705}")), ReactionKind::Other);
    assert_eq!(reaction_kind(None), ReactionKind::Other);
}

#[test]
fn author_registers_own_message() {
    let mut d = db();
    assert_eq!(register(&mut d, "code", 5, 5, None, 200), ReactionOutcome::Registered);
    let s = &d.challenges[1].submissions[0];
    assert_eq!((s.user, s.message, s.content.as_str()), (5, 200, "entry"));
}

#[test]
fn second_medal_is_refused() {
    let mut d = db();
    assert_eq!(register(&mut d, "code", 5, 5, None, 200), ReactionOutcome::Registered);
    assert_eq!(register(&mut d, "code", 5, 5, None, 200), ReactionOutcome::AlreadyRegistered);
    assert_eq!(d.challenges[1].submissions.len(), 1);
}

#[test]
fn others_need_the_moderator_role() {
    let mut d = db();
    assert_eq!(register(&mut d, "code", 6, 5, None, 200), ReactionOutcome::CheckModerator);
    assert!(d.challenges[1].submissions.is_empty());
    assert_eq!(register(&mut d, "code", 6, 5, Some(false), 200), ReactionOutcome::Ignored);
    assert!(d.challenges[1].submissions.is_empty());
    assert_eq!(register(&mut d, "code", 6, 5, Some(true), 200), ReactionOutcome::Registered);
    assert_eq!(d.challenges[1].submissions[0].user, 6);
}

#[test]
fn no_challenge_no_registration() {
    let mut d = db();
    assert_eq!(register(&mut d, "music", 5, 5, None, 200), ReactionOutcome::Ignored);
    assert_eq!(d.challenges[0].submissions.len(), 1);
    assert!(d.challenges[1].submissions.is_empty());
}

#[test]
fn cross_unmarks_and_register_then_withdraw_restores() {
    let mut d = db();
    assert_eq!(register(&mut d, "art", 5, 5, None, 200), ReactionOutcome::Registered);
    assert!(d.withdrawal_in_bounds("art", 200));
    let out = reaction_add(&mut d, ReactionKind::Withdraw, "art", 0, 0, None, 200, &String::new());
    assert_eq!(out, ReactionOutcome::Unmarked);
    let msgs: Vec<u64> = d.challenges[0].submissions.iter().map(|s| s.message).collect();
    assert_eq!(msgs, vec![100]);
    let out = reaction_add(&mut d, ReactionKind::Withdraw, "art", 0, 0, None, 200, &String::new());
    assert_eq!(out, ReactionOutcome::Ignored);
}

#[test]
fn other_emoji_is_ignored() {
    let mut d = db();
    let out = reaction_add(&mut d, ReactionKind::Other, "art", 1, 1, None, 300, &String::new());
    assert_eq!(out, ReactionOutcome::Ignored);
    assert_eq!(d.challenges[0].submissions.len(), 1);
}

#[test]
fn message_update_changes_only_the_first_holder() {
    let mut d = Database {
        challenges: vec![
            challenge("a", vec![sub(1, 9, "x")]),
            challenge("b", vec![sub(2, 7, "y"), sub(3, 7, "z")]),
            challenge("c", vec![sub(4, 7, "w")]),
        ],
    };
    assert!(message_update(&mut d, 7, &"new".to_string()));
    assert_eq!(d.challenges[1].submissions[0].content, "new");
    assert_eq!(d.challenges[1].submissions[0].user, 2);
    assert_eq!(d.challenges[1].submissions[1].content, "z");
    assert_eq!(d.challenges[2].submissions[0].content, "w");
    assert_eq!(d.challenges[0].submissions[0].content, "x");
    assert!(!message_update(&mut d, 8, &"none".to_string()));
}

#[test]
fn message_delete_removes_only_the_first_holder() {
    let mut d = Database {
        challenges: vec![
            challenge("a", vec![sub(1, 9, "x")]),
            challenge("b", vec![sub(2, 7, "y"), sub(3, 7, "z")]),
            challenge("c", vec![sub(4, 7, "w")]),
        ],
    };
    assert!(message_delete(&mut d, 7));
    assert_eq!(d.challenges[1].submissions.len(), 1);
    assert_eq!(d.challenges[1].submissions[0].content, "z");
    assert_eq!(d.challenges[2].submissions.len(), 1);
    assert!(!message_delete(&mut d, 8));
    assert_eq!(d.challenges[0].submissions.len(), 1);
}
