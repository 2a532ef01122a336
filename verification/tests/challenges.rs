use challenge_bot::challenges::{
    acceptance, category_from_lowercase, challenge_end, get_category, is_suggestion,
    mention_in_bounds, post_body, reaction_add, split_suggestion, start, suggestion, try_post,
    update_challenges, Acceptance, MentionError, PostPlan,
};
use challenge_bot::database::{Challenge, Database, Timestamp};
use challenge_bot::text::{parse_u64, trim};

fn challenge(active: bool, secs: i64, channel: u64) -> Challenge {
    Challenge {
        active,
        name: format!("c{}", channel),
        time: Timestamp { secs, nanos: 0 },
        channel,
        submissions: vec![],
    }
}

#[test]
fn suggestions_come_from_people_in_the_channel() {
    assert!(is_suggestion(10, false, 10));
    assert!(!is_suggestion(10, true, 10));
    assert!(!is_suggestion(11, false, 10));
}

#[test]
fn split_into_three_parts() {
    let p = split_suggestion("Title\ntype: <#5>\nline one\nline two");
    assert_eq!(p.title, "Title");
    assert_eq!(p.category_line, Some("type: <#5>"));
    assert_eq!(p.description, Some("line one\nline two"));
    let p = split_suggestion("Title\ntype: <#5>");
    assert_eq!(p.category_line, Some("type: <#5>"));
    assert_eq!(p.description, None);
    let p = split_suggestion("Title only");
    assert_eq!(p.title, "Title only");
    assert_eq!(p.category_line, None);
    let p = split_suggestion("");
    assert_eq!(p.title, "");
    assert_eq!(p.category_line, None);
}

#[test]
fn category_lines() {
    assert_eq!(get_category("type: <#1234>"), Ok(Some(1234)));
    assert_eq!(get_category("Type: <#1234>"), Ok(Some(1234)));
    assert_eq!(get_category("**Type**:   <#42>  "), Ok(Some(42)));
    assert_eq!(get_category("type:\u{3000}<#7>\u{a0}"), Ok(Some(7)));
    assert_eq!(get_category("type: <#abc>"), Ok(None));
    assert_eq!(get_category("kind: <#1234>"), Ok(None));
    assert_eq!(get_category("type: <#>"), Ok(None));
    assert_eq!(get_category("type: <#+9>"), Ok(Some(9)));
    assert_eq!(get_category("type:"), Err(MentionError::OutOfBounds));
    assert_eq!(get_category("type: ab"), Err(MentionError::OutOfBounds));
    assert_eq!(get_category("type: a\u{e9}>"), Err(MentionError::OutOfBounds));
}

#[test]
fn category_from_lowercased_line() {
    assert!(mention_in_bounds("type: <#99>"));
    assert_eq!(category_from_lowercase("type: <#99>"), Some(99));
    assert!(mention_in_bounds("no tag"));
    assert_eq!(category_from_lowercase("no tag"), None);
    assert!(!mention_in_bounds("**type**:x"));
}

#[test]
fn trimming_uses_unicode_white_space() {
    assert_eq!(trim("  a b \t\n"), "a b");
    assert_eq!(trim("\u{2003}x\u{205f}"), "x");
    assert_eq!(trim("   "), "");
    assert_eq!(trim(""), "");
}

#[test]
fn unsigned_numbers() {
    assert_eq!(parse_u64("0"), Some(0));
    assert_eq!(parse_u64("+17"), Some(17));
    assert_eq!(parse_u64("007"), Some(7));
    assert_eq!(parse_u64("18446744073709551615"), Some(u64::MAX));
    assert_eq!(parse_u64("18446744073709551616"), None);
    assert_eq!(parse_u64("99999999999999999999x"), None);
    assert_eq!(parse_u64("-1"), None);
    assert_eq!(parse_u64("+"), None);
    assert_eq!(parse_u64(""), None);
    assert_eq!(parse_u64(" 1"), None);
    assert_eq!(suggestion("123456789012345678"), Some(123456789012345678));
    assert_eq!(suggestion("abc"), None);
}

#[test]
fn post_plans() {
    assert!(matches!(try_post(false, "anything"), PostPlan::NotSuggestion));
    assert!(matches!(try_post(true, "just a title"), PostPlan::Invalid));
    assert!(matches!(try_post(true, "Title\nkind: <#5>\nbody"), PostPlan::Invalid));
    assert!(matches!(try_post(true, "Title\ntype:"), PostPlan::MentionOutOfBounds));
    match try_post(true, "Title\nType: <#5>\nbody\nmore") {
        PostPlan::Lookup { title, category, body } => {
            assert_eq!(title, "Title");
            assert_eq!(category, 5);
            assert_eq!(body.as_deref(), Some("Type: <#5>\nbody\nmore"));
        }
        _ => panic!("expected a lookup"),
    }
    match try_post(true, "Title\ntype: <#5>") {
        PostPlan::Lookup { body, .. } => assert!(body.is_none()),
        _ => panic!("expected a lookup"),
    }
    assert_eq!(post_body("a", "b"), "a\nb");
}

#[test]
fn accepting_suggestions() {
    assert!(reaction_add(3, 3, true, Some("\u{2705}")));
    assert!(!reaction_add(3, 3, false, Some("\u{2705}")));
    assert!(!reaction_add(4, 3, true, Some("\u{2705}")));
    assert!(!reaction_add(3, 3, true, Some("\u{1F3C5}")));
    assert!(!reaction_add(3, 3, true, None));
    match acceptance("Name\ntype: <#8>\nwhat to do") {
        Acceptance::Create { title, category, description } => {
            assert_eq!(title, "Name");
            assert_eq!(category, 8);
            assert_eq!(description, Some("what to do"));
        }
        _ => panic!("expected a channel to create"),
    }
    assert!(matches!(acceptance("Name"), Acceptance::MissingCategoryLine));
    assert!(matches!(acceptance("Name\ntype: <#x>"), Acceptance::NoCategory));
    assert!(matches!(acceptance("Name\ntype: a"), Acceptance::MentionOutOfBounds));
}

#[test]
fn deadlines_are_whole_days_later() {
    let now = Timestamp { secs: 1_600_000_000, nanos: 123 };
    let end = challenge_end(now, 3).unwrap();
    assert_eq!((end.secs, end.nanos), (1_600_000_000 + 3 * 86_400, 123));
    let end = challenge_end(now, -1).unwrap();
    assert_eq!(end.secs, 1_600_000_000 - 86_400);
    assert!(challenge_end(now, i64::MAX).is_none());
    assert!(challenge_end(now, 200_000_000_000).is_none());
}

#[test]
fn start_adds_an_open_challenge() {
    let mut db = Database { challenges: vec![challenge(false, 0, 1)] };
    start(&mut db, "new".to_string(), Timestamp { secs: 50, nanos: 1 }, 9);
    assert_eq!(db.challenges.len(), 2);
    let c = &db.challenges[1];
    assert!(c.active);
    assert_eq!(c.name, "new");
    assert_eq!((c.time.secs, c.time.nanos, c.channel), (50, 1, 9));
    assert!(c.submissions.is_empty());
    assert!(db.has_challenge("new"));
}

#[test]
fn update_closes_expired_challenges_once() {
    let mut db = Database {
        challenges: vec![challenge(true, 100, 1), challenge(true, 300, 2), challenge(false, 50, 3), challenge(true, 200, 4)],
    };
    let now = Timestamp { secs: 200, nanos: 0 };
    assert_eq!(update_challenges(&mut db, now), vec![1]);
    let active: Vec<bool> = db.challenges.iter().map(|c| c.active).collect();
    assert_eq!(active, vec![false, true, false, true]);
    assert!(update_challenges(&mut db, now).is_empty());
    let later = Timestamp { secs: 200, nanos: 1 };
    assert_eq!(update_challenges(&mut db, later), vec![4]);
}
