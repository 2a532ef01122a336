use vstd::prelude::*;

use crate::database::{
    lemma_submission_position,
    lemma_challenge_position,
    lemma_remove_at_most_one, lemma_unique_positions, without_message, lemma_without_absent,
    lemma_push_unique, lemma_remove_unique, lemma_replaced_unique, lemma_update_unique,
    lemma_withdraw_unique, submissions_unique, unique_messages,
    challenge_position, first_challenge, message_positions, names_challenge, remove_in_turn,
    removals_fit, first_submission, holds_message, lemma_first_is_unique, replaced_submissions,
    submission_position, Challenge, Database, Submission,
};
use crate::text::str_eq;

verus! {

// ---------------------------------------------------------------------------
// Which submission a message is
// ---------------------------------------------------------------------------

/// `i` is the first challenge of `chs` one of whose submissions is held by
/// `message`.
pub open spec fn first_holder(chs: Seq<Challenge>, message: u64, i: int) -> bool {
    &&& 0 <= i < chs.len()
    &&& holds_message(chs[i].submissions@, message)
    &&& forall|k: int| 0 <= k < i ==> !holds_message(chs[k].submissions@, message)
}

/// Some challenge of `chs` has a submission held by `message`.
pub open spec fn some_holder(chs: Seq<Challenge>, message: u64) -> bool {
    exists|i: int| 0 <= i < chs.len() && holds_message(chs[i].submissions@, message)
}

/// The first challenge with a submission held by `message` (meaningful only
/// where there is one).
pub open spec fn holder_position(chs: Seq<Challenge>, message: u64) -> int {
    choose|i: int| first_holder(chs, message, i)
}

proof fn lemma_holder_position(chs: Seq<Challenge>, message: u64, i: int)
    requires
        first_holder(chs, message, i),
    ensures
        holder_position(chs, message) == i,
{
    let j = holder_position(chs, message);
    if i < j {
        assert(!holds_message(chs[i].submissions@, message));
    } else if j < i {
        assert(!holds_message(chs[j].submissions@, message));
    }
}



/// A message is found in any challenge, open or closed: some challenge holds
/// a submission of `message` exactly when some submission of some challenge
/// has that message, and the challenge found is the first one with such a
/// submission, with none before it.
pub proof fn law_holder_is_any_challenge(chs: Seq<Challenge>, message: u64)
    ensures
        some_holder(chs, message) <==> exists|i: int, j: int|
            0 <= i < chs.len() && 0 <= j < chs[i].submissions@.len()
                && #[trigger] chs[i].submissions@[j].message == message,
        some_holder(chs, message) ==> {
            let i = holder_position(chs, message);
            &&& 0 <= i < chs.len()
            &&& exists|j: int| 0 <= j < chs[i].submissions@.len()
                && #[trigger] chs[i].submissions@[j].message == message
            &&& forall|k: int, j: int| 0 <= k < i && 0 <= j < chs[k].submissions@.len()
                ==> #[trigger] chs[k].submissions@[j].message != message
        },
{
    if some_holder(chs, message) {
        let w = choose|w: int| 0 <= w < chs.len() && holds_message(chs[w].submissions@, message);
        lemma_first_holder_exists(chs, message, w);
        let i = holder_position(chs, message);
        assert forall|k: int, j: int| 0 <= k < i && 0 <= j < chs[k].submissions@.len()
            implies #[trigger] chs[k].submissions@[j].message != message by {
            assert(!holds_message(chs[k].submissions@, message));
        }
    }
    if exists|i: int, j: int|
        0 <= i < chs.len() && 0 <= j < chs[i].submissions@.len()
            && #[trigger] chs[i].submissions@[j].message == message {
        let (i, j) = choose|i: int, j: int|
            0 <= i < chs.len() && 0 <= j < chs[i].submissions@.len()
                && #[trigger] chs[i].submissions@[j].message == message;
        assert(holds_message(chs[i].submissions@, message));
    }
}

proof fn lemma_first_holder_exists(chs: Seq<Challenge>, message: u64, w: int)
    requires
        0 <= w < chs.len(),
        holds_message(chs[w].submissions@, message),
    ensures
        first_holder(chs, message, holder_position(chs, message)),
    decreases w,
{
    if forall|k: int| 0 <= k < w ==> !holds_message(chs[k].submissions@, message) {
        assert(first_holder(chs, message, w));
    } else {
        let k = choose|k: int| 0 <= k < w && holds_message(chs[k].submissions@, message);
        lemma_first_holder_exists(chs, message, k);
    }
}

/// The position of the first challenge with a submission held by `message`.
fn find_holder(db: &Database, message: u64) -> (r: Option<(usize, usize)>)
    ensures
        match r {
            Some((i, j)) => first_holder(db.challenges@, message, i as int) && first_submission(
                db.challenges@[i as int].submissions@,
                message,
                j as int,
            ),
            None => !some_holder(db.challenges@, message),
        },
{
    let mut i: usize = 0;
    while i < db.challenges.len()
        invariant
            i <= db.challenges@.len(),
            forall|k: int| 0 <= k < i ==> !holds_message(#[trigger] db.challenges@[k].submissions@, message),
        decreases db.challenges@.len() - i,
    {
        match db.challenges[i].find_submission(message) {
            Some(j) => {
                return Some((i, j));
            },
            None => {},
        }
        i += 1;
    }
    None
}

/// An edited message: the first submission it holds (in the first challenge
/// that has one) takes its new text. Returns whether anything changed.
pub fn message_update(db: &mut Database, message: u64, content: &String) -> (r: bool)
    ensures
        r == some_holder(old(db).challenges@, message),
        r == exists|i: int, j: int|
            0 <= i < old(db).challenges@.len() && 0 <= j < old(db).challenges@[i].submissions@.len()
                && #[trigger] old(db).challenges@[i].submissions@[j].message == message,
        !r ==> *final(db) == *old(db),
        r ==> {
            let i = holder_position(old(db).challenges@, message);
            let subs = old(db).challenges@[i].submissions@;
            let j = submission_position(subs, message);
            &&& first_holder(old(db).challenges@, message, i)
            &&& first_submission(subs, message, j)
            &&& replaced_submissions(
                old(db).challenges@,
                final(db).challenges@,
                i,
                subs.update(j, Submission { user: subs[j].user, message, content: *content }),
            )
        },
        submissions_unique(old(db).challenges@) ==> submissions_unique(final(db).challenges@),
{
    proof {
        law_holder_is_any_challenge(db.challenges@, message);
    }
    match find_holder(db, message) {
        Some((i, j)) => {
            proof {
                lemma_holder_position(db.challenges@, message, i as int);
                lemma_submission_position(db.challenges@[i as int].submissions@, message, j as int);
            }
            let ghost old_chs = db.challenges@;
            db.challenges[i].submissions[j].content = content.clone();
            proof {
                if submissions_unique(old_chs) {
                    let subs = old_chs[i as int].submissions@;
                    assert(unique_messages(subs));
                    lemma_update_unique(subs, j as int, db.challenges@[i as int].submissions@[j as int]);
                    assert(db.challenges@[i as int].submissions@ == subs.update(j as int, db.challenges@[i as int].submissions@[j as int]));
                    lemma_replaced_unique(old_chs, db.challenges@, i as int, db.challenges@[i as int].submissions@);
                }
            }
            true
        },
        None => false,
    }
}

/// A deleted message: the first submission it holds (in the first challenge
/// that has one) is removed. Returns whether anything changed.
pub fn message_delete(db: &mut Database, message: u64) -> (r: bool)
    ensures
        r == some_holder(old(db).challenges@, message),
        r == exists|i: int, j: int|
            0 <= i < old(db).challenges@.len() && 0 <= j < old(db).challenges@[i].submissions@.len()
                && #[trigger] old(db).challenges@[i].submissions@[j].message == message,
        !r ==> *final(db) == *old(db),
        r ==> {
            let i = holder_position(old(db).challenges@, message);
            let subs = old(db).challenges@[i].submissions@;
            let j = submission_position(subs, message);
            &&& first_holder(old(db).challenges@, message, i)
            &&& first_submission(subs, message, j)
            &&& replaced_submissions(old(db).challenges@, final(db).challenges@, i, subs.remove(j))
        },
        submissions_unique(old(db).challenges@) ==> submissions_unique(final(db).challenges@),
{
    proof {
        law_holder_is_any_challenge(db.challenges@, message);
    }
    match find_holder(db, message) {
        Some((i, j)) => {
            proof {
                lemma_holder_position(db.challenges@, message, i as int);
                lemma_submission_position(db.challenges@[i as int].submissions@, message, j as int);
            }
            let ghost old_chs = db.challenges@;
            db.challenges[i].submissions.remove(j);
            proof {
                if submissions_unique(old_chs) {
                    let subs = old_chs[i as int].submissions@;
                    assert(unique_messages(subs));
                    lemma_remove_unique(subs, j as int);
                    lemma_replaced_unique(old_chs, db.challenges@, i as int, subs.remove(j as int));
                }
            }
            true
        },
        None => false,
    }
}


// ---------------------------------------------------------------------------
// Reactions
// ---------------------------------------------------------------------------

/// What a reaction asks of the submissions.
#[derive(Clone, Copy, Debug, PartialEq, Eq)]
pub enum ReactionKind {
    /// The medal: mark the message as a submission.
    Register,
    /// The cross: un-mark the message.
    Withdraw,
    /// Anything else.
    Other,
}

/// The emoji that marks a submission.
pub open spec fn medal() -> Seq<char> {
    "\u{1F3C5}"@
}

/// The emoji that un-marks a submission.
pub open spec fn cross() -> Seq<char> {
    "\u{274C}"@
}

/// What a reaction with the unicode emoji `emoji` (`None` for a custom one)
/// asks of the submissions.
pub open spec fn kind_of(emoji: Option<Seq<char>>) -> ReactionKind {
    match emoji {
        Some(e) => if e == medal() {
            ReactionKind::Register
        } else if e == cross() {
            ReactionKind::Withdraw
        } else {
            ReactionKind::Other
        },
        None => ReactionKind::Other,
    }
}

/// Classifies a reaction by its unicode emoji (`None` for a custom emoji).
pub fn reaction_kind(emoji: Option<&str>) -> (r: ReactionKind)
    ensures
        r == kind_of(
            match emoji {
                Some(e) => Some(e@),
                None => None,
            },
        ),
{
    match emoji {
        Some(e) => {
            if str_eq(e, "\u{1F3C5}") {
                ReactionKind::Register
            } else if str_eq(e, "\u{274C}") {
                ReactionKind::Withdraw
            } else {
                ReactionKind::Other
            }
        },
        None => ReactionKind::Other,
    }
}

/// What became of a reaction.
#[derive(Clone, Copy, Debug, PartialEq, Eq)]
pub enum ReactionOutcome {
    /// Nothing to do: another emoji, no challenge in the channel, or a user
    /// who may not mark the message.
    Ignored,
    /// The reacting user is not the author: whether they hold the moderator
    /// role decides, and has to be looked up.
    CheckModerator,
    /// The message is now a submission.
    Registered,
    /// The message already was a submission.
    AlreadyRegistered,
    /// No challenge was found to register with.
    NoCompetition,
    /// The message is no longer a submission.
    Unmarked,
}

/// Un-marking `message` in the channel `name` keeps every removal in bounds.
pub open spec fn withdrawal_fits(chs: Seq<Challenge>, name: Seq<char>, message: u64) -> bool {
    names_challenge(chs, name) ==> {
        let subs = chs[challenge_position(chs, name)].submissions@;
        removals_fit(subs, message_positions(subs, message))
    }
}

/// The user may mark the message: they wrote it, or they are a moderator.
pub open spec fn may_register(user: u64, author: u64, moderator: Option<bool>) -> bool {
    user == author || moderator == Some(true)
}

impl Database {
    /// Whether un-marking `message` in the channel `name` stays in bounds.
    pub fn withdrawal_in_bounds(&self, name: &str, message: u64) -> (r: bool)
        ensures
            r == withdrawal_fits(self.challenges@, name@, message),
    {
        match self.find_challenge(name) {
            Some(i) => {
                proof {
                    lemma_challenge_position(self.challenges@, name@, i as int);
                }
                self.challenges[i].removal_in_bounds(message)
            },
            None => true,
        }
    }
}


/// A reaction of `user` to the message `message` (written by `author`, with
/// the text `content`) in the channel called `name`. `moderator` is whether
/// the user holds the moderator role, once looked up.
///
/// The medal, in a channel with a challenge, registers the message with the
/// first challenge of that name, if the user wrote it or is a moderator and it
/// is not registered yet. The cross, in such a channel, un-marks the message.
pub fn reaction_add(
    db: &mut Database,
    kind: ReactionKind,
    name: &str,
    user: u64,
    author: u64,
    moderator: Option<bool>,
    message: u64,
    content: &String,
) -> (r: ReactionOutcome)
    requires
        kind == ReactionKind::Withdraw ==> withdrawal_fits(old(db).challenges@, name@, message),
    ensures
        kind == ReactionKind::Other || !names_challenge(old(db).challenges@, name@) ==> {
            r == ReactionOutcome::Ignored && final(db).challenges@ == old(db).challenges@
        },
        kind == ReactionKind::Register && names_challenge(old(db).challenges@, name@) ==> {
            let i = challenge_position(old(db).challenges@, name@);
            let subs = old(db).challenges@[i].submissions@;
            if user != author && moderator is None {
                r == ReactionOutcome::CheckModerator && final(db).challenges@ == old(db).challenges@
            } else if !may_register(user, author, moderator) {
                r == ReactionOutcome::Ignored && final(db).challenges@ == old(db).challenges@
            } else if holds_message(subs, message) {
                r == ReactionOutcome::AlreadyRegistered && final(db).challenges@ == old(db).challenges@
            } else {
                &&& r == ReactionOutcome::Registered
                &&& replaced_submissions(
                    old(db).challenges@,
                    final(db).challenges@,
                    i,
                    subs.push(Submission { user, message, content: *content }),
                )
            }
        },
        kind == ReactionKind::Withdraw && names_challenge(old(db).challenges@, name@) ==> {
            let i = challenge_position(old(db).challenges@, name@);
            let subs = old(db).challenges@[i].submissions@;
            if holds_message(subs, message) {
                &&& r == ReactionOutcome::Unmarked
                &&& replaced_submissions(
                    old(db).challenges@,
                    final(db).challenges@,
                    i,
                    remove_in_turn(subs, message_positions(subs, message)),
                )
            } else {
                r == ReactionOutcome::Ignored && final(db).challenges@ == old(db).challenges@
            }
        },
        submissions_unique(old(db).challenges@) ==> submissions_unique(final(db).challenges@),
{
    match kind {
        ReactionKind::Register => {
            if !db.has_challenge(name) {
                return ReactionOutcome::Ignored;
            }
            if user != author {
                match moderator {
                    None => {
                        return ReactionOutcome::CheckModerator;
                    },
                    Some(false) => {
                        return ReactionOutcome::Ignored;
                    },
                    Some(true) => {},
                }
            }
            match db.get_challenge(name) {
                Some(challenge) => {
                    if challenge.has_submission(message) {
                        ReactionOutcome::AlreadyRegistered
                    } else {
                        let ghost before = challenge.submissions@;
                        let submission = Submission { user, message, content: content.clone() };
                        proof {
                            if submissions_unique(old(db).challenges@) {
                                let i = challenge_position(old(db).challenges@, name@);
                                assert(unique_messages(old(db).challenges@[i].submissions@));
                                lemma_push_unique(before, submission);
                            }
                        }
                        challenge.submissions.push(submission);
                        ReactionOutcome::Registered
                    }
                },
                None => ReactionOutcome::NoCompetition,
            }
        },
        ReactionKind::Withdraw => {
            if !db.has_challenge(name) {
                return ReactionOutcome::Ignored;
            }
            match db.get_challenge(name) {
                Some(challenge) => {
                    if challenge.has_submission(message) {
                        proof {
                            if submissions_unique(old(db).challenges@) {
                                let i = challenge_position(old(db).challenges@, name@);
                                assert(unique_messages(old(db).challenges@[i].submissions@));
                                lemma_withdraw_unique(challenge.submissions@, message);
                            }
                        }
                        challenge.remove_submission(message);
                        ReactionOutcome::Unmarked
                    } else {
                        ReactionOutcome::Ignored
                    }
                },
                None => ReactionOutcome::Ignored,
            }
        },
        ReactionKind::Other => ReactionOutcome::Ignored,
    }
}

/// Registering and un-marking undo each other: on a challenge whose
/// submissions are held by distinct messages, adding a submission of a
/// message not held yet and then un-marking that message gives back exactly
/// the submissions there were before.
pub proof fn law_register_then_withdraw(subs: Seq<Submission>, s: Submission)
    requires
        unique_messages(subs),
        !holds_message(subs, s.message),
    ensures
        removals_fit(subs.push(s), message_positions(subs.push(s), s.message)),
        remove_in_turn(subs.push(s), message_positions(subs.push(s), s.message)) == subs,
{
    let n = subs.push(s);
    lemma_push_unique(subs, s);
    lemma_unique_positions(n, s.message);
    lemma_remove_at_most_one(n, s.message);
    assert(n.drop_last() =~= subs);
    assert(without_message(n, s.message) == without_message(subs, s.message));
    lemma_without_absent(subs, s.message);
}

/// A message once registered stays registered: after a medal has registered
/// `s` with the challenge at position `i` (the first one called `name`), that
/// challenge is still the first one called `name` and holds the message, so
/// a second medal is answered with `AlreadyRegistered`.
pub proof fn law_register_twice(
    old: Seq<Challenge>,
    new: Seq<Challenge>,
    name: Seq<char>,
    s: Submission,
)
    requires
        names_challenge(old, name),
        replaced_submissions(
            old,
            new,
            challenge_position(old, name),
            old[challenge_position(old, name)].submissions@.push(s),
        ),
    ensures
        names_challenge(new, name),
        challenge_position(new, name) == challenge_position(old, name),
        holds_message(new[challenge_position(new, name)].submissions@, s.message),
{
    let w = choose|w: int| 0 <= w < old.len() && old[w].name@ == name;
    let i = challenge_position(old, name);
    assert(first_challenge(old, name, i)) by {
        lemma_first_challenge_exists(old, name, w);
    }
    assert(first_challenge(new, name, i)) by {
        assert forall|j: int| 0 <= j < i implies new[j].name@ != name by {
            assert(new[j] == old[j]);
        }
    }
    lemma_challenge_position(new, name, i);
    let subs = old[i].submissions@;
    assert(subs.push(s)[subs.len() as int] == s);
}

/// Where some challenge is called `name`, there is a first one.
proof fn lemma_first_challenge_exists(chs: Seq<Challenge>, name: Seq<char>, w: int)
    requires
        0 <= w < chs.len(),
        chs[w].name@ == name,
    ensures
        first_challenge(chs, name, challenge_position(chs, name)),
    decreases w,
{
    if forall|j: int| 0 <= j < w ==> chs[j].name@ != name {
        assert(first_challenge(chs, name, w));
    } else {
        let j = choose|j: int| 0 <= j < w && chs[j].name@ == name;
        lemma_first_challenge_exists(chs, name, j);
    }
}

/// A deleted message leaves nothing behind: on a challenge whose submissions
/// are held by distinct messages, removing the first submission of `message`
/// (as `message_delete` does) leaves no submission held by it.
pub proof fn law_delete_leaves_none(subs: Seq<Submission>, message: u64)
    requires
        unique_messages(subs),
        holds_message(subs, message),
    ensures
        !holds_message(subs.remove(submission_position(subs, message)), message),
{
    let w = choose|w: int| 0 <= w < subs.len() && subs[w].message == message;
    let j = submission_position(subs, message);
    assert(first_submission(subs, message, w)) by {
        assert forall|k: int| 0 <= k < w implies subs[k].message != message by {
            assert(subs[k].message != subs[w].message);
        }
    }
    lemma_first_is_unique(subs, message, w, j);
    let n = subs.remove(j);
    assert forall|k: int| 0 <= k < n.len() implies n[k].message != message by {
        if k < j {
            assert(n[k] == subs[k]);
            assert(subs[k].message != subs[j].message);
        } else {
            assert(n[k] == subs[k + 1]);
            assert(subs[j].message != subs[k + 1].message);
        }
    }
}

} // verus!
