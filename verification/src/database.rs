use vstd::prelude::*;

use crate::text::str_eq;

verus! {

/// An instant as UTC seconds since the epoch and the nanoseconds past that
/// second (more than a second's worth only inside a leap second).
#[derive(Clone, Copy, Debug)]
pub struct Timestamp {
    pub secs: i64,
    pub nanos: u32,
}

/// `a` comes strictly before `b`.
pub open spec fn is_before(a: Timestamp, b: Timestamp) -> bool {
    a.secs < b.secs || (a.secs == b.secs && a.nanos < b.nanos)
}

impl Timestamp {
    /// Whether `self` lies strictly after `other`.
    pub fn is_after(&self, other: &Timestamp) -> (r: bool)
        ensures
            r == is_before(*other, *self),
    {
        other.secs < self.secs || (other.secs == self.secs && other.nanos < self.nanos)
    }
}

/// One entry handed in for a challenge: who made it, the message that holds it
/// and the text of that message.
pub struct Submission {
    pub user: u64,
    pub message: u64,
    pub content: String,
}

/// A competition that runs in one channel until its deadline.
pub struct Challenge {
    pub active: bool,
    pub name: String,
    pub time: Timestamp,
    pub channel: u64,
    pub submissions: Vec<Submission>,
}

/// Everything the bot keeps between runs.
pub struct Database {
    pub challenges: Vec<Challenge>,
}

// ---------------------------------------------------------------------------
// Lookups
// ---------------------------------------------------------------------------

/// `i` is the position of the first submission of `subs` held by `message`.
pub open spec fn first_submission(subs: Seq<Submission>, message: u64, i: int) -> bool {
    &&& 0 <= i < subs.len()
    &&& subs[i].message == message
    &&& forall|j: int| 0 <= j < i ==> subs[j].message != message
}

/// Some submission of `subs` is held by `message`.
pub open spec fn holds_message(subs: Seq<Submission>, message: u64) -> bool {
    exists|i: int| 0 <= i < subs.len() && subs[i].message == message
}

/// `i` is the position of the first challenge of `chs` called `name`.
pub open spec fn first_challenge(chs: Seq<Challenge>, name: Seq<char>, i: int) -> bool {
    &&& 0 <= i < chs.len()
    &&& chs[i].name@ == name
    &&& forall|j: int| 0 <= j < i ==> chs[j].name@ != name
}

/// Some challenge of `chs` is called `name`.
pub open spec fn names_challenge(chs: Seq<Challenge>, name: Seq<char>) -> bool {
    exists|i: int| 0 <= i < chs.len() && chs[i].name@ == name
}

/// The position of the first challenge called `name` (meaningful only where
/// one is).
pub open spec fn challenge_position(chs: Seq<Challenge>, name: Seq<char>) -> int {
    choose|i: int| first_challenge(chs, name, i)
}

/// The position of the first submission held by `message` (meaningful only
/// where one is).
pub open spec fn submission_position(subs: Seq<Submission>, message: u64) -> int {
    choose|i: int| first_submission(subs, message, i)
}

/// `a` and `b` agree on everything but their submissions.
pub open spec fn same_but_submissions(a: Challenge, b: Challenge) -> bool {
    &&& a.active == b.active
    &&& a.name == b.name
    &&& a.time == b.time
    &&& a.channel == b.channel
}

/// `new` is `old` with the submissions of challenge `i` replaced by `subs`.
pub open spec fn replaced_submissions(
    old: Seq<Challenge>,
    new: Seq<Challenge>,
    i: int,
    subs: Seq<Submission>,
) -> bool {
    &&& 0 <= i < old.len()
    &&& new.len() == old.len()
    &&& forall|k: int| 0 <= k < old.len() && k != i ==> new[k] == old[k]
    &&& same_but_submissions(new[i], old[i])
    &&& new[i].submissions@ == subs
}

/// There is at most one first position of a message, and of a name.
pub proof fn lemma_first_is_unique(subs: Seq<Submission>, message: u64, i: int, j: int)
    requires
        first_submission(subs, message, i),
        first_submission(subs, message, j),
    ensures
        i == j,
{
    if i < j {
        assert(subs[i].message != message);
    } else if j < i {
        assert(subs[j].message != message);
    }
}

/// The chosen first position is the first position.
pub proof fn lemma_submission_position(subs: Seq<Submission>, message: u64, i: int)
    requires
        first_submission(subs, message, i),
    ensures
        submission_position(subs, message) == i,
{
    let j = submission_position(subs, message);
    lemma_first_is_unique(subs, message, i, j);
}

pub proof fn lemma_challenge_position(chs: Seq<Challenge>, name: Seq<char>, i: int)
    requires
        first_challenge(chs, name, i),
    ensures
        challenge_position(chs, name) == i,
{
    let j = challenge_position(chs, name);
    if i < j {
        assert(chs[i].name@ != name);
    } else if j < i {
        assert(chs[j].name@ != name);
    }
}


// ---------------------------------------------------------------------------
// Removal
// ---------------------------------------------------------------------------

/// The positions of all submissions of `subs` held by `message`, ascending.
pub open spec fn message_positions(subs: Seq<Submission>, message: u64) -> Seq<int>
    decreases subs.len(),
{
    if subs.len() == 0 {
        Seq::empty()
    } else {
        let rest = message_positions(subs.drop_last(), message);
        if subs.last().message == message {
            rest.push(subs.len() - 1)
        } else {
            rest
        }
    }
}

/// `subs` after removing, one after the other, the element at each position
/// of `idx` from what the earlier removals left.
pub open spec fn remove_in_turn(subs: Seq<Submission>, idx: Seq<int>) -> Seq<Submission>
    decreases idx.len(),
{
    if idx.len() == 0 {
        subs
    } else {
        remove_in_turn(subs, idx.drop_last()).remove(idx.last())
    }
}

/// Every removal of `remove_in_turn(subs, idx)` finds its position in bounds.
pub open spec fn removals_fit(subs: Seq<Submission>, idx: Seq<int>) -> bool
    decreases idx.len(),
{
    idx.len() == 0 || {
        &&& removals_fit(subs, idx.drop_last())
        &&& 0 <= idx.last() < remove_in_turn(subs, idx.drop_last()).len()
    }
}

/// The submissions of `subs` not held by `message`, in their order.
pub open spec fn without_message(subs: Seq<Submission>, message: u64) -> Seq<Submission>
    decreases subs.len(),
{
    if subs.len() == 0 {
        subs
    } else {
        let rest = without_message(subs.drop_last(), message);
        if subs.last().message != message {
            rest.push(subs.last())
        } else {
            rest
        }
    }
}


/// What un-marking keeps, in the terms of `Seq::filter`: the submissions not
/// held by `message`, in their order.
pub proof fn law_without_message_is_filter(subs: Seq<Submission>, message: u64)
    ensures
        without_message(subs, message) == subs.filter(|s: Submission| s.message != message),
    decreases subs.len(),
{
    reveal(Seq::filter);
    if subs.len() > 0 {
        law_without_message_is_filter(subs.drop_last(), message);
    } else {
        assert(subs.filter(|s: Submission| s.message != message) =~= subs);
    }
}

/// No two submissions of `subs` are held by the same message.
pub open spec fn unique_messages(subs: Seq<Submission>) -> bool {
    forall|i: int, j: int|
        0 <= i < j < subs.len() ==> #[trigger] subs[i].message != #[trigger] subs[j].message
}

/// Removing a message that holds nothing leaves the submissions as they are.
pub proof fn lemma_without_absent(subs: Seq<Submission>, message: u64)
    requires
        !holds_message(subs, message),
    ensures
        without_message(subs, message) == subs,
    decreases subs.len(),
{
    if subs.len() > 0 {
        assert(!holds_message(subs.drop_last(), message)) by {
            if holds_message(subs.drop_last(), message) {
                let i = choose|i: int| 0 <= i < subs.drop_last().len() && subs.drop_last()[i].message == message;
                assert(subs[i].message == message);
            }
        }
        lemma_without_absent(subs.drop_last(), message);
        assert(subs.last().message != message) by {
            if subs.last().message == message {
                assert(subs[subs.len() - 1].message == message);
            }
        }
        assert(subs.drop_last().push(subs.last()) =~= subs);
    }
}

proof fn lemma_without_has_none(subs: Seq<Submission>, message: u64)
    ensures
        !holds_message(without_message(subs, message), message),
        without_message(subs, message).len() <= subs.len(),
    decreases subs.len(),
{
    if subs.len() > 0 {
        lemma_without_has_none(subs.drop_last(), message);
        let rest = without_message(subs.drop_last(), message);
        if subs.last().message != message {
            assert forall|i: int| 0 <= i < rest.push(subs.last()).len() implies
                rest.push(subs.last())[i].message != message by {
                if i < rest.len() {
                    assert(rest.push(subs.last())[i] == rest[i]);
                }
            }
        }
    }
}

proof fn lemma_without_single(subs: Seq<Submission>, message: u64, p: int)
    requires
        0 <= p < subs.len(),
        subs[p].message == message,
        forall|i: int| 0 <= i < subs.len() && i != p ==> subs[i].message != message,
    ensures
        subs.remove(p) == without_message(subs, message),
    decreases subs.len(),
{
    let last = subs.len() - 1;
    if p == last {
        assert(!holds_message(subs.drop_last(), message)) by {
            if holds_message(subs.drop_last(), message) {
                let i = choose|i: int| 0 <= i < subs.drop_last().len() && subs.drop_last()[i].message == message;
                assert(subs[i].message == message);
            }
        }
        lemma_without_absent(subs.drop_last(), message);
        assert(subs.remove(p) =~= subs.drop_last());
    } else {
        assert(subs[last].message != message);
        lemma_without_single(subs.drop_last(), message, p);
        assert(subs.remove(p) =~= subs.drop_last().remove(p).push(subs.last()));
    }
}

pub proof fn lemma_unique_positions(subs: Seq<Submission>, message: u64)
    requires
        unique_messages(subs),
    ensures
        message_positions(subs, message).len() <= 1,
    decreases subs.len(),
{
    if subs.len() > 0 {
        let init = subs.drop_last();
        assert(unique_messages(init)) by {
            assert forall|i: int, j: int| 0 <= i < j < init.len() implies
                #[trigger] init[i].message != #[trigger] init[j].message by {
                assert(subs[i].message != subs[j].message);
            }
        }
        lemma_unique_positions(init, message);
        let rest = message_positions(init, message);
        if subs.last().message == message && rest.len() > 0 {
            lemma_positions_bounds(init, message);
            let p = rest[0];
            assert(init[p].message == message);
            assert(subs[p].message != subs[subs.len() - 1].message);
        }
    }
}

/// Where `message` holds at most one submission of `subs`, removing its
/// submissions in turn stays in bounds and leaves exactly the others.
pub proof fn lemma_remove_at_most_one(subs: Seq<Submission>, message: u64)
    requires
        message_positions(subs, message).len() <= 1,
    ensures
        removals_fit(subs, message_positions(subs, message)),
        remove_in_turn(subs, message_positions(subs, message)) == without_message(subs, message),
{
    let pos = message_positions(subs, message);
    lemma_positions_bounds(subs, message);
    if pos.len() == 0 {
        assert(!holds_message(subs, message)) by {
            if holds_message(subs, message) {
                let i = choose|i: int| 0 <= i < subs.len() && subs[i].message == message;
                assert(pos.contains(i));
            }
        }
        lemma_without_absent(subs, message);
        assert(removals_fit(subs, pos));
        assert(remove_in_turn(subs, pos) == subs);
    } else {
        let p = pos[0];
        assert(pos.drop_last() =~= Seq::<int>::empty());
        assert(pos.drop_last().len() == 0);
        assert(remove_in_turn(subs, pos.drop_last()) == subs);
        assert(removals_fit(subs, pos.drop_last()));
        assert(pos.last() == p);
        assert(removals_fit(subs, pos));
        assert(remove_in_turn(subs, pos) == subs.remove(p));
        assert forall|i: int| 0 <= i < subs.len() && i != p implies subs[i].message != message by {
            if subs[i].message == message {
                assert(pos.contains(i));
            }
        }
        lemma_without_single(subs, message, p);
    }
}

proof fn lemma_removals_fit_prefix(subs: Seq<Submission>, idx: Seq<int>, k: int)
    requires
        removals_fit(subs, idx),
        0 <= k <= idx.len(),
    ensures
        removals_fit(subs, idx.take(k)),
        remove_in_turn(subs, idx.take(k)).len() == subs.len() - k,
    decreases idx.len(),
{
    if idx.len() == 0 {
        assert(idx.take(k) =~= idx);
    } else if k == idx.len() {
        assert(idx.take(k) =~= idx);
        lemma_removals_fit_prefix(subs, idx.drop_last(), k - 1);
        assert(idx.drop_last().take(k - 1) =~= idx.drop_last());
    } else {
        lemma_removals_fit_prefix(subs, idx.drop_last(), k);
        assert(idx.drop_last().take(k) =~= idx.take(k));
    }
}


/// Which positions `remove_submission` collects: exactly the positions of the
/// submissions held by `message`, each once, in ascending order.
pub proof fn law_message_positions(subs: Seq<Submission>, message: u64)
    ensures
        forall|k: int| 0 <= k < message_positions(subs, message).len() ==> {
            let p = #[trigger] message_positions(subs, message)[k];
            &&& 0 <= p < subs.len()
            &&& subs[p].message == message
        },
        forall|k1: int, k2: int| 0 <= k1 < k2 < message_positions(subs, message).len() ==>
            #[trigger] message_positions(subs, message)[k1] < #[trigger] message_positions(subs, message)[k2],
        forall|p: int| 0 <= p < subs.len() && subs[p].message == message ==>
            message_positions(subs, message).contains(p),
    decreases subs.len(),
{
    lemma_positions_bounds(subs, message);
    if subs.len() > 0 {
        law_message_positions(subs.drop_last(), message);
        lemma_positions_bounds(subs.drop_last(), message);
        let rest = message_positions(subs.drop_last(), message);
        let pos = message_positions(subs, message);
        assert forall|k1: int, k2: int| 0 <= k1 < k2 < pos.len() implies
            #[trigger] pos[k1] < #[trigger] pos[k2] by {
            if subs.last().message == message {
                assert(pos == rest.push(subs.len() - 1));
                if k2 < rest.len() {
                    assert(rest[k1] < rest[k2]);
                } else {
                    assert(rest[k1] < subs.len() - 1);
                }
            } else {
                assert(pos == rest);
                assert(rest[k1] < rest[k2]);
            }
        }
    }
}

proof fn lemma_positions_bounds(subs: Seq<Submission>, message: u64)
    ensures
        forall|k: int| 0 <= k < message_positions(subs, message).len() ==> {
            let p = #[trigger] message_positions(subs, message)[k];
            &&& 0 <= p < subs.len()
            &&& subs[p].message == message
        },
        forall|p: int| 0 <= p < subs.len() && subs[p].message == message ==>
            message_positions(subs, message).contains(p),
        message_positions(subs, message).len() <= subs.len(),
    decreases subs.len(),
{
    if subs.len() > 0 {
        lemma_positions_bounds(subs.drop_last(), message);
        let rest = message_positions(subs.drop_last(), message);
        assert forall|p: int| 0 <= p < subs.len() && subs[p].message == message implies
            message_positions(subs, message).contains(p) by {
            if p < subs.len() - 1 {
                assert(subs.drop_last()[p] == subs[p]);
                assert(rest.contains(p));
                let k = choose|k: int| 0 <= k < rest.len() && rest[k] == p;
                if subs.last().message == message {
                    assert(message_positions(subs, message) == rest.push(subs.len() - 1));
                } else {
                    assert(message_positions(subs, message) == rest);
                }
                assert(message_positions(subs, message)[k] == p);
            } else {
                assert(message_positions(subs, message)[rest.len() as int] == p);
            }
        }
    }
}

/// Un-marking a submission: on a challenge whose submissions are held by
/// distinct messages, `remove_submission(message)` never leaves its bounds,
/// removes exactly the submission held by `message` and keeps the others in
/// their order; afterwards no submission is held by `message`.
pub proof fn law_remove_submission_unique(subs: Seq<Submission>, message: u64)
    requires
        unique_messages(subs),
    ensures
        removals_fit(subs, message_positions(subs, message)),
        remove_in_turn(subs, message_positions(subs, message)) == without_message(subs, message),
        remove_in_turn(subs, message_positions(subs, message)) == subs.filter(
            |s: Submission| s.message != message,
        ),
        !holds_message(remove_in_turn(subs, message_positions(subs, message)), message),
{
    law_without_message_is_filter(subs, message);
    lemma_unique_positions(subs, message);
    lemma_remove_at_most_one(subs, message);
    lemma_without_has_none(subs, message);
}


/// Every challenge of `chs` holds each message at most once.
pub open spec fn submissions_unique(chs: Seq<Challenge>) -> bool {
    forall|i: int| 0 <= i < chs.len() ==> unique_messages(#[trigger] chs[i].submissions@)
}

/// Replacing the submissions of one challenge by ones without repeats keeps
/// every challenge without repeats.
pub proof fn lemma_replaced_unique(
    old: Seq<Challenge>,
    new: Seq<Challenge>,
    i: int,
    subs: Seq<Submission>,
)
    requires
        submissions_unique(old),
        replaced_submissions(old, new, i, subs),
        unique_messages(subs),
    ensures
        submissions_unique(new),
{
    assert forall|k: int| 0 <= k < new.len() implies unique_messages(#[trigger] new[k].submissions@) by {
        if k != i {
            assert(new[k] == old[k]);
        }
    }
}

/// Adding a submission of a message not held yet keeps the messages distinct.
pub proof fn lemma_push_unique(subs: Seq<Submission>, s: Submission)
    requires
        unique_messages(subs),
        !holds_message(subs, s.message),
    ensures
        unique_messages(subs.push(s)),
        holds_message(subs.push(s), s.message),
{
    let n = subs.push(s);
    assert forall|i: int, j: int| 0 <= i < j < n.len() implies
        #[trigger] n[i].message != #[trigger] n[j].message by {
        if j == subs.len() {
            assert(n[i] == subs[i]);
        } else {
            assert(n[i] == subs[i] && n[j] == subs[j]);
        }
    }
    assert(n[subs.len() as int] == s);
}

/// Changing one submission but not its message keeps the messages distinct.
pub proof fn lemma_update_unique(subs: Seq<Submission>, j: int, s: Submission)
    requires
        unique_messages(subs),
        0 <= j < subs.len(),
        s.message == subs[j].message,
    ensures
        unique_messages(subs.update(j, s)),
{
    let n = subs.update(j, s);
    assert forall|a: int, b: int| 0 <= a < b < n.len() implies
        #[trigger] n[a].message != #[trigger] n[b].message by {
        assert(n[a].message == subs[a].message);
        assert(n[b].message == subs[b].message);
    }
}

/// Removing one submission keeps the messages distinct.
pub proof fn lemma_remove_unique(subs: Seq<Submission>, j: int)
    requires
        unique_messages(subs),
        0 <= j < subs.len(),
    ensures
        unique_messages(subs.remove(j)),
{
    let n = subs.remove(j);
    assert forall|a: int, b: int| 0 <= a < b < n.len() implies
        #[trigger] n[a].message != #[trigger] n[b].message by {
        let a0 = if a < j { a } else { a + 1 };
        let b0 = if b < j { b } else { b + 1 };
        assert(n[a] == subs[a0]);
        assert(n[b] == subs[b0]);
    }
}


/// Un-marking keeps the messages of a challenge distinct.
pub proof fn lemma_withdraw_unique(subs: Seq<Submission>, message: u64)
    requires
        unique_messages(subs),
    ensures
        unique_messages(remove_in_turn(subs, message_positions(subs, message))),
{
    let pos = message_positions(subs, message);
    lemma_unique_positions(subs, message);
    lemma_positions_bounds(subs, message);
    if pos.len() == 1 {
        assert(pos.drop_last() =~= Seq::<int>::empty());
        assert(remove_in_turn(subs, pos.drop_last()) == subs);
        assert(remove_in_turn(subs, pos) == subs.remove(pos[0]));
        lemma_remove_unique(subs, pos[0]);
    } else {
        assert(remove_in_turn(subs, pos) == subs);
    }
}

impl Challenge {
    /// The position of the first submission held by `message`.
    pub fn find_submission(&self, message: u64) -> (r: Option<usize>)
        ensures
            match r {
                Some(i) => first_submission(self.submissions@, message, i as int),
                None => !holds_message(self.submissions@, message),
            },
    {
        let mut i: usize = 0;
        while i < self.submissions.len()
            invariant
                i <= self.submissions@.len(),
                forall|j: int| 0 <= j < i ==> self.submissions@[j].message != message,
            decreases self.submissions@.len() - i,
        {
            if self.submissions[i].message == message {
                return Some(i);
            }
            i += 1;
        }
        None
    }

    /// Whether `message` holds a submission to this challenge.
    pub fn has_submission(&self, message: u64) -> (r: bool)
        ensures
            r == holds_message(self.submissions@, message),
    {
        self.find_submission(message).is_some()
    }

    /// The positions of all submissions held by `message`, ascending.
    fn positions_of(&self, message: u64) -> (r: Vec<usize>)
        ensures
            r@.len() == message_positions(self.submissions@, message).len(),
            forall|k: int| 0 <= k < r@.len() ==>
                r@[k] as int == #[trigger] message_positions(self.submissions@, message)[k],
    {
        let mut removed: Vec<usize> = Vec::new();
        let mut i: usize = 0;
        while i < self.submissions.len()
            invariant
                i <= self.submissions@.len(),
                removed@.len() == message_positions(self.submissions@.take(i as int), message).len(),
                forall|k: int| 0 <= k < removed@.len() ==>
                    removed@[k] as int == #[trigger] message_positions(self.submissions@.take(i as int), message)[k],
            decreases self.submissions@.len() - i,
        {
            proof {
                assert(self.submissions@.take(i + 1).drop_last() =~= self.submissions@.take(i as int));
            }
            if self.submissions[i].message == message {
                removed.push(i);
            }
            i += 1;
        }
        proof {
            assert(self.submissions@.take(i as int) =~= self.submissions@);
        }
        removed
    }

    /// Whether `remove_submission(message)` finds each of its positions in
    /// bounds.
    pub fn removal_in_bounds(&self, message: u64) -> (r: bool)
        ensures
            r == removals_fit(self.submissions@, message_positions(self.submissions@, message)),
    {
        let removed = self.positions_of(message);
        let ghost subs = self.submissions@;
        let ghost pos = message_positions(subs, message);
        let len = self.submissions.len();
        proof {
            lemma_positions_bounds(subs, message);
            assert(pos.take(0) =~= Seq::<int>::empty());
        }
        let mut k: usize = 0;
        while k < removed.len()
            invariant
                k <= removed@.len(),
                len == subs.len(),
                subs == self.submissions@,
                pos == message_positions(subs, message),
                removed@.len() == pos.len(),
                pos.len() <= subs.len(),
                forall|t: int| 0 <= t < removed@.len() ==> removed@[t] as int == #[trigger] pos[t],
                removals_fit(subs, pos.take(k as int)),
                remove_in_turn(subs, pos.take(k as int)).len() == subs.len() - k,
            decreases removed@.len() - k,
        {
            proof {
                assert(pos.take(k + 1).drop_last() =~= pos.take(k as int));
                assert(pos.take(k + 1).last() == pos[k as int]);
            }
            if removed[k] >= len - k {
                proof {
                    if removals_fit(subs, pos) {
                        lemma_removals_fit_prefix(subs, pos, k + 1);
                        assert(removals_fit(subs, pos.take(k + 1)));
                        assert(false);
                    }
                    assert(!removals_fit(subs, pos));
                }
                return false;
            }
            k += 1;
        }
        proof {
            lemma_positions_bounds(subs, message);
            assert(pos.take(k as int) =~= pos);
        }
        true
    }

    /// Removes the submissions held by `message`: it collects their positions
    /// first, then removes the element at each collected position in turn from
    /// what the earlier removals left.
    pub fn remove_submission(&mut self, message: u64)
        requires
            removals_fit(old(self).submissions@, message_positions(old(self).submissions@, message)),
        ensures
            same_but_submissions(*final(self), *old(self)),
            final(self).submissions@ == remove_in_turn(
                old(self).submissions@,
                message_positions(old(self).submissions@, message),
            ),
    {
        let removed = self.positions_of(message);
        let ghost subs = self.submissions@;
        let ghost pos = message_positions(subs, message);
        proof {
            lemma_positions_bounds(subs, message);
        }
        let mut k: usize = 0;
        while k < removed.len()
            invariant
                k <= removed@.len(),
                removed@.len() == pos.len(),
                forall|t: int| 0 <= t < removed@.len() ==> removed@[t] as int == #[trigger] pos[t],
                removals_fit(subs, pos),
                self.submissions@ == remove_in_turn(subs, pos.take(k as int)),
                same_but_submissions(*self, *old(self)),
                subs == old(self).submissions@,
            decreases removed@.len() - k,
        {
            proof {
                lemma_removals_fit_prefix(subs, pos, k + 1);
                assert(pos.take(k + 1).drop_last() =~= pos.take(k as int));
                assert(pos.take(k + 1).last() == pos[k as int]);
            }
            self.submissions.remove(removed[k]);
            k += 1;
        }
        proof {
            assert(pos.take(k as int) =~= pos);
        }
    }

    /// The first submission held by `message`, to be changed in place.
    pub fn get_submission(&mut self, message: u64) -> (r: Option<&mut Submission>)
        ensures
            r is None <==> !holds_message(old(self).submissions@, message),
            r is None ==> *final(self) == *old(self),
            r matches Some(s) ==> {
                let i = submission_position(old(self).submissions@, message);
                &&& first_submission(old(self).submissions@, message, i)
                &&& *s == old(self).submissions@[i]
                &&& same_but_submissions(*final(self), *old(self))
                &&& final(self).submissions@ == old(self).submissions@.update(i, *final(s))
            },
    {
        match self.find_submission(message) {
            Some(i) => {
                proof {
                    lemma_submission_position(self.submissions@, message, i as int);
                }
                Some(&mut self.submissions[i])
            },
            None => None,
        }
    }
}

impl Database {
    /// The position of the first challenge called `name`.
    pub fn find_challenge(&self, name: &str) -> (r: Option<usize>)
        ensures
            match r {
                Some(i) => first_challenge(self.challenges@, name@, i as int),
                None => !names_challenge(self.challenges@, name@),
            },
    {
        let mut i: usize = 0;
        while i < self.challenges.len()
            invariant
                i <= self.challenges@.len(),
                forall|j: int| 0 <= j < i ==> self.challenges@[j].name@ != name@,
            decreases self.challenges@.len() - i,
        {
            if str_eq(self.challenges[i].name.as_str(), name) {
                return Some(i);
            }
            i += 1;
        }
        None
    }

    /// Whether a challenge is called `name`.
    pub fn has_challenge(&self, name: &str) -> (r: bool)
        ensures
            r == names_challenge(self.challenges@, name@),
    {
        self.find_challenge(name).is_some()
    }

    /// The first challenge called `name`, to be changed in place.
    pub fn get_challenge(&mut self, name: &str) -> (r: Option<&mut Challenge>)
        ensures
            r is None <==> !names_challenge(old(self).challenges@, name@),
            r is None ==> *final(self) == *old(self),
            r matches Some(c) ==> {
                let i = challenge_position(old(self).challenges@, name@);
                &&& first_challenge(old(self).challenges@, name@, i)
                &&& *c == old(self).challenges@[i]
                &&& final(self).challenges@ == old(self).challenges@.update(i, *final(c))
            },
    {
        match self.find_challenge(name) {
            Some(i) => {
                proof {
                    lemma_challenge_position(self.challenges@, name@, i as int);
                }
                Some(&mut self.challenges[i])
            },
            None => None,
        }
    }
}

} // verus!
