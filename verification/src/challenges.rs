use vstd::prelude::*;

use crate::database::{
    is_before, submissions_unique, unique_messages, Challenge, Database, Submission, Timestamp,
};
use crate::text::{
    all_digits, decimal, digits_part, is_digit, trim_end, trim_start, white_space,
    first_newline_at, lowercase, parse_u64, parse_u64_bytes, parsed_u64, split_line, starts_with,
    str_eq, strip_prefix, to_lowercase, trim, trimmed,
};

verus! {

// ---------------------------------------------------------------------------
// Deadlines
// ---------------------------------------------------------------------------

/// What chrono computes for the UTC instant (`secs`, `nanos`) plus `days`
/// whole days, as seconds and nanoseconds, or `None` where chrono refuses.
pub uninterp spec fn datetime_plus_days(secs: i64, nanos: u32, days: i64) -> Option<(i64, u32)>;

/// The largest number of whole seconds a chrono `TimeDelta` can hold.
pub open spec fn max_delta_secs() -> int {
    9_223_372_036_854_775
}

/// `DateTime::<Utc>::checked_add_signed` of chrono, on the instant that
/// `DateTime::from_timestamp(now.secs, now.nanos)` makes and the duration
/// that `TimeDelta::try_days(days)` makes; the sum is read back with
/// `timestamp` and `timestamp_subsec_nanos`. `None` where any of them refuses.
/// The contract names the result, says that `try_days` refuses more than
/// `i64::MAX / 1000` seconds either way, and that, away from a leap second,
/// the sum lies exactly `days * 86400` seconds later. Which instants chrono's
/// date range admits is left unsaid.
#[verifier::external_body]
fn add_days(now: Timestamp, days: i64) -> (r: Option<Timestamp>)
    ensures
        match r {
            Some(e) => datetime_plus_days(now.secs, now.nanos, days) == Some((e.secs, e.nanos)),
            None => datetime_plus_days(now.secs, now.nanos, days) is None,
        },
        days * 86400 > max_delta_secs() || days * 86400 < -max_delta_secs() ==> r is None,
        now.nanos < 1_000_000_000 ==> (r matches Some(e) ==> e.secs == now.secs + days * 86400
            && e.nanos == now.nanos),
{
    let start = chrono::DateTime::from_timestamp(now.secs, now.nanos)?;
    let delta = chrono::TimeDelta::try_days(days)?;
    let end = start.checked_add_signed(delta)?;
    Some(Timestamp { secs: end.timestamp(), nanos: end.timestamp_subsec_nanos() })
}

/// The deadline of a challenge started at `now` that runs for `days` days;
/// `None` where chrono cannot represent it.
pub fn challenge_end(now: Timestamp, days: i64) -> (r: Option<Timestamp>)
    ensures
        match r {
            Some(e) => datetime_plus_days(now.secs, now.nanos, days) == Some((e.secs, e.nanos)),
            None => datetime_plus_days(now.secs, now.nanos, days) is None,
        },
        days * 86400 > max_delta_secs() || days * 86400 < -max_delta_secs() ==> r is None,
        now.nanos < 1_000_000_000 ==> (r matches Some(e) ==> e.secs == now.secs + days * 86400
            && e.nanos == now.nanos),
{
    add_days(now, days)
}

/// Opens a challenge called `name` in `channel` that ends at `end`.
pub fn start(db: &mut Database, name: String, end: Timestamp, channel: u64)
    ensures
        final(db).challenges@.len() == old(db).challenges@.len() + 1,
        forall|k: int| 0 <= k < old(db).challenges@.len() ==> final(db).challenges@[k] == old(
            db,
        ).challenges@[k],
        ({
            let c = final(db).challenges@.last();
            &&& c.active
            &&& c.name == name
            &&& c.time == end
            &&& c.channel == channel
            &&& c.submissions@ == Seq::<Submission>::empty()
        }),
        submissions_unique(old(db).challenges@) ==> submissions_unique(final(db).challenges@),
{
    db.challenges.push(Challenge { active: true, name, time: end, channel, submissions: Vec::new() });
    proof {
        let chs = db.challenges@;
        if submissions_unique(old(db).challenges@) {
            assert forall|k: int| 0 <= k < chs.len() implies unique_messages(
                #[trigger] chs[k].submissions@,
            ) by {
                if k < chs.len() - 1 {
                    assert(chs[k] == old(db).challenges@[k]);
                }
            }
        }
    }
}

// ---------------------------------------------------------------------------
// Closing challenges whose time is up
// ---------------------------------------------------------------------------

/// The challenge is still open but its deadline lies before `now`.
pub open spec fn expires(c: Challenge, now: Timestamp) -> bool {
    c.active && is_before(c.time, now)
}

/// The channels of the challenges of `chs` that expire at `now`, in order.
pub open spec fn expired_channels(chs: Seq<Challenge>, now: Timestamp) -> Seq<u64>
    decreases chs.len(),
{
    if chs.len() == 0 {
        Seq::empty()
    } else {
        let rest = expired_channels(chs.drop_last(), now);
        if expires(chs.last(), now) {
            rest.push(chs.last().channel)
        } else {
            rest
        }
    }
}

/// `new` is `old` closed at `now`: every challenge that expires becomes
/// inactive, and nothing else changes.
pub open spec fn closed_at(old: Challenge, new: Challenge, now: Timestamp) -> bool {
    &&& new.active == (old.active && !is_before(old.time, now))
    &&& new.name == old.name
    &&& new.time == old.time
    &&& new.channel == old.channel
    &&& new.submissions == old.submissions
}


/// Which channels closing reports: exactly the channels of the challenges
/// that are open and whose deadline lies strictly before `now`, one for each
/// such challenge, in database order.
pub proof fn law_closed_channels(chs: Seq<Challenge>, now: Timestamp)
    ensures
        expired_channels(chs, now) == chs.filter(
            |c: Challenge|
                c.active && (c.time.secs < now.secs || (c.time.secs == now.secs && c.time.nanos
                    < now.nanos)),
        ).map_values(|c: Challenge| c.channel),
    decreases chs.len(),
{
    let pred = |c: Challenge|
        c.active && (c.time.secs < now.secs || (c.time.secs == now.secs && c.time.nanos < now.nanos));
    let f = |c: Challenge| c.channel;
    reveal(Seq::filter);
    if chs.len() == 0 {
        assert(chs.filter(pred) =~= Seq::<Challenge>::empty());
        assert(chs.filter(pred).map_values(f) =~= Seq::<u64>::empty());
    } else {
        law_closed_channels(chs.drop_last(), now);
        let sub = chs.drop_last().filter(pred);
        if pred(chs.last()) {
            assert(chs.filter(pred) == sub.push(chs.last()));
            assert(sub.push(chs.last()).map_values(f) =~= sub.map_values(f).push(chs.last().channel));
        } else {
            assert(chs.filter(pred) == sub);
        }
    }
}

/// Closes every open challenge whose deadline lies before `now` and returns
/// their channels, in order (the database needs saving when there is any).
pub fn update_challenges(db: &mut Database, now: Timestamp) -> (r: Vec<u64>)
    ensures
        r@ == expired_channels(old(db).challenges@, now),
        r@ == old(db).challenges@.filter(
            |c: Challenge|
                c.active && (c.time.secs < now.secs || (c.time.secs == now.secs && c.time.nanos
                    < now.nanos)),
        ).map_values(|c: Challenge| c.channel),
        final(db).challenges@.len() == old(db).challenges@.len(),
        forall|k: int| 0 <= k < old(db).challenges@.len() ==> closed_at(
            old(db).challenges@[k],
            #[trigger] final(db).challenges@[k],
            now,
        ),
        forall|k: int| 0 <= k < final(db).challenges@.len() ==> !expires(
            #[trigger] final(db).challenges@[k],
            now,
        ),
        submissions_unique(old(db).challenges@) ==> submissions_unique(final(db).challenges@),
{
    let ghost chs = db.challenges@;
    let mut channels: Vec<u64> = Vec::new();
    let mut i: usize = 0;
    while i < db.challenges.len()
        invariant
            i <= db.challenges@.len(),
            db.challenges@.len() == chs.len(),
            chs == old(db).challenges@,
            channels@ == expired_channels(chs.take(i as int), now),
            forall|k: int| 0 <= k < i ==> closed_at(chs[k], #[trigger] db.challenges@[k], now),
            forall|k: int| i <= k < chs.len() ==> #[trigger] db.challenges@[k] == chs[k],
        decreases db.challenges@.len() - i,
    {
        proof {
            assert(chs.take(i + 1).drop_last() =~= chs.take(i as int));
            assert(chs.take(i + 1).last() == chs[i as int]);
        }
        if db.challenges[i].active && now.is_after(&db.challenges[i].time) {
            db.challenges[i].active = false;
            channels.push(db.challenges[i].channel);
        }
        i += 1;
    }
    proof {
        assert(chs.take(i as int) =~= chs);
        law_closed_channels(chs, now);
        assert forall|k: int| 0 <= k < chs.len() implies #[trigger] db.challenges@[k].submissions@
            == chs[k].submissions@ by {
            assert(closed_at(chs[k], db.challenges@[k], now));
        }
    }
    channels
}

/// Closing is idempotent: where no challenge expires at `now` (as after
/// `update_challenges(now)`), there is no channel to close.
pub proof fn law_update_challenges_idempotent(chs: Seq<Challenge>, now: Timestamp)
    requires
        forall|k: int| 0 <= k < chs.len() ==> !expires(#[trigger] chs[k], now),
    ensures
        expired_channels(chs, now) == Seq::<u64>::empty(),
    decreases chs.len(),
{
    if chs.len() > 0 {
        let init = chs.drop_last();
        assert forall|k: int| 0 <= k < init.len() implies !expires(#[trigger] init[k], now) by {
            assert(init[k] == chs[k]);
        }
        law_update_challenges_idempotent(init, now);
        assert(!expires(chs[chs.len() - 1], now));
    }
}

// ---------------------------------------------------------------------------
// Suggestions
// ---------------------------------------------------------------------------

/// A message is a challenge suggestion when it is posted in the suggestion
/// channel by someone who is not a bot.
pub fn is_suggestion(channel: u64, author_is_bot: bool, suggestion_channel: u64) -> (r: bool)
    ensures
        r == (channel == suggestion_channel && !author_is_bot),
{
    channel == suggestion_channel && !author_is_bot
}

/// The text before and after the first line break of `s`, if it has one.
pub open spec fn split_at_newline(s: Seq<char>) -> Option<(Seq<char>, Seq<char>)> {
    if s.contains('\n') {
        let i = choose|i: int| first_newline_at(s, i);
        Some((s.take(i), s.skip(i + 1)))
    } else {
        None
    }
}

proof fn lemma_split_at_newline(s: Seq<char>, i: int)
    requires
        first_newline_at(s, i),
    ensures
        split_at_newline(s) == Some((s.take(i), s.skip(i + 1))),
{
    assert(s.contains('\n')) by {
        assert(s[i] == '\n');
    }
    let j = choose|j: int| first_newline_at(s, j);
    if j < i {
        assert(s[j] != '\n');
    } else if i < j {
        assert(s[i] != '\n');
    }
}

/// A message cut into at most three pieces at its first two line breaks, as
/// `splitn(3, '\n')` cuts it: the title, the line naming the category, and the
/// description (which keeps any further line breaks).
pub struct SuggestionParts<'a> {
    pub title: &'a str,
    pub category_line: Option<&'a str>,
    pub description: Option<&'a str>,
}

/// The title of the message `s`: its first line.
pub open spec fn title_of(s: Seq<char>) -> Seq<char> {
    match split_at_newline(s) {
        Some((a, _)) => a,
        None => s,
    }
}

/// The second line of `s`, where there is one.
pub open spec fn category_line_of(s: Seq<char>) -> Option<Seq<char>> {
    match split_at_newline(s) {
        Some((_, rest)) => match split_at_newline(rest) {
            Some((b, _)) => Some(b),
            None => Some(rest),
        },
        None => None,
    }
}

/// Everything after the second line break of `s`, where there is one.
pub open spec fn description_of(s: Seq<char>) -> Option<Seq<char>> {
    match split_at_newline(s) {
        Some((_, rest)) => match split_at_newline(rest) {
            Some((_, c)) => Some(c),
            None => None,
        },
        None => None,
    }
}

fn split_newline(s: &str) -> (r: Option<(&str, &str)>)
    ensures
        match r {
            Some((a, b)) => split_at_newline(s@) == Some((a@, b@)),
            None => split_at_newline(s@) is None,
        },
{
    let r = split_line(s);
    proof {
        if let Some((a, b)) = r {
            let i = choose|i: int|
                first_newline_at(s@, i) && a@ == s@.take(i) && b@ == s@.skip(i + 1);
            lemma_split_at_newline(s@, i);
        }
    }
    r
}

/// Cuts a suggestion into its title, category line and description.
pub fn split_suggestion(content: &str) -> (r: SuggestionParts)
    ensures
        r.title@ == title_of(content@),
        match r.category_line {
            Some(l) => category_line_of(content@) == Some(l@),
            None => category_line_of(content@) is None,
        },
        match r.description {
            Some(d) => description_of(content@) == Some(d@),
            None => description_of(content@) is None,
        },
{
    match split_newline(content) {
        Some((title, rest)) => match split_newline(rest) {
            Some((line, description)) => SuggestionParts {
                title,
                category_line: Some(line),
                description: Some(description),
            },
            None => SuggestionParts { title, category_line: Some(rest), description: None },
        },
        None => SuggestionParts { title: content, category_line: None, description: None },
    }
}

/// The tag that opens a category line.
pub open spec fn type_tag() -> Seq<char> {
    seq!['t', 'y', 'p', 'e', ':']
}

/// The same tag written in bold.
pub open spec fn bold_type_tag() -> Seq<char> {
    seq!['*', '*', 't', 'y', 'p', 'e', '*', '*', ':']
}

/// What follows the tag of the (lowercased) category line, if it has one.
pub open spec fn category_text(lower: Seq<char>) -> Option<Seq<char>> {
    if starts_with(lower, type_tag()) {
        Some(lower.skip(5))
    } else if starts_with(lower, bold_type_tag()) {
        Some(lower.skip(9))
    } else {
        None
    }
}

/// The bytes of the channel mention that the category line holds.
pub open spec fn mention_bytes(category: Seq<char>) -> Seq<u8> {
    vstd::utf8::encode_utf8(trimmed(category))
}

/// Cutting the mention's first two bytes and its last one stays within the
/// text and on character boundaries (where there is a mention to cut).
pub open spec fn mention_fits(lower: Seq<char>) -> bool {
    match category_text(lower) {
        Some(c) => {
            let b = mention_bytes(c);
            &&& b.len() >= 3
            &&& vstd::utf8::is_char_boundary(b, 2)
            &&& vstd::utf8::is_char_boundary(b, b.len() - 1)
        },
        None => true,
    }
}

/// The channel id that the (lowercased) category line names: the number
/// between the first two bytes and the last byte of the trimmed text after
/// the tag, as in `<#1234>`.
pub open spec fn category_of(lower: Seq<char>) -> Option<u64> {
    match category_text(lower) {
        Some(c) => {
            let b = mention_bytes(c);
            parsed_u64(b.subrange(2, b.len() - 1))
        },
        None => None,
    }
}

fn category_part(lower: &str) -> (r: Option<&str>)
    ensures
        match r {
            Some(t) => category_text(lower@) == Some(t@),
            None => category_text(lower@) is None,
        },
{
    proof {
        reveal_strlit("type:");
        reveal_strlit("**type**:");
        assert("type:"@ =~= type_tag());
        assert("**type**:"@ =~= bold_type_tag());
    }
    match strip_prefix(lower, "type:") {
        Some(t) => Some(t),
        None => strip_prefix(lower, "**type**:"),
    }
}

/// Whether the category line `lower` (already lowercased) can be cut as
/// `category_from_lowercase` cuts it.
pub fn mention_in_bounds(lower: &str) -> (r: bool)
    ensures
        r == mention_fits(lower@),
{
    match category_part(lower) {
        Some(rest) => {
            let category = trim(rest);
            let n = category.as_bytes().len();
            n >= 3 && category.is_char_boundary(2) && category.is_char_boundary(n - 1)
        },
        None => true,
    }
}

/// The channel id named by the category line `lower` (already lowercased).
pub fn category_from_lowercase(lower: &str) -> (r: Option<u64>)
    requires
        mention_fits(lower@),
    ensures
        r == category_of(lower@),
{
    match category_part(lower) {
        Some(rest) => {
            let category = trim(rest);
            let b = category.as_bytes();
            parse_u64_bytes(b, 2, b.len() - 1)
        },
        None => None,
    }
}

/// The mention of a category line cannot be cut where the line expects it.
#[derive(Clone, Copy, Debug, PartialEq, Eq)]
pub enum MentionError {
    OutOfBounds,
}

/// The channel id named by a category line, read without regard to case;
/// `Err` where the mention cannot be cut.
pub fn get_category(line: &str) -> (r: Result<Option<u64>, MentionError>)
    ensures
        r == if mention_fits(lowercase(line@)) {
            Ok::<Option<u64>, MentionError>(category_of(lowercase(line@)))
        } else {
            Err(MentionError::OutOfBounds)
        },
{
    let lower = to_lowercase(line);
    if mention_in_bounds(lower.as_str()) {
        Ok(category_from_lowercase(lower.as_str()))
    } else {
        Err(MentionError::OutOfBounds)
    }
}

/// The text of the post that announces a suggestion: the category line and
/// the description on the lines after it.
pub open spec fn post_text(line: Seq<char>, description: Seq<char>) -> Seq<char> {
    line + seq!['\n'] + description
}

/// Joins the category line and the description into the text of the post.
pub fn post_body(line: &str, description: &str) -> (r: String)
    ensures
        r@ == post_text(line@, description@),
        r@.len() > 0,
{
    let mut body = String::from_str(line);
    body.append("\n");
    body.append(description);
    proof {
        reveal_strlit("\n");
    }
    body
}

/// What to do with a message in the suggestion channel, posted or edited.
pub enum PostPlan<'a> {
    /// The message is no suggestion: leave it.
    NotSuggestion,
    /// The suggestion does not follow the format: delete it and tell its
    /// author.
    Invalid,
    /// The category mention cannot be cut where it is expected.
    MentionOutOfBounds,
    /// Look the category channel up; if it exists and there is a body, post
    /// the suggestion, else treat it as invalid.
    Lookup { title: &'a str, category: u64, body: Option<String> },
}

/// Decides what to do with a message of text `content` (`suggestion` says
/// whether it is a suggestion at all).
pub fn try_post(suggestion: bool, content: &str) -> (r: PostPlan)
    ensures
        !suggestion ==> r is NotSuggestion,
        suggestion && category_line_of(content@) is None ==> r is Invalid,
        suggestion ==> (category_line_of(content@) matches Some(l) ==> {
            let lower = lowercase(l);
            if !mention_fits(lower) {
                r is MentionOutOfBounds
            } else if category_of(lower) is None {
                r is Invalid
            } else {
                r matches PostPlan::Lookup { title, category, body } && title@ == title_of(content@)
                    && Some(category) == category_of(lower) && match body {
                    Some(b) => description_of(content@) matches Some(d) && b@ == post_text(l, d),
                    None => description_of(content@) is None,
                }
            }
        }),
{
    if !suggestion {
        return PostPlan::NotSuggestion;
    }
    let parts = split_suggestion(content);
    let line = match parts.category_line {
        Some(line) => line,
        None => {
            return PostPlan::Invalid;
        },
    };
    let category = match get_category(line) {
        Ok(Some(category)) => category,
        Ok(None) => {
            return PostPlan::Invalid;
        },
        Err(_) => {
            return PostPlan::MentionOutOfBounds;
        },
    };
    let body = match parts.description {
        Some(d) => Some(post_body(line, d)),
        None => None,
    };
    PostPlan::Lookup { title: parts.title, category, body }
}

/// The emoji with which a moderator accepts a suggestion.
pub open spec fn check_mark() -> Seq<char> {
    "\u{2705}"@
}

/// A reaction accepts a suggestion when a moderator adds the check mark in
/// the suggestion channel (`emoji` is `None` for a custom emoji).
pub fn reaction_add(
    channel: u64,
    suggestion_channel: u64,
    moderator: bool,
    emoji: Option<&str>,
) -> (r: bool)
    ensures
        r == (channel == suggestion_channel && moderator && (emoji matches Some(e) && e@
            == check_mark())),
{
    channel == suggestion_channel && moderator && match emoji {
        Some(e) => str_eq(e, "\u{2705}"),
        None => false,
    }
}


// ---------------------------------------------------------------------------
// Reading a channel mention back
// ---------------------------------------------------------------------------

/// The decimal digit `d` as a character.
pub open spec fn digit_char(d: int) -> char {
    if d == 0 {
        '0'
    } else if d == 1 {
        '1'
    } else if d == 2 {
        '2'
    } else if d == 3 {
        '3'
    } else if d == 4 {
        '4'
    } else if d == 5 {
        '5'
    } else if d == 6 {
        '6'
    } else if d == 7 {
        '7'
    } else if d == 8 {
        '8'
    } else {
        '9'
    }
}

/// The decimal writing of `n`, without leading zeros.
pub open spec fn decimal_chars(n: nat) -> Seq<char>
    decreases n,
{
    if n < 10 {
        seq![digit_char(n as int)]
    } else {
        decimal_chars(n / 10).push(digit_char((n % 10) as int))
    }
}

/// The bytes of ASCII characters, one for one.
pub open spec fn ascii_bytes(s: Seq<char>) -> Seq<u8> {
    Seq::new(s.len(), |i: int| s[i] as u8)
}

/// A category line as Discord writes a mention of the channel `id`:
/// `type: <#id>`.
pub open spec fn mention_line(id: u64) -> Seq<char> {
    seq!['t', 'y', 'p', 'e', ':', ' ', '<', '#'] + decimal_chars(id as nat) + seq!['>']
}

proof fn lemma_digit_char(d: int)
    requires
        0 <= d <= 9,
    ensures
        digit_char(d) as u8 == 48 + d,
        '\0' <= digit_char(d) <= '\u{7f}',
        !white_space(digit_char(d)),
{
}

proof fn lemma_decimal_chars(n: nat)
    ensures
        decimal_chars(n).len() >= 1,
        forall|i: int| 0 <= i < decimal_chars(n).len() ==> '\0' <= #[trigger] decimal_chars(n)[i] <= '\u{7f}'
            && is_digit(decimal_chars(n)[i] as u8),
        all_digits(ascii_bytes(decimal_chars(n))),
        decimal(ascii_bytes(decimal_chars(n))) == n,
    decreases n,
{
    if n < 10 {
        lemma_digit_char(n as int);
        let b = ascii_bytes(decimal_chars(n));
        assert(b.drop_last() =~= Seq::<u8>::empty());
        assert(decimal(b.drop_last()) == 0);
    } else {
        lemma_decimal_chars(n / 10);
        lemma_digit_char((n % 10) as int);
        let p = decimal_chars(n / 10);
        let s = decimal_chars(n);
        assert(s == p.push(digit_char((n % 10) as int)));
        assert forall|i: int| 0 <= i < s.len() implies '\0' <= #[trigger] s[i] <= '\u{7f}' && is_digit(
            s[i] as u8,
        ) by {
            if i < p.len() {
                assert(s[i] == p[i]);
            }
        }
        let b = ascii_bytes(s);
        assert(b.drop_last() =~= ascii_bytes(p));
        assert(b.last() == 48 + n % 10);
        assert(decimal(b) == decimal(ascii_bytes(p)) * 10 + n % 10);
    }
}

/// The same mention after the bold tag: `**type**: <#id>`.
pub open spec fn bold_mention_line(id: u64) -> Seq<char> {
    seq!['*', '*', 't', 'y', 'p', 'e', '*', '*', ':', ' ', '<', '#'] + decimal_chars(id as nat)
        + seq!['>']
}

/// Every 64-bit number reads back from its decimal writing.
pub proof fn law_decimal_reads_back(n: u64)
    ensures
        parsed_u64(ascii_bytes(decimal_chars(n as nat))) == Some(n),
{
    lemma_decimal_chars(n as nat);
    let d = ascii_bytes(decimal_chars(n as nat));
    assert(d[0] != 43) by {
        assert(is_digit(decimal_chars(n as nat)[0] as u8));
    }
    assert(digits_part(d) == d);
}

proof fn lemma_mention_after_tag(l: Seq<char>, tag_len: int, id: u64)
    requires
        category_text(l) == Some(l.skip(tag_len)),
        0 <= tag_len <= l.len(),
        l.skip(tag_len) =~= seq![' ', '<', '#'] + decimal_chars(id as nat) + seq!['>'],
    ensures
        mention_fits(l),
        category_of(l) == Some(id),
{
    let digits = decimal_chars(id as nat);
    lemma_decimal_chars(id as nat);
    let c = l.skip(tag_len);
    let m = seq!['<', '#'] + digits + seq!['>'];
    assert(c.drop_first() =~= m);
    assert(c[0] == ' ');
    assert(trim_start(c) == trim_start(m));
    assert(m[0] == '<');
    assert(trim_start(m) == m);
    assert(m.last() == '>');
    assert(trim_end(m) == m);
    assert(trimmed(c) == m);
    assert(vstd::utf8::is_ascii_chars(m)) by {
        assert forall|i: int| 0 <= i < m.len() implies '\0' <= #[trigger] m[i] <= '\u{7f}' by {
            if 2 <= i < m.len() - 1 {
                assert(m[i] == digits[i - 2]);
            }
        }
    }
    let b = vstd::utf8::encode_utf8(m);
    vstd::utf8::is_ascii_chars_encode_utf8(m);
    vstd::utf8::encode_utf8_valid_utf8(m);
    assert(b.len() == m.len());
    assert(b.len() >= 4);
    vstd::utf8::is_char_boundary_iff_not_is_continuation_byte(b, 2);
    vstd::utf8::is_char_boundary_iff_not_is_continuation_byte(b, b.len() - 1);
    assert(b[2] == m[2] as u8);
    assert(m[2] == digits[0]);
    assert(b[b.len() - 1] == m[m.len() - 1] as u8);
    assert(mention_fits(l));
    let d = b.subrange(2, b.len() - 1);
    assert(d =~= ascii_bytes(digits)) by {
        assert forall|i: int| 0 <= i < d.len() implies d[i] == ascii_bytes(digits)[i] by {
            assert(d[i] == b[i + 2]);
            assert(b[i + 2] == m[i + 2] as u8);
            assert(m[i + 2] == digits[i]);
        }
    }
    law_decimal_reads_back(id);
}

/// A mention of any channel reads back as that channel: for every id, the
/// lines `type: <#id>` and `**type**: <#id>` can be cut where the mention is
/// expected, and they name exactly the channel `id`, however many digits the
/// id has.
pub proof fn law_mention_reads_back(id: u64)
    ensures
        mention_fits(mention_line(id)),
        category_of(mention_line(id)) == Some(id),
        mention_fits(bold_mention_line(id)),
        category_of(bold_mention_line(id)) == Some(id),
{
    let l = mention_line(id);
    assert(l.take(5) =~= type_tag());
    lemma_mention_after_tag(l, 5, id);
    let k = bold_mention_line(id);
    assert(k[0] == '*');
    assert(k.take(5) != type_tag()) by {
        assert(k.take(5)[0] != type_tag()[0]);
    }
    assert(k.take(9) =~= bold_type_tag());
    lemma_mention_after_tag(k, 9, id);
}

/// How a suggestion is cut: the title and the category line hold no line
/// break, and title, category line and description, joined by line breaks,
/// give back the whole message.
pub proof fn law_split_suggestion(s: Seq<char>)
    ensures
        !title_of(s).contains('\n'),
        category_line_of(s) is None ==> title_of(s) == s,
        category_line_of(s) matches Some(l) ==> !l.contains('\n') && match description_of(s) {
            Some(d) => s == title_of(s) + seq!['\n'] + l + seq!['\n'] + d,
            None => s == title_of(s) + seq!['\n'] + l,
        },
{
    lemma_split_at_newline_law(s);
    if let Some((a, rest)) = split_at_newline(s) {
        lemma_split_at_newline_law(rest);
        if let Some((l, d)) = split_at_newline(rest) {
            assert(s =~= a + seq!['\n'] + l + seq!['\n'] + d);
        } else {
            assert(s =~= a + seq!['\n'] + rest);
        }
    }
}

proof fn lemma_split_at_newline_law(s: Seq<char>)
    ensures
        match split_at_newline(s) {
            Some((a, b)) => s == a + seq!['\n'] + b && !a.contains('\n'),
            None => !s.contains('\n'),
        },
{
    if s.contains('\n') {
        let k = choose|k: int| 0 <= k < s.len() && s[k] == '\n';
        lemma_first_newline_exists(s, k);
        let i = choose|i: int| first_newline_at(s, i);
        assert(s =~= s.take(i) + seq!['\n'] + s.skip(i + 1));
        assert(!s.take(i).contains('\n')) by {
            if s.take(i).contains('\n') {
                let j = choose|j: int| 0 <= j < s.take(i).len() && s.take(i)[j] == '\n';
                assert(s[j] == '\n');
            }
        }
    }
}

proof fn lemma_first_newline_exists(s: Seq<char>, k: int)
    requires
        0 <= k < s.len(),
        s[k] == '\n',
    ensures
        exists|i: int| first_newline_at(s, i),
    decreases k,
{
    if forall|j: int| 0 <= j < k ==> s[j] != '\n' {
        assert(first_newline_at(s, k));
    } else {
        let j = choose|j: int| 0 <= j < k && s[j] == '\n';
        lemma_first_newline_exists(s, j);
    }
}

/// What accepting a suggestion needs from its text.
pub enum Acceptance<'a> {
    /// The suggestion has no category line.
    MissingCategoryLine,
    /// The category mention cannot be cut where it is expected.
    MentionOutOfBounds,
    /// The category line names no channel.
    NoCategory,
    /// Create the channel `title` in the category of the channel `category`;
    /// `description` is what to pin there.
    Create { title: &'a str, category: u64, description: Option<&'a str> },
}

/// Reads an accepted suggestion.
pub fn acceptance(content: &str) -> (r: Acceptance)
    ensures
        category_line_of(content@) is None ==> r is MissingCategoryLine,
        category_line_of(content@) matches Some(l) ==> {
            let lower = lowercase(l);
            if !mention_fits(lower) {
                r is MentionOutOfBounds
            } else if category_of(lower) is None {
                r is NoCategory
            } else {
                r matches Acceptance::Create { title, category, description } && title@
                    == title_of(content@) && Some(category) == category_of(lower) && match description {
                    Some(d) => description_of(content@) == Some(d@),
                    None => description_of(content@) is None,
                }
            }
        },
{
    let parts = split_suggestion(content);
    let line = match parts.category_line {
        Some(line) => line,
        None => {
            return Acceptance::MissingCategoryLine;
        },
    };
    match get_category(line) {
        Ok(Some(category)) => Acceptance::Create {
            title: parts.title,
            category,
            description: parts.description,
        },
        Ok(None) => Acceptance::NoCategory,
        Err(_) => Acceptance::MentionOutOfBounds,
    }
}

/// The message id that the suggestion command names.
pub fn suggestion(id: &str) -> (r: Option<u64>)
    ensures
        r == parsed_u64(vstd::utf8::encode_utf8(id@)),
{
    parse_u64(id)
}

} // verus!
