use vstd::prelude::*;

verus! {

// ---------------------------------------------------------------------------
// What std computes on text
// ---------------------------------------------------------------------------

/// Equality of two string slices (`<str as PartialEq>::eq`): the same
/// characters in the same order.
#[verifier::external_body]
pub(crate) fn str_eq(a: &str, b: &str) -> (r: bool)
    ensures
        r == (a@ == b@),
{
    a == b
}

/// What `str::to_lowercase` makes of the characters `s`: Unicode's full
/// lowercase mapping, which depends on the whole string and not only on each
/// character.
pub uninterp spec fn lowercase(s: Seq<char>) -> Seq<char>;

/// `str::to_lowercase`; the contract only names the result.
#[verifier::external_body]
pub(crate) fn to_lowercase(s: &str) -> (r: String)
    ensures
        r@ == lowercase(s@),
{
    s.to_lowercase()
}

/// The characters with Unicode's White_Space property.
pub open spec fn white_space(c: char) -> bool {
    ||| '\u{9}' <= c <= '\u{d}'
    ||| c == ' '
    ||| c == '\u{85}'
    ||| c == '\u{a0}'
    ||| c == '\u{1680}'
    ||| '\u{2000}' <= c <= '\u{200a}'
    ||| c == '\u{2028}'
    ||| c == '\u{2029}'
    ||| c == '\u{202f}'
    ||| c == '\u{205f}'
    ||| c == '\u{3000}'
}

/// `char::is_whitespace`: whether `c` has the White_Space property.
#[verifier::external_body]
fn is_whitespace(c: char) -> (r: bool)
    ensures
        r == white_space(c),
{
    c.is_whitespace()
}

/// The first `\n` of `s` lies at position `i`.
pub open spec fn first_newline_at(s: Seq<char>, i: int) -> bool {
    &&& 0 <= i < s.len()
    &&& s[i] == '\n'
    &&& forall|j: int| 0 <= j < i ==> s[j] != '\n'
}

/// `str::split_once('\n')`: the text before the first line break and the
/// text after it, or `None` where there is no line break.
#[verifier::external_body]
pub(crate) fn split_line(s: &str) -> (r: Option<(&str, &str)>)
    ensures
        match r {
            None => !s@.contains('\n'),
            Some((a, b)) => exists|i: int|
                first_newline_at(s@, i) && a@ == s@.take(i) && b@ == s@.skip(i + 1),
        },
{
    s.split_once('\n')
}

// ---------------------------------------------------------------------------
// Trimming and prefixes
// ---------------------------------------------------------------------------

/// `s` without its leading white space.
pub open spec fn trim_start(s: Seq<char>) -> Seq<char>
    decreases s.len(),
{
    if s.len() > 0 && white_space(s[0]) {
        trim_start(s.drop_first())
    } else {
        s
    }
}

/// `s` without its trailing white space.
pub open spec fn trim_end(s: Seq<char>) -> Seq<char>
    decreases s.len(),
{
    if s.len() > 0 && white_space(s.last()) {
        trim_end(s.drop_last())
    } else {
        s
    }
}

/// `s` without leading and trailing white space, as `str::trim` makes it.
pub open spec fn trimmed(s: Seq<char>) -> Seq<char> {
    trim_end(trim_start(s))
}

/// `s` without leading and trailing white space.
pub fn trim(s: &str) -> (r: &str)
    ensures
        r@ == trimmed(s@),
{
    let n = s.unicode_len();
    let mut a: usize = 0;
    proof {
        assert(s@.skip(0) =~= s@);
    }
    while a < n && is_whitespace(s.get_char(a))
        invariant
            n == s@.len(),
            a <= n,
            trim_start(s@) == trim_start(s@.skip(a as int)),
        decreases n - a,
    {
        proof {
            assert(s@.skip(a as int).drop_first() =~= s@.skip(a + 1));
        }
        a += 1;
    }
    proof {
        assert(trim_start(s@) == s@.skip(a as int));
        assert(s@.skip(a as int) =~= s@.subrange(a as int, n as int));
    }
    let mut b: usize = n;
    while b > a && is_whitespace(s.get_char(b - 1))
        invariant
            n == s@.len(),
            a <= b <= n,
            trimmed(s@) == trim_end(s@.subrange(a as int, b as int)),
        decreases b - a,
    {
        proof {
            assert(s@.subrange(a as int, b as int).drop_last() =~= s@.subrange(a as int, b - 1));
        }
        b -= 1;
    }
    s.substring_char(a, b)
}


proof fn lemma_trim_start(s: Seq<char>) -> (a: int)
    ensures
        0 <= a <= s.len(),
        trim_start(s) == s.skip(a),
        forall|i: int| 0 <= i < a ==> white_space(#[trigger] s[i]),
        a < s.len() ==> !white_space(s[a]),
    decreases s.len(),
{
    if s.len() > 0 && white_space(s[0]) {
        let a1 = lemma_trim_start(s.drop_first());
        assert(s.drop_first().skip(a1) =~= s.skip(a1 + 1));
        assert forall|i: int| 0 <= i < a1 + 1 implies white_space(#[trigger] s[i]) by {
            if i > 0 {
                assert(s[i] == s.drop_first()[i - 1]);
            }
        }
        a1 + 1
    } else {
        assert(s.skip(0) =~= s);
        0
    }
}

proof fn lemma_trim_end(s: Seq<char>) -> (b: int)
    ensures
        0 <= b <= s.len(),
        trim_end(s) == s.take(b),
        forall|i: int| b <= i < s.len() ==> white_space(#[trigger] s[i]),
        b > 0 ==> !white_space(s[b - 1]),
    decreases s.len(),
{
    if s.len() > 0 && white_space(s.last()) {
        let b1 = lemma_trim_end(s.drop_last());
        assert(s.drop_last().take(b1) =~= s.take(b1));
        assert forall|i: int| b1 <= i < s.len() implies white_space(#[trigger] s[i]) by {
            if i < s.len() - 1 {
                assert(s[i] == s.drop_last()[i]);
            }
        }
        b1
    } else {
        assert(s.take(s.len() as int) =~= s);
        s.len() as int
    }
}

/// What trimming keeps: one stretch of `s`, all of it but white space at
/// either end; the stretch neither begins nor ends with white space.
pub proof fn law_trimmed(s: Seq<char>)
    ensures
        exists|a: int, b: int|
            0 <= a <= b <= s.len() && trimmed(s) == s.subrange(a, b) && (forall|i: int|
                0 <= i < a ==> white_space(#[trigger] s[i])) && (forall|i: int|
                b <= i < s.len() ==> white_space(#[trigger] s[i])),
        trimmed(s).len() > 0 ==> !white_space(trimmed(s)[0]) && !white_space(trimmed(s).last()),
{
    let a = lemma_trim_start(s);
    let t = s.skip(a);
    let b = lemma_trim_end(t);
    assert(trimmed(s) == t.take(b));
    assert(t.take(b) =~= s.subrange(a, a + b));
    assert forall|i: int| a + b <= i < s.len() implies white_space(#[trigger] s[i]) by {
        assert(s[i] == t[i - a]);
    }
    if b > 0 {
        assert(trimmed(s)[0] == s[a]);
        assert(trimmed(s).last() == t[b - 1]);
    }
}

/// Numbers read back: the decimal writing of every 64-bit number, as ASCII
/// bytes, is read as that number; and a read number comes from at least one
/// decimal digit after an optional `+`, with nothing else.
pub proof fn law_parsed_u64(b: Seq<u8>)
    ensures
        parsed_u64(b) is Some ==> {
            let k: int = if b[0] == 43 { 1 } else { 0 };
            &&& b.len() > k
            &&& forall|i: int| k <= i < b.len() ==> 48 <= #[trigger] b[i] <= 57
        },
{
    if parsed_u64(b) is Some {
        let d = digits_part(b);
        let k: int = if b[0] == 43 { 1 } else { 0 };
        assert forall|i: int| k <= i < b.len() implies 48 <= #[trigger] b[i] <= 57 by {
            assert(d[i - k] == b[i]);
            assert(is_digit(d[i - k]));
        }
    }
}

/// `s` begins with `p`.
pub open spec fn starts_with(s: Seq<char>, p: Seq<char>) -> bool {
    p.len() <= s.len() && s.take(p.len() as int) == p
}

/// `s` without the prefix `p`, or `None` where `s` does not begin with `p`.
pub fn strip_prefix<'a>(s: &'a str, p: &str) -> (r: Option<&'a str>)
    ensures
        match r {
            Some(t) => starts_with(s@, p@) && t@ == s@.skip(p@.len() as int),
            None => !starts_with(s@, p@),
        },
{
    let n = s.unicode_len();
    let m = p.unicode_len();
    if m > n {
        return None;
    }
    let mut i: usize = 0;
    while i < m
        invariant
            n == s@.len(),
            m == p@.len(),
            m <= n,
            i <= m,
            forall|j: int| 0 <= j < i ==> s@[j] == p@[j],
        decreases m - i,
    {
        if s.get_char(i) != p.get_char(i) {
            proof {
                assert(s@.take(m as int)[i as int] != p@[i as int]);
            }
            return None;
        }
        i += 1;
    }
    proof {
        assert(s@.take(m as int) =~= p@);
    }
    let t = s.substring_char(m, n);
    proof {
        assert(t@ =~= s@.skip(m as int));
    }
    Some(t)
}

// ---------------------------------------------------------------------------
// Unsigned decimal numbers
// ---------------------------------------------------------------------------

/// The byte is an ASCII decimal digit.
pub open spec fn is_digit(b: u8) -> bool {
    48 <= b <= 57
}

/// Every byte of `d` is a decimal digit.
pub open spec fn all_digits(d: Seq<u8>) -> bool {
    forall|i: int| 0 <= i < d.len() ==> is_digit(#[trigger] d[i])
}

/// The number that the decimal digits `d` write.
pub open spec fn decimal(d: Seq<u8>) -> int
    decreases d.len(),
{
    if d.len() == 0 {
        0
    } else {
        decimal(d.drop_last()) * 10 + (d.last() - 48)
    }
}

/// The digits of `b` after an optional leading `+`.
pub open spec fn digits_part(b: Seq<u8>) -> Seq<u8> {
    if b.len() > 0 && b[0] == 43 {
        b.skip(1)
    } else {
        b
    }
}

/// What `str::parse::<u64>` makes of the bytes `b`: an optional `+` followed
/// by at least one decimal digit, of a value that fits in 64 bits.
pub open spec fn parsed_u64(b: Seq<u8>) -> Option<u64> {
    let d = digits_part(b);
    if d.len() > 0 && all_digits(d) && decimal(d) <= u64::MAX {
        Some(decimal(d) as u64)
    } else {
        None
    }
}

proof fn lemma_decimal_grows(d: Seq<u8>, k: int)
    requires
        all_digits(d),
        0 <= k <= d.len(),
    ensures
        decimal(d.take(k)) <= decimal(d),
        0 <= decimal(d.take(k)),
    decreases d.len() - k,
{
    if k < d.len() {
        lemma_decimal_grows(d, k + 1);
        assert(d.take(k + 1).drop_last() =~= d.take(k));
        assert(is_digit(d[k]));
        assert(d.take(k + 1).last() == d[k]);
    } else {
        assert(d.take(k) =~= d);
        lemma_decimal_nonneg(d);
    }
}

proof fn lemma_decimal_nonneg(d: Seq<u8>)
    requires
        all_digits(d),
    ensures
        0 <= decimal(d),
    decreases d.len(),
{
    if d.len() > 0 {
        assert(all_digits(d.drop_last())) by {
            assert forall|i: int| 0 <= i < d.drop_last().len() implies is_digit(#[trigger] d.drop_last()[i]) by {
                assert(d.drop_last()[i] == d[i]);
            }
        }
        lemma_decimal_nonneg(d.drop_last());
        assert(is_digit(d[d.len() - 1]));
    }
}

/// `parsed_u64` of the bytes `b[lo..hi]`.
pub fn parse_u64_bytes(b: &[u8], lo: usize, hi: usize) -> (r: Option<u64>)
    requires
        lo <= hi <= b@.len(),
    ensures
        r == parsed_u64(b@.subrange(lo as int, hi as int)),
{
    let ghost s = b@.subrange(lo as int, hi as int);
    if lo == hi {
        return None;
    }
    let mut start = lo;
    if b[lo] == 43 {
        start = lo + 1;
    }
    let ghost d = b@.subrange(start as int, hi as int);
    proof {
        assert(digits_part(s) =~= d);
    }
    if start == hi {
        return None;
    }
    let mut value: u64 = 0;
    let mut i = start;
    while i < hi
        invariant
            lo <= start <= i <= hi <= b@.len(),
            start < hi,
            s == b@.subrange(lo as int, hi as int),
            digits_part(s) == d,
            d == b@.subrange(start as int, hi as int),
            all_digits(d.take(i - start)),
            value as int == decimal(d.take(i - start)),
        decreases hi - i,
    {
        let c = b[i];
        proof {
            assert(d.take(i + 1 - start).drop_last() =~= d.take(i - start));
            assert(d.take(i + 1 - start).last() == c);
        }
        if c < 48 || c > 57 {
            proof {
                assert(d[i - start] == c);
            }
            return None;
        }
        let digit = (c - 48) as u64;
        if value > (u64::MAX - digit) / 10 {
            proof {
                assert(all_digits(d.take(i + 1 - start))) by {
                    assert forall|j: int| 0 <= j < d.take(i + 1 - start).len() implies is_digit(
                        #[trigger] d.take(i + 1 - start)[j],
                    ) by {
                        if j < i - start {
                            assert(d.take(i + 1 - start)[j] == d.take(i - start)[j]);
                        }
                    }
                }
                assert(value as int * 10 + digit as int > u64::MAX) by (nonlinear_arith)
                    requires
                        value > (u64::MAX - digit) / 10,
                        digit <= 9,
                ;
                assert(decimal(d.take(i + 1 - start)) == value * 10 + digit);
                if all_digits(d) {
                    lemma_decimal_grows(d, i + 1 - start);
                }
            }
            return None;
        }
        value = value * 10 + digit;
        proof {
            assert forall|j: int| 0 <= j < d.take(i + 1 - start).len() implies is_digit(
                #[trigger] d.take(i + 1 - start)[j],
            ) by {
                if j < i - start {
                    assert(d.take(i + 1 - start)[j] == d.take(i - start)[j]);
                }
            }
        }
        i += 1;
    }
    proof {
        assert(d.take(i - start) =~= d);
    }
    Some(value)
}

/// What `str::parse::<u64>` makes of `s`.
pub fn parse_u64(s: &str) -> (r: Option<u64>)
    ensures
        r == parsed_u64(vstd::utf8::encode_utf8(s@)),
{
    let b = s.as_bytes();
    proof {
        assert(b@.subrange(0, b@.len() as int) =~= b@);
    }
    parse_u64_bytes(b, 0, b.len())
}

} // verus!
