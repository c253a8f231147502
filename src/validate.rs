use vstd::prelude::*;
use vstd::string::StrSliceExecFns;

verus! {

/// Largest byte length accepted for free-form text such as a value or a description.
pub const LONG_STRING_MAX: usize = 4096;

/// Largest byte length accepted for short text such as a name or a host.
pub const COMMON_STRING_MAX: usize = 255;

/// Whether `s` fits in the byte budget of long text fields.
pub fn validate_long_string(s: &str) -> (r: bool)
    ensures
        r == (s.len() <= LONG_STRING_MAX),
{
    s.len() <= LONG_STRING_MAX
}

/// Whether `s` fits in the byte budget of short text fields.
pub fn validate_common_string(s: &str) -> (r: bool)
    ensures
        r == (s.len() <= COMMON_STRING_MAX),
{
    s.len() <= COMMON_STRING_MAX
}

/// A host name is short text made of ASCII characters only.
pub fn validate_host(s: &str) -> (r: bool)
    ensures
        r == (s.len() <= COMMON_STRING_MAX && vstd::string::is_ascii(s)),
{
    s.len() <= COMMON_STRING_MAX && s.is_ascii()
}

pub open spec fn is_digit(c: char) -> bool {
    '0' <= c && c <= '9'
}

pub open spec fn digit_value(c: char) -> nat {
    (c as u32 - '0' as u32) as nat
}

/// The number written by the decimal digits `s` (most significant first).
pub open spec fn decimal_value(s: Seq<char>) -> nat
    decreases s.len(),
{
    if s.len() == 0 {
        0
    } else {
        decimal_value(s.drop_last()) * 10 + digit_value(s.last())
    }
}

pub open spec fn all_digits(s: Seq<char>) -> bool {
    forall|i: int| 0 <= i < s.len() ==> is_digit(#[trigger] s[i])
}

/// The digits of an unsigned literal: what follows an optional leading `+`.
pub open spec fn literal_digits(s: Seq<char>) -> Seq<char> {
    if s.len() > 0 && s[0] == '+' {
        s.drop_first()
    } else {
        s
    }
}

/// What the `from_str` of an unsigned integer type whose largest value is
/// `max` accepts: an optional `+`, then at least one decimal digit, for a
/// value of at most `max`.
pub open spec fn is_unsigned_literal(s: Seq<char>, max: nat) -> bool {
    let digits = literal_digits(s);
    digits.len() > 0 && all_digits(digits) && decimal_value(digits) <= max
}

/// What `usize::from_str` accepts.
pub open spec fn is_usize_literal(s: Seq<char>) -> bool {
    is_unsigned_literal(s, usize::MAX as nat)
}

/// Reads `s` as an unsigned integer of at most `max`, as the `from_str` of
/// such a type does.
pub fn parse_unsigned(s: &str, max: usize) -> (r: Option<usize>)
    ensures
        r is Some == is_unsigned_literal(s@, max as nat),
        r is Some ==> r->0 == decimal_value(literal_digits(s@)),
{
    let n = s.unicode_len();
    let mut start: usize = 0;
    if n > 0 && s.get_char(0) == '+' {
        start = 1;
    }
    if start >= n {
        return None;
    }
    let ghost digits = s@.subrange(start as int, n as int);
    assert(digits =~= literal_digits(s@));
    let mut value: usize = 0;
    let mut i: usize = start;
    while i < n
        invariant
            start <= i <= n,
            n == s@.len(),
            digits == s@.subrange(start as int, n as int),
            digits == literal_digits(s@),
            all_digits(s@.subrange(start as int, i as int)),
            value as nat == decimal_value(s@.subrange(start as int, i as int)),
            value <= max,
        decreases n - i,
    {
        let c = s.get_char(i);
        let ghost prev = s@.subrange(start as int, i as int);
        let ghost next = s@.subrange(start as int, i + 1);
        assert(next.drop_last() =~= prev);
        if !('0' <= c && c <= '9') {
            assert(!is_digit(digits[i - start]));
            return None;
        }
        let d = (c as u32 - '0' as u32) as usize;
        if d > max || value > (max - d) / 10 {
            assert(decimal_value(next) > max) by (nonlinear_arith)
                requires
                    decimal_value(next) == value * 10 + d,
                    d > max || value > (max - d) / 10,
                    d <= 9,
            ;
            assert(next =~= digits.subrange(0, i + 1 - start));
            proof {
                lemma_decimal_value_prefix_le(digits, (i + 1 - start) as int);
            }
            return None;
        }
        assert(value * 10 + d <= max) by (nonlinear_arith)
            requires
                value <= (max - d) / 10,
                d <= max,
        ;
        value = value * 10 + d;
        i = i + 1;
    }
    assert(s@.subrange(start as int, n as int) =~= digits);
    Some(value)
}

/// Whether `s` is an unsigned integer that fits in `usize`, as `usize::from_str` reads it.
pub fn parses_as_usize(s: &str) -> (r: bool)
    ensures
        r == is_usize_literal(s@),
{
    parse_unsigned(s, usize::MAX).is_some()
}

/// The value of a digit string never drops below the value of one of its prefixes.
proof fn lemma_decimal_value_prefix_le(s: Seq<char>, k: int)
    requires
        0 <= k <= s.len(),
    ensures
        decimal_value(s.subrange(0, k)) <= decimal_value(s),
    decreases s.len() - k,
{
    if k < s.len() {
        lemma_decimal_value_prefix_le(s, k + 1);
        let p = s.subrange(0, k + 1);
        assert(p.drop_last() =~= s.subrange(0, k));
        assert(decimal_value(s.subrange(0, k)) <= decimal_value(p)) by (nonlinear_arith)
            requires
                decimal_value(p) == decimal_value(s.subrange(0, k)) * 10 + digit_value(p.last()),
        ;
    } else {
        assert(s.subrange(0, k) =~= s);
    }
}

/// What `humantime::parse_duration` accepts; it depends on the text alone.
pub uninterp spec fn duration_text(s: Seq<char>) -> bool;

/// Longest text handed to the duration parser. humantime panics (in
/// `Duration::new`) when the seconds of a text add up to exactly `u64::MAX`
/// and its nanoseconds to exactly one second; every such text is longer
/// than this.
pub const DURATION_TEXT_MAX: usize = 24;

/// Relies on humantime::parse_duration to tell whether `s` is a readable
/// duration such as `1h 30m`; its source returns `Ok` at once for `"0"`.
#[verifier::external_body]
fn parses_as_duration(s: &str) -> (r: bool)
    requires
        s@.len() <= DURATION_TEXT_MAX,
    ensures
        r == duration_text(s@),
        s@ == seq!['0'] ==> r,
{
    humantime::parse_duration(s).is_ok()
}

/// A time-to-live entry is valid when it is empty, a number of seconds, or a
/// readable duration of at most `DURATION_TEXT_MAX` characters.
pub fn validate_ttl(s: &str) -> (r: bool)
    ensures
        r == (s@.len() == 0 || is_usize_literal(s@) || (s@.len() <= DURATION_TEXT_MAX
            && duration_text(s@))),
{
    if s.is_empty() || parses_as_usize(s) {
        return true;
    }
    if s.unicode_len() > DURATION_TEXT_MAX {
        return false;
    }
    parses_as_duration(s)
}

} // verus!
