//! Numeric literals as resolvers read them: decimal by default, `0x`/`0X`
//! for hexadecimal, `0b`/`0B` for binary, surrounding whitespace ignored.

use vstd::prelude::*;

verus! {

#[verifier::external_type_specification]
#[verifier::external_body]
pub struct ExParseIntError(std::num::ParseIntError);

/// Unicode `White_Space`, the set that `char::is_whitespace` and `str::trim` use.
pub open spec fn is_ws(c: char) -> bool {
    let u = c as u32;
    (0x09 <= u <= 0x0d) || u == 0x20 || u == 0x85 || u == 0xa0 || u == 0x1680 || (0x2000 <= u
        <= 0x200a) || u == 0x2028 || u == 0x2029 || u == 0x202f || u == 0x205f || u == 0x3000
}

/// Index of the first non-whitespace character at or after `i`.
pub open spec fn skip_ws_from(s: Seq<char>, i: int) -> int
    decreases s.len() - i,
{
    if i >= s.len() || !is_ws(s[i]) {
        i
    } else {
        skip_ws_from(s, i + 1)
    }
}

/// One past the last non-whitespace character before `j`.
pub open spec fn skip_ws_back(s: Seq<char>, j: int) -> int
    decreases j,
{
    if j <= 0 || !is_ws(s[j - 1]) {
        j
    } else {
        skip_ws_back(s, j - 1)
    }
}

/// `s` without leading and trailing whitespace.
pub open spec fn trim_spec(s: Seq<char>) -> Seq<char> {
    let a = skip_ws_from(s, 0);
    if a >= s.len() {
        Seq::empty()
    } else {
        s.subrange(a, skip_ws_back(s, s.len() as int))
    }
}

/// The radix selected by the literal's prefix and the digits that follow it.
pub open spec fn radix_split(s: Seq<char>) -> (Seq<char>, u32) {
    let t = trim_spec(s);
    if t.len() >= 2 && t[0] == '0' && (t[1] == 'x' || t[1] == 'X') {
        (t.subrange(2, t.len() as int), 16)
    } else if t.len() >= 2 && t[0] == '0' && (t[1] == 'b' || t[1] == 'B') {
        (t.subrange(2, t.len() as int), 2)
    } else {
        (t, 10)
    }
}

/// Value of one digit character, if it is a digit in some radix up to 36.
pub open spec fn digit_value(c: char) -> Option<nat> {
    if '0' <= c <= '9' {
        Some((c as u32 - '0' as u32) as nat)
    } else if 'a' <= c <= 'z' {
        Some((c as u32 - 'a' as u32 + 10) as nat)
    } else if 'A' <= c <= 'Z' {
        Some((c as u32 - 'A' as u32 + 10) as nat)
    } else {
        None
    }
}

/// Value of a run of digits in `radix`, or `None` if one is not a digit of it.
pub open spec fn digits_value(s: Seq<char>, radix: nat) -> Option<nat>
    decreases s.len(),
{
    if s.len() == 0 {
        Some(0)
    } else {
        match (digits_value(s.drop_last(), radix), digit_value(s.last())) {
            (Some(hi), Some(d)) => if d < radix {
                Some(hi * radix + d)
            } else {
                None
            },
            _ => None,
        }
    }
}

/// What `from_str_radix` reads: an optional `+` and then at least one digit.
pub open spec fn radix_number(s: Seq<char>, radix: nat) -> Option<nat> {
    let d = if s.len() > 0 && s[0] == '+' {
        s.drop_first()
    } else {
        s
    };
    if d.len() == 0 {
        None
    } else {
        digits_value(d, radix)
    }
}

/// The value of a numeric literal, if it is one.
pub open spec fn literal_value(s: Seq<char>) -> Option<nat> {
    let (digits, radix) = radix_split(s);
    radix_number(digits, radix as nat)
}

/// Relies on `u64::from_str_radix`: it accepts an optional `+` followed by
/// digits of the radix and fails on anything else or on overflow.
#[verifier::external_body]
fn u64_from_str_radix(s: &str, radix: u32) -> (r: Result<u64, std::num::ParseIntError>)
    requires
        2 <= radix <= 36,
    ensures
        match r {
            Ok(v) => radix_number(s@, radix as nat) == Some(v as nat),
            Err(_) => match radix_number(s@, radix as nat) {
                Some(n) => n > u64::MAX,
                None => true,
            },
        },
{
    u64::from_str_radix(s, radix)
}

/// Relies on `u128::from_str_radix`: it accepts an optional `+` followed by
/// digits of the radix and fails on anything else or on overflow.
#[verifier::external_body]
fn u128_from_str_radix(s: &str, radix: u32) -> (r: Result<u128, std::num::ParseIntError>)
    requires
        2 <= radix <= 36,
    ensures
        match r {
            Ok(v) => radix_number(s@, radix as nat) == Some(v as nat),
            Err(_) => match radix_number(s@, radix as nat) {
                Some(n) => n > u128::MAX,
                None => true,
            },
        },
{
    u128::from_str_radix(s, radix)
}

pub(crate) fn is_ws_char(c: char) -> (r: bool)
    ensures
        r == is_ws(c),
{
    let u = c as u32;
    (0x09 <= u && u <= 0x0d) || u == 0x20 || u == 0x85 || u == 0xa0 || u == 0x1680 || (0x2000 <= u
        && u <= 0x200a) || u == 0x2028 || u == 0x2029 || u == 0x202f || u == 0x205f || u == 0x3000
}

/// `s` without leading and trailing whitespace.
pub fn trim_ws(s: &str) -> (r: &str)
    ensures
        r@ == trim_spec(s@),
{
    let n = s.unicode_len();
    let mut a: usize = 0;
    while a < n && is_ws_char(s.get_char(a))
        invariant
            n == s@.len(),
            a <= n,
            skip_ws_from(s@, 0) == skip_ws_from(s@, a as int),
        decreases n - a,
    {
        a = a + 1;
    }
    if a >= n {
        return s.substring_char(n, n);
    }
    let mut b: usize = n;
    while b > 0 && is_ws_char(s.get_char(b - 1))
        invariant
            n == s@.len(),
            a < n,
            !is_ws(s@[a as int]),
            a < b <= n,
            skip_ws_back(s@, n as int) == skip_ws_back(s@, b as int),
        decreases b,
    {
        b = b - 1;
    }
    s.substring_char(a, b)
}

/// Splits a literal into its digits and radix, after trimming whitespace.
pub fn detect_radix(s: &str) -> (r: (&str, u32))
    ensures
        (r.0@, r.1) == radix_split(s@),
{
    let t = trim_ws(s);
    let n = t.unicode_len();
    if n >= 2 && t.get_char(0) == '0' {
        let c = t.get_char(1);
        if c == 'x' || c == 'X' {
            return (t.substring_char(2, n), 16);
        }
        if c == 'b' || c == 'B' {
            return (t.substring_char(2, n), 2);
        }
    }
    (t, 10)
}

/// Parses a numeric literal as a `u128`.
pub fn string_to_u128(s: &str) -> (r: Result<u128, std::num::ParseIntError>)
    ensures
        match r {
            Ok(v) => literal_value(s@) == Some(v as nat),
            Err(_) => match literal_value(s@) {
                Some(n) => n > u128::MAX,
                None => true,
            },
        },
{
    let (numeric_part, radix) = detect_radix(s);
    u128_from_str_radix(numeric_part, radix)
}

/// Parses a numeric literal as a `u64`.
pub fn string_to_u64(s: &str) -> (r: Result<u64, std::num::ParseIntError>)
    ensures
        match r {
            Ok(v) => literal_value(s@) == Some(v as nat),
            Err(_) => match literal_value(s@) {
                Some(n) => n > u64::MAX,
                None => true,
            },
        },
{
    let (numeric_part, radix) = detect_radix(s);
    u64_from_str_radix(numeric_part, radix)
}

} // verus!
