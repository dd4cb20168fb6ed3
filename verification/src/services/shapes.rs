//! What a value looks like, whatever it means.

use crate::text::{byte_len, byte_length, chars_of, contains, i64_value, is_digit, occurs, read_i64, Text};
use vstd::prelude::*;

verus! {

/// Whether `c` is a hexadecimal digit of either case.
pub open spec fn is_hex_digit(c: char) -> bool {
    is_digit(c) || 'a' <= c <= 'f' || 'A' <= c <= 'F'
}

/// Whether `c` is an ASCII letter or digit.
pub open spec fn is_alphanumeric(c: char) -> bool {
    is_digit(c) || 'a' <= c <= 'z' || 'A' <= c <= 'Z'
}

/// Whether a text looks like a machine-generated identifier: it holds a digit,
/// and is made of hexadecimal digits and dashes in 16 bytes or more, or of
/// letters and digits in 12 or more.
pub open spec fn looks_like_id(v: Text) -> bool {
    &&& exists|i: int| 0 <= i < v.len() && is_digit(#[trigger] v[i])
    &&& {
        ||| byte_length(v) >= 16 && forall|i: int|
            0 <= i < v.len() ==> is_hex_digit(#[trigger] v[i]) || v[i] == '-'
        ||| byte_length(v) >= 12 && forall|i: int|
            0 <= i < v.len() ==> is_alphanumeric(#[trigger] v[i])
    }
}

/// Whether a value looks like a machine-generated identifier: UUID, ULID, hex
/// digest, or similar. Deliberately shape-based, not format-specific.
pub fn id_shaped(v: &str) -> (r: bool)
    ensures
        r == looks_like_id(v@),
{
    let n = byte_len(v);
    if n < 8 {
        return false;
    }
    let x = chars_of(v);
    let mut has_digit = false;
    let mut hex_dashes = true;
    let mut alnum = true;
    let mut i: usize = 0;
    while i < x.len()
        invariant
            i <= x@.len(),
            has_digit == exists|j: int| 0 <= j < i && is_digit(#[trigger] x@[j]),
            hex_dashes == forall|j: int|
                0 <= j < i ==> is_hex_digit(#[trigger] x@[j]) || x@[j] == '-',
            alnum == forall|j: int| 0 <= j < i ==> is_alphanumeric(#[trigger] x@[j]),
        decreases x.len() - i,
    {
        let c = x[i];
        let digit = '0' <= c && c <= '9';
        let hex = digit || ('a' <= c && c <= 'f') || ('A' <= c && c <= 'F');
        let letter = ('a' <= c && c <= 'z') || ('A' <= c && c <= 'Z');
        has_digit = has_digit || digit;
        hex_dashes = hex_dashes && (hex || c == '-');
        alnum = alnum && (digit || letter);
        i = i + 1;
    }
    (hex_dashes && has_digit && n >= 16) || (alnum && has_digit && n >= 12)
}

/// Whether a text begins like a date: four digits, a dash, two digits and a
/// dash, with at least two bytes behind them.
pub open spec fn begins_like_date(v: Text) -> bool {
    &&& byte_length(v) >= 10
    &&& v.len() >= 8
    &&& is_digit(v[0]) && is_digit(v[1]) && is_digit(v[2]) && is_digit(v[3])
    &&& v[4] == '-'
    &&& is_digit(v[5]) && is_digit(v[6])
    &&& v[7] == '-'
}

/// Whether an integer is a plausible count of seconds or milliseconds since
/// 1970: from about 2001 to about 2096.
pub open spec fn plausible_epoch(n: int) -> bool {
    1_000_000_000 <= n <= 4_000_000_000 || 1_000_000_000_000 <= n <= 4_000_000_000_000
}

/// Whether a text looks like a point in time.
pub open spec fn looks_like_time(v: Text) -> bool {
    begins_like_date(v) || match i64_value(v) {
        Some(n) => plausible_epoch(n as int),
        None => false,
    }
}

/// ISO-8601-ish dates, or epoch seconds/milliseconds in a plausible range.
pub fn time_shaped(v: &str) -> (r: bool)
    ensures
        r == looks_like_time(v@),
{
    let x = chars_of(v);
    if byte_len(v) >= 10 && x.len() >= 8 && digit_at(&x, 0) && digit_at(&x, 1) && digit_at(&x, 2)
        && digit_at(&x, 3) && x[4] == '-' && digit_at(&x, 5) && digit_at(&x, 6) && x[7] == '-' {
        return true;
    }
    match read_i64(v) {
        Some(n) => (1_000_000_000 <= n && n <= 4_000_000_000) || (1_000_000_000_000 <= n && n
            <= 4_000_000_000_000),
        None => false,
    }
}

fn digit_at(x: &Vec<char>, i: usize) -> (r: bool)
    requires
        i < x@.len(),
    ensures
        r == is_digit(x@[i as int]),
{
    '0' <= x[i] && x[i] <= '9'
}

/// Whether a name holds one of the words by which identifiers are commonly
/// called.
pub open spec fn hints_at_id(lower: Text) -> bool {
    ||| occurs(lower, "correlation"@)
    ||| occurs(lower, "trace"@)
    ||| occurs(lower, "requestid"@)
    ||| occurs(lower, "conversation"@)
    ||| occurs(lower, "session"@)
    ||| occurs(lower, "flowid"@)
}

/// A weak, convention-based hint, never decisive on its own.
pub fn name_suggests_identifier(lower: &str) -> (r: bool)
    ensures
        r == hints_at_id(lower@),
{
    contains(lower, "correlation") || contains(lower, "trace") || contains(lower, "requestid")
        || contains(lower, "conversation") || contains(lower, "session") || contains(
        lower,
        "flowid",
    )
}

} // verus!
