//! Points in time, and how they and the gaps between them are shown.

use crate::float::{
    find_whole, is_normal, nearest, nearest_from_above, nearest_from_below, round, whole, Float, Parts,
    DOUBLE,
};
use crate::text::{concat, decimal, i64_value, number, read_i64, signed_decimal, signed_number, Text};
use crate::value::{Value, ValueView};
use vstd::arithmetic::power2::{
    lemma2_to64, lemma2_to64_rest, lemma_pow2_pos, lemma_pow2_strictly_increases, pow2,
};
use vstd::prelude::*;

verus! {

// ── Reading ──────────────────────────────────────────────────────────────

/// The instant that `chrono::DateTime::parse_from_rfc3339` reads from a text,
/// in milliseconds since 1970.
pub uninterp spec fn rfc3339_millis(s: Text) -> Option<i64>;

/// Calls `chrono::DateTime::parse_from_rfc3339` and, where it succeeds,
/// `timestamp_millis` on the result. The contract says no more of the outcome
/// than that it depends on the text alone.
#[verifier::external_body]
fn read_rfc3339(s: &str) -> (out: Option<i64>)
    ensures
        out == rfc3339_millis(s@),
{
    chrono::DateTime::parse_from_rfc3339(s).ok().map(|t| t.timestamp_millis())
}

/// The instant that `chrono::NaiveDateTime::parse_from_str` reads from a text
/// in the given format, taken as universal time, in milliseconds since 1970.
pub uninterp spec fn naive_millis(s: Text, format: Text) -> Option<i64>;

/// Calls `chrono::NaiveDateTime::parse_from_str` and, where it succeeds,
/// `and_utc` and `timestamp_millis` on the result. The contract says no more
/// of the outcome than that it depends on the text and the format alone.
#[verifier::external_body]
fn read_naive(s: &str, format: &str) -> (out: Option<i64>)
    ensures
        out == naive_millis(s@, format@),
{
    chrono::NaiveDateTime::parse_from_str(s, format).ok().map(|t| t.and_utc().timestamp_millis())
}

/// The shapes in which a time without an offset is read, in the order in which
/// they are tried.
pub const TIME_FORMATS: [&'static str; 4] = [
    "%Y-%m-%dT%H:%M:%S%.f",
    "%Y-%m-%d %H:%M:%S%.f",
    "%Y-%m-%dT%H:%M:%S",
    "%Y-%m-%d %H:%M:%S",
];

/// What is read from a date that has no time of day: the instant at which the
/// day begins.
pub open spec fn date_millis(s: Text) -> Option<i64> {
    naive_millis(s + "T00:00:00"@, TIME_FORMATS@[2]@)
}

/// What the shape with number `i` reads from `s`: one of `TIME_FORMATS`, or
/// behind them a date alone.
pub open spec fn fit(s: Text, i: int) -> Option<i64> {
    if i < 4 {
        naive_millis(s, TIME_FORMATS@[i]@)
    } else {
        date_millis(s)
    }
}

/// What the first shape that fits, from the one with number `from` on, reads
/// from `s`.
pub open spec fn first_fit(s: Text, from: nat) -> Option<i64>
    decreases 5 - from,
{
    if from >= 5 {
        None
    } else {
        match fit(s, from as int) {
            Some(at) => Some(at),
            None => first_fit(s, from + 1),
        }
    }
}

/// The milliseconds since 1970 that `n` stands for: as seconds or as
/// milliseconds, whichever is plausible.
pub open spec fn epoch_millis(n: int) -> Option<i64> {
    if 1_000_000_000 <= n <= 4_000_000_000 {
        Some((n * 1000) as i64)
    } else if 1_000_000_000_000 <= n <= 4_000_000_000_000 {
        Some(n as i64)
    } else {
        None
    }
}

/// The instant that a text stands for.
pub open spec fn text_millis(s: Text) -> Option<i64> {
    match rfc3339_millis(s) {
        Some(at) => Some(at),
        None => match first_fit(s, 0) {
            Some(at) => Some(at),
            None => match i64_value(s) {
                Some(n) => epoch_millis(n as int),
                None => None,
            },
        },
    }
}

/// The instant that a value stands for.
pub open spec fn millis_of(v: ValueView) -> Option<i64> {
    match v {
        ValueView::Number(_, Some(n)) => epoch_millis(n as int),
        ValueView::Text(s) => text_millis(s),
        _ => None,
    }
}

/// Accepts epoch seconds or milliseconds, rejecting values outside a plausible
/// range so a random integer isn't read as a date.
pub fn epoch_to_millis(n: i64) -> (out: Option<i64>)
    ensures
        out == epoch_millis(n as int),
{
    if 1_000_000_000 <= n && n <= 4_000_000_000 {
        Some(n * 1000)
    } else if 1_000_000_000_000 <= n && n <= 4_000_000_000_000 {
        Some(n)
    } else {
        None
    }
}

/// What a text stands for once the standard form has been tried: `standard` is
/// what that gave, and `fits` what each shape gave that was tried after it.
pub fn choose_time(s: &str, standard: Option<i64>, fits: &Vec<Option<i64>>) -> (out: Option<i64>)
    ensures
        out == (match standard {
            Some(at) => Some(at),
            None => match first_of(fits@) {
                Some(at) => Some(at),
                None => match i64_value(s@) {
                    Some(n) => epoch_millis(n as int),
                    None => None,
                },
            },
        }),
{
    if let Some(at) = standard {
        return Some(at);
    }
    let mut i: usize = 0;
    assert(fits@.skip(0) =~= fits@);
    while i < fits.len()
        invariant
            standard is None,
            i <= fits@.len(),
            first_of(fits@) == first_of(fits@.skip(i as int)),
        decreases fits.len() - i,
    {
        assert(fits@.skip(i as int)[0] == fits@[i as int]);
        assert(fits@.skip(i as int).drop_first() =~= fits@.skip(i + 1));
        if let Some(at) = fits[i] {
            return Some(at);
        }
        i = i + 1;
    }
    match read_i64(s) {
        Some(n) => epoch_to_millis(n),
        None => None,
    }
}

/// The first instant among `fits`.
pub open spec fn first_of(fits: Seq<Option<i64>>) -> Option<i64>
    decreases fits.len(),
{
    if fits.len() == 0 {
        None
    } else if fits[0] is Some {
        fits[0]
    } else {
        first_of(fits.drop_first())
    }
}

proof fn first_fit_is_first_of(s: Text, fits: Seq<Option<i64>>, from: nat)
    requires
        from <= 5,
        fits.len() == 5 - from,
        forall|i: int|
            0 <= i < fits.len() ==> #[trigger] fits[i] == fit(s, from + i),
    ensures
        first_of(fits) == first_fit(s, from),
    decreases fits.len(),
{
    if fits.len() > 0 {
        assert(fits[0] == fit(s, from as int));
        let rest = fits.drop_first();
        assert forall|i: int| 0 <= i < rest.len() implies #[trigger] rest[i] == fit(
            s,
            from + 1 + i,
        ) by {
            assert(rest[i] == fits[i + 1]);
        }
        first_fit_is_first_of(s, rest, from + 1);
    }
}

/// Epoch milliseconds from whatever shape the timestamp is stored in.
pub fn parse_time(v: &Value) -> (out: Option<i64>)
    ensures
        out == millis_of(v@),
{
    match v {
        Value::Number(n) => match n.whole {
            Some(whole) => epoch_to_millis(whole),
            None => None,
        },
        Value::Text(s) => {
            let standard = read_rfc3339(s.as_str());
            if standard.is_some() {
                return standard;
            }
            let mut fits: Vec<Option<i64>> = Vec::new();
            let mut i: usize = 0;
            while i < 4
                invariant
                    i <= 4,
                    fits@.len() == i,
                    forall|k: int| 0 <= k < i ==> #[trigger] fits@[k] == fit(s@, k),
                decreases 4 - i,
            {
                fits.push(read_naive(s.as_str(), TIME_FORMATS[i]));
                i = i + 1;
            }
            let midnight = concat(s.as_str(), "T00:00:00");
            fits.push(read_naive(midnight.as_str(), TIME_FORMATS[2]));
            proof {
                assert forall|k: int| 0 <= k < 5 implies #[trigger] fits@[k] == fit(s@, 0 + k) by {}
                first_fit_is_first_of(s@, fits@, 0);
            }
            choose_time(s.as_str(), standard, &fits)
        },
        _ => None,
    }
}

// ── Showing ──────────────────────────────────────────────────────────────

/// The instant `millis` as `chrono::DateTime::format` writes it in the given
/// format, in universal time; `None` where `from_timestamp_millis` finds it
/// out of range.
pub uninterp spec fn formatted(millis: i64, format: Text) -> Option<Text>;

/// Calls `chrono::DateTime::<Utc>::from_timestamp_millis` and, where it
/// succeeds, `format` on the result. The contract says no more of the outcome
/// than that it depends on the instant and the format alone. Other formats are
/// left out because writing with an invalid one panics.
#[verifier::external_body]
fn write_time(millis: i64, format: &str) -> (out: Option<String>)
    requires
        format@ == TIME_SHOWN@,
    ensures
        out.deep_view() == formatted(millis, format@),
{
    chrono::DateTime::<chrono::Utc>::from_timestamp_millis(millis).map(
        |t| t.format(format).to_string(),
    )
}

/// The form in which an instant is shown.
pub const TIME_SHOWN: &'static str = "%m-%d %H:%M:%S%.3f";

/// How an instant is shown: month, day and time of day to the millisecond;
/// nothing where it is out of the calendar's range.
pub open spec fn time_text(millis: i64) -> Text {
    match formatted(millis, TIME_SHOWN@) {
        Some(s) => s,
        None => Seq::empty(),
    }
}

/// Month, day and time of day of an instant, to the millisecond.
pub fn format_time(millis: i64) -> (out: String)
    ensures
        out@ == time_text(millis),
{
    match write_time(millis, TIME_SHOWN) {
        Some(s) => s,
        None => {
            let out = String::new();
            assert(out@ =~= Seq::<char>::empty());
            out
        },
    }
}

// ── Gaps ─────────────────────────────────────────────────────────────────

/// A number of milliseconds in seconds, as computed in double precision.
pub open spec fn seconds(millis: nat) -> Float {
    let m = nearest(DOUBLE as nat, millis, 1, 0);
    nearest(DOUBLE as nat, m.m, 1000, m.e)
}

/// A number of milliseconds in a unit of so many seconds, as computed in double
/// precision.
pub open spec fn in_units(millis: nat, unit: nat) -> Float {
    let s = seconds(millis);
    nearest(DOUBLE as nat, s.m, unit, s.e)
}

/// A number written out with one decimal.
pub open spec fn one_decimal(f: Float) -> Text {
    let tenths = whole(Float { m: 10 * f.m, e: f.e });
    decimal(tenths / 10) + "."@ + decimal(tenths % 10)
}

/// How a gap of `millis` milliseconds is shown: in the largest of the units
/// days, hours, minutes and seconds of which it holds at least one, to one
/// decimal, or in milliseconds where it is less than a second.
pub open spec fn gap_text(millis: int) -> Text {
    if millis < 1000 {
        "+"@ + signed_decimal(millis) + "ms"@
    } else if millis < 60_000 {
        "+"@ + one_decimal(seconds(millis as nat)) + "s"@
    } else if millis < 3_600_000 {
        "+"@ + one_decimal(in_units(millis as nat, 60)) + "min"@
    } else if millis < 86_400_000 {
        "+"@ + one_decimal(in_units(millis as nat, 3600)) + "h"@
    } else {
        "+"@ + one_decimal(in_units(millis as nat, 86_400)) + "d"@
    }
}

fn find_seconds(millis: u64) -> (out: Parts)
    requires
        1000 <= millis <= i64::MAX,
    ensures
        out@ == seconds(millis as nat),
        is_normal(DOUBLE as nat, out@),
        out.m > 0,
        -62 <= out.e <= 3,
{
    let m = round(DOUBLE, millis as u128, 1, 0);
    proof {
        lemma2_to64();
        lemma2_to64_rest();
        let low = DOUBLE as nat;
        if millis < 2 * DOUBLE {
            nearest_from_below(low, millis as nat, 1, 0, 0, 52);
        } else {
            nearest_from_above(low, millis as nat, 1, 0, 10);
        }
        nearest_from_below(low, m.m as nat, 1000, m.e as int, 9, 10);
    }
    round(DOUBLE, m.m as u128, 1000, m.e)
}

fn find_units(millis: u64, unit: u64) -> (out: Parts)
    requires
        60 <= unit <= 86_400,
        1000 <= millis <= i64::MAX,
    ensures
        out@ == in_units(millis as nat, unit as nat),
        is_normal(DOUBLE as nat, out@),
        -79 <= out.e <= 3,
{
    let s = find_seconds(millis);
    proof {
        lemma2_to64();
        let low = DOUBLE as nat;
        nearest_from_below(low, s.m as nat, unit as nat, s.e as int, 1, 17);
    }
    round(DOUBLE, s.m as u128, unit as u128, s.e)
}

fn write_one_decimal(f: Parts) -> (out: String)
    requires
        f.m < 2 * DOUBLE,
        -79 <= f.e <= 3,
    ensures
        out@ == one_decimal(f@),
{
    let tenths = find_whole(10 * (f.m as u128), f.e);
    proof {
        whole_is_bounded((10 * f.m) as nat, f.e as int);
    }
    let digits = number((tenths / 10) as u64);
    let rest = number((tenths % 10) as u64);
    let front = concat(digits.as_str(), ".");
    concat(front.as_str(), rest.as_str())
}

proof fn whole_is_bounded(m: nat, e: int)
    requires
        e <= 3,
    ensures
        whole(Float { m, e }) <= 8 * m + 1,
{
    lemma2_to64();
    if e >= 0 {
        let two = pow2(e as nat);
        if e < 3 {
            lemma_pow2_strictly_increases(e as nat, 3);
        }
        assert(m * two <= 8 * m) by (nonlinear_arith)
            requires
                two <= 8,
        ;
    } else {
        let d = pow2((-e) as nat);
        lemma_pow2_pos((-e) as nat);
        assert(m / d <= m) by (nonlinear_arith)
            requires
                d > 0,
        ;
    }
}

fn signed(middle: &str, unit: &str) -> (out: String)
    ensures
        out@ == "+"@ + middle@ + unit@,
{
    let front = concat("+", middle);
    concat(front.as_str(), unit)
}

/// Human-readable gap between two instants.
pub fn format_gap(millis: i64) -> (out: String)
    ensures
        out@ == gap_text(millis as int),
{
    if millis < 1000 {
        let digits = signed_number(millis);
        return signed(digits.as_str(), "ms");
    }
    let m = millis as u64;
    if m < 60_000 {
        let digits = write_one_decimal(find_seconds(m));
        signed(digits.as_str(), "s")
    } else if m < 3_600_000 {
        let digits = write_one_decimal(find_units(m, 60));
        signed(digits.as_str(), "min")
    } else if m < 86_400_000 {
        let digits = write_one_decimal(find_units(m, 3600));
        signed(digits.as_str(), "h")
    } else {
        let digits = write_one_decimal(find_units(m, 86_400));
        signed(digits.as_str(), "d")
    }
}

// ── What a time promises ─────────────────────────────────────────────────

/// A text is read as the standard form where it is one; else in the first of
/// the other shapes that fits, with or without a fraction, with a `T` or a blank
/// between the date and the time of day; else as a date, at the beginning of the
/// day; else as a count.
pub proof fn texts_are_read_in_order(s: Text)
    ensures
        ({
            let at = millis_of(ValueView::Text(s));
            let a = rfc3339_millis(s);
            let b = naive_millis(s, "%Y-%m-%dT%H:%M:%S%.f"@);
            let c = naive_millis(s, "%Y-%m-%d %H:%M:%S%.f"@);
            let d = naive_millis(s, "%Y-%m-%dT%H:%M:%S"@);
            let e = naive_millis(s, "%Y-%m-%d %H:%M:%S"@);
            let f = naive_millis(s + "T00:00:00"@, "%Y-%m-%dT%H:%M:%S"@);
            &&& a is Some ==> at == a
            &&& a is None && b is Some ==> at == b
            &&& a is None && b is None && c is Some ==> at == c
            &&& a is None && b is None && c is None && d is Some ==> at == d
            &&& a is None && b is None && c is None && d is None && e is Some ==> at == e
            &&& a is None && b is None && c is None && d is None && e is None && f is Some ==> at
                == f
            &&& a is None && b is None && c is None && d is None && e is None && f is None ==> at
                == (match i64_value(s) {
                Some(n) => epoch_millis(n as int),
                None => None,
            })
        }),
{
    reveal_with_fuel(first_fit, 7);
    assert(fit(s, 0) == naive_millis(s, "%Y-%m-%dT%H:%M:%S%.f"@));
    assert(fit(s, 1) == naive_millis(s, "%Y-%m-%d %H:%M:%S%.f"@));
    assert(fit(s, 2) == naive_millis(s, "%Y-%m-%dT%H:%M:%S"@));
    assert(fit(s, 3) == naive_millis(s, "%Y-%m-%d %H:%M:%S"@));
    assert(fit(s, 4) == naive_millis(s + "T00:00:00"@, "%Y-%m-%dT%H:%M:%S"@));
}

/// A gap is shown in the largest unit of which it holds at least one:
/// milliseconds as they are, seconds, minutes, hours and days to one decimal.
pub proof fn gaps_are_shown_in_their_unit(millis: int)
    ensures
        gap_text(millis).len() > 0 && gap_text(millis)[0] == '+',
        0 <= millis < 1000 ==> gap_text(millis) == "+"@ + decimal(millis as nat) + "ms"@,
        1000 <= millis < 60 * 1000 ==> gap_text(millis) == "+"@ + one_decimal(
            seconds(millis as nat),
        ) + "s"@,
        60 * 1000 <= millis < 60 * 60 * 1000 ==> gap_text(millis) == "+"@ + one_decimal(
            in_units(millis as nat, 60),
        ) + "min"@,
        60 * 60 * 1000 <= millis < 24 * 60 * 60 * 1000 ==> gap_text(millis) == "+"@ + one_decimal(
            in_units(millis as nat, 60 * 60),
        ) + "h"@,
        24 * 60 * 60 * 1000 <= millis ==> gap_text(millis) == "+"@ + one_decimal(
            in_units(millis as nat, 24 * 60 * 60),
        ) + "d"@,
{
    reveal_strlit("+");
}

/// An instant is shown as month, day and time of day to the millisecond, or not
/// at all where the calendar does not reach.
pub proof fn times_are_shown_to_the_millisecond(millis: i64)
    ensures
        forall|t: Text|
            formatted(millis, "%m-%d %H:%M:%S%.3f"@) == Some(t) ==> time_text(millis) == t,
        formatted(millis, "%m-%d %H:%M:%S%.3f"@) is None ==> time_text(millis).len() == 0,
{
}

} // verus!
