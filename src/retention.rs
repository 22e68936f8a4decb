//! Retention: a day directory, named `YYYYMMDD`, expires once the civil
//! midnight that starts its day lies more than the retention period before
//! now.
use vstd::prelude::*;
use vstd::utf8::{encode_utf8, is_ascii_chars};

use chrono::{FixedOffset, TimeZone};

use crate::rotation::{
    ascii_chars, decimal, decimal_value, dir_name, lemma_decimal_ascii, lemma_decimal_value,
    lemma_four_digits, lemma_two_digits, RotationKey, UTC_OFFSET_SECS,
};

verus! {

broadcast use vstd::utf8::group_utf8_lib;

/// One day in milliseconds.
pub const DAY_MS: i64 = 86400000;

/// The milliseconds since the epoch of civil midnight starting the day
/// `year`-`month`-`day`, at `offset_secs` east of UTC, if that date exists.
pub uninterp spec fn civil_midnight_of(offset_secs: int, year: int, month: int, day: int) -> Option<i64>;

/// Relies on chrono: `FixedOffset::east_opt` and
/// `TimeZone::with_ymd_and_hms(year, month, day, 0, 0, 0)`, which is `None`
/// for a date that does not exist (a month outside 1 to 12, a day past the
/// month's end), and `DateTime::timestamp_millis`.
#[verifier::external_body]
fn civil_midnight(offset_secs: i32, year: i32, month: u32, day: u32) -> (r: Option<i64>)
    requires
        -86400 < offset_secs < 86400,
    ensures
        r == civil_midnight_of(offset_secs as int, year as int, month as int, day as int),
        r is Some ==> 1 <= month <= 12 && 1 <= day <= 31,
{
    let tz = FixedOffset::east_opt(offset_secs)?;
    let t = tz.with_ymd_and_hms(year, month, day, 0, 0, 0).single()?;
    Some(t.timestamp_millis())
}

/// Every byte is an ASCII decimal digit.
pub open spec fn all_digits(b: Seq<u8>) -> bool {
    forall|i: int| 0 <= i < b.len() ==> 48 <= #[trigger] b[i] <= 57
}

/// The year, month and day that a directory name spells: exactly eight
/// decimal digits, `YYYYMMDD`.
pub open spec fn day_of_name(b: Seq<u8>) -> Option<(int, int, int)> {
    if b.len() == 8 && all_digits(b) {
        Some(
            (
                decimal_value(b.subrange(0, 4)),
                decimal_value(b.subrange(4, 6)),
                decimal_value(b.subrange(6, 8)),
            ),
        )
    } else {
        None
    }
}

/// Whether the directory `name` has expired at `now_ms`, `days` days of
/// retention: its name spells an existing date, and that date's civil
/// midnight comes before `now_ms` less `days` days.
pub open spec fn expired(name: Seq<char>, now_ms: int, days: int) -> bool {
    match day_of_name(encode_utf8(name)) {
        None => false,
        Some((y, m, d)) => match civil_midnight_of(UTC_OFFSET_SECS as int, y, m, d) {
            None => false,
            Some(t) => t < now_ms - days * (DAY_MS as int),
        },
    }
}

/// The sweeper reads every day directory that the writer names, for the
/// years 0 to 9999, back as the day it was named for.
pub proof fn lemma_day_names_parse(k: RotationKey)
    requires
        k.wf(),
        0 <= k.year <= 9999,
    ensures
        day_of_name(encode_utf8(ascii_chars(dir_name(k)))) == Some(
            (k.year as int, k.month as int, k.day as int),
        ),
{
    let y = decimal(k.year as nat, 4);
    let m = decimal(k.month as nat, 2);
    let d = decimal(k.day as nat, 2);
    lemma_four_digits(k.year as nat);
    lemma_two_digits(k.month as nat);
    lemma_two_digits(k.day as nat);
    lemma_decimal_ascii(k.year as nat, 4);
    lemma_decimal_ascii(k.month as nat, 2);
    lemma_decimal_ascii(k.day as nat, 2);
    lemma_decimal_value(k.year as nat, 4);
    lemma_decimal_value(k.month as nat, 2);
    lemma_decimal_value(k.day as nat, 2);
    let b = dir_name(k);
    assert(b == y + m + d);
    assert(b.len() == 8);
    assert(all_digits(b)) by {
        assert forall|i: int| 0 <= i < b.len() implies 48 <= #[trigger] b[i] <= 57 by {
            if i < 4 {
                assert(b[i] == y[i]);
            } else if i < 6 {
                assert(b[i] == m[i - 4]);
            } else {
                assert(b[i] == d[i - 6]);
            }
        }
    }
    let cs = ascii_chars(b);
    assert(is_ascii_chars(cs));
    assert(encode_utf8(cs) =~= b);
    assert(b.subrange(0, 4) =~= y);
    assert(b.subrange(4, 6) =~= m);
    assert(b.subrange(6, 8) =~= d);
}

proof fn lemma_digits_bound(b: Seq<u8>)
    requires
        all_digits(b),
    ensures
        0 <= decimal_value(b) < vstd::arithmetic::power::pow(10, b.len()),
    decreases b.len(),
{
    vstd::arithmetic::power::lemma_pow_positive(10, b.len());
    if b.len() > 0 {
        let p = b.drop_last();
        assert(all_digits(p)) by {
            assert forall|i: int| 0 <= i < p.len() implies 48 <= #[trigger] p[i] <= 57 by {
                assert(p[i] == b[i]);
            }
        }
        lemma_digits_bound(p);
        vstd::arithmetic::power::lemma_pow_adds(10, (b.len() - 1) as nat, 1);
        vstd::arithmetic::power::lemma_pow1(10);
        assert(b.last() == b[b.len() - 1]);
    }
}

/// The value of the digits `b[from..to]`, at most four of them.
fn digits_at(b: &[u8], from: usize, to: usize) -> (r: u32)
    requires
        from <= to <= b@.len(),
        to - from <= 4,
        all_digits(b@.subrange(from as int, to as int)),
    ensures
        r == decimal_value(b@.subrange(from as int, to as int)),
{
    let mut value: u32 = 0;
    let mut i: usize = from;
    proof {
        vstd::arithmetic::power::lemma_pow0(10);
        assert(b@.subrange(from as int, from as int) =~= Seq::<u8>::empty());
    }
    while i < to
        invariant
            from <= i <= to <= b@.len(),
            to - from <= 4,
            all_digits(b@.subrange(from as int, to as int)),
            value == decimal_value(b@.subrange(from as int, i as int)),
            value < vstd::arithmetic::power::pow(10, (i - from) as nat),
        decreases to - i,
    {
        let ghost s = b@.subrange(from as int, i + 1);
        proof {
            assert(s.drop_last() =~= b@.subrange(from as int, i as int));
            assert(b@[i as int] == b@.subrange(from as int, to as int)[i - from]);
            vstd::arithmetic::power::lemma_pow_adds(10, (i - from) as nat, 1);
            vstd::arithmetic::power::lemma_pow1(10);
            vstd::arithmetic::power::lemma_pow_increases(10, (i + 1 - from) as nat, 4);
            reveal_with_fuel(vstd::arithmetic::power::pow, 5);
            assert(vstd::arithmetic::power::pow(10, 4) == 10000);
        }
        value = value * 10 + (b[i] - 48) as u32;
        i = i + 1;
    }
    value
}

/// The year, month and day that a directory name spells, when it is
/// exactly eight decimal digits.
pub fn parse_day_name(name: &str) -> (r: Option<(i32, u32, u32)>)
    ensures
        day_of_name(encode_utf8(name@)) is None ==> r is None,
        day_of_name(encode_utf8(name@)) matches Some((y, m, d)) ==> r == Some(
            (y as i32, m as u32, d as u32),
        ) && y == y as i32 && m == m as u32 && d == d as u32,
{
    let b = name.as_bytes();
    assert(b@ == encode_utf8(name@));
    if b.len() != 8 {
        return None;
    }
    let mut i: usize = 0;
    while i < 8
        invariant
            b@ == encode_utf8(name@),
            b@.len() == 8,
            i <= 8,
            forall|j: int| 0 <= j < i ==> 48 <= #[trigger] b@[j] <= 57,
        decreases 8 - i,
    {
        if b[i] < 48 || b[i] > 57 {
            proof {
                assert(!all_digits(b@));
            }
            return None;
        }
        i = i + 1;
    }
    proof {
        assert(all_digits(b@));
        assert forall|from: int, to: int| 0 <= from <= to <= 8 implies all_digits(
            #[trigger] b@.subrange(from, to),
        ) by {
            assert forall|j: int| 0 <= j < to - from implies 48 <= #[trigger] b@.subrange(
                from,
                to,
            )[j] <= 57 by {
                assert(b@.subrange(from, to)[j] == b@[from + j]);
            }
        }
    }
    let year = digits_at(b, 0, 4);
    let month = digits_at(b, 4, 6);
    let day = digits_at(b, 6, 8);
    proof {
        lemma_digits_bound(b@.subrange(0, 4));
        lemma_digits_bound(b@.subrange(4, 6));
        lemma_digits_bound(b@.subrange(6, 8));
        reveal_with_fuel(vstd::arithmetic::power::pow, 5);
            assert(vstd::arithmetic::power::pow(10, 4) == 10000);
    }
    Some((year as i32, month, day))
}

/// Whether the directory `name` has expired at `now_ms` (milliseconds since
/// the epoch) under `days` days of retention. A name that does not spell an
/// existing date never expires.
pub fn is_expired_at(name: &str, now_ms: i64, days: usize) -> (r: bool)
    ensures
        r == expired(name@, now_ms as int, days as int),
{
    match parse_day_name(name) {
        None => false,
        Some((year, month, day)) => match civil_midnight(UTC_OFFSET_SECS, year, month, day) {
            None => false,
            Some(midnight) => (midnight as i128) < (now_ms as i128) - (days as i128) * (
            DAY_MS as i128),
        },
    }
}

} // verus!
