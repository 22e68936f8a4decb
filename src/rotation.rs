//! Rotation: which directory and file a moment belongs to. Every decision
//! uses a fixed civil offset (UTC+8), never the host's time zone.
use vstd::prelude::*;
use vstd::utf8::{encode_utf8, is_ascii_chars};

use chrono::{Datelike, FixedOffset, TimeZone, Timelike};

use crate::codec::utf8_text;

verus! {

broadcast use vstd::utf8::group_utf8_lib;

/// The civil offset of every rotation decision, in seconds east of UTC.
pub const UTC_OFFSET_SECS: i32 = 28800;

/// One hour in milliseconds.
pub const HOUR_MS: i64 = 3600000;

/// The largest distance from the epoch, in milliseconds, at which a
/// timestamp is sure to have a civil date.
pub const SAFE_RANGE_MS: i64 = 8000000000000000;

/// The civil year, month, day and hour at `offset_secs` east of UTC of the
/// timestamp `ms`, if it has one.
pub uninterp spec fn civil_fields_of(offset_secs: int, ms: int) -> Option<(i32, u32, u32, u32)>;

/// Relies on chrono: `FixedOffset::east_opt` and
/// `TimeZone::timestamp_millis_opt` give the civil date and hour of a
/// timestamp. chrono covers the years -262143 to 262142: every timestamp
/// within 8_100_000_000_000_000 ms of the epoch has a date, and none beyond
/// 8_400_000_000_000_000 ms has one. Months run 1 to 12, days 1 to 31 and
/// hours 0 to 23.
#[verifier::external_body]
fn civil_fields(offset_secs: i32, ms: i64) -> (r: Option<(i32, u32, u32, u32)>)
    requires
        -86400 < offset_secs < 86400,
    ensures
        r == civil_fields_of(offset_secs as int, ms as int),
        -8100000000000000 <= ms <= 8100000000000000 ==> r is Some,
        r is Some ==> -8400000000000000 <= ms <= 8400000000000000,
        r matches Some((y, m, d, h)) ==> 1 <= m <= 12 && 1 <= d <= 31 && h <= 23,
{
    let tz = FixedOffset::east_opt(offset_secs)?;
    let t = tz.timestamp_millis_opt(ms).single()?;
    Some((t.year(), t.month(), t.day(), t.hour()))
}

/// A civil hour in the fixed offset, with the storage mode of its file.
#[derive(Clone, Copy, Debug, PartialEq, Eq, Structural)]
pub struct RotationKey {
    pub year: i32,
    pub month: u32,
    pub day: u32,
    pub hour: u32,
    pub encrypt: bool,
}

impl RotationKey {
    pub open spec fn wf(&self) -> bool {
        1 <= self.month <= 12 && 1 <= self.day <= 31 && self.hour <= 23
    }
}

/// The rotation key of the timestamp `ms`, if it has a civil date.
pub open spec fn key_of(ms: int, encrypt: bool) -> Option<RotationKey> {
    match civil_fields_of(UTC_OFFSET_SECS as int, ms) {
        Some(f) => Some(
            RotationKey { year: f.0, month: f.1, day: f.2, hour: f.3, encrypt },
        ),
        None => None,
    }
}

/// The decimal digits of `n`, left-padded with zeros to `width`.
pub open spec fn decimal(n: nat, width: nat) -> Seq<u8>
    decreases n + width,
{
    if n < 10 && width <= 1 {
        seq![(48 + n) as u8]
    } else {
        decimal(n / 10, if width > 0 { (width - 1) as nat } else { 0 }).push((48 + n % 10) as u8)
    }
}

/// A year as four digits at least; a negative year counts its sign in the
/// width.
pub open spec fn year_digits(y: int) -> Seq<u8> {
    if y >= 0 {
        decimal(y as nat, 4)
    } else {
        seq![45u8] + decimal((-y) as nat, 3)
    }
}

/// `YYYYMMDD`: the name of the directory of a day.
pub open spec fn dir_name(k: RotationKey) -> Seq<u8> {
    year_digits(k.year as int) + decimal(k.month as nat, 2) + decimal(k.day as nat, 2)
}

/// The mode part of a file name.
pub open spec fn mode_name(encrypt: bool) -> Seq<u8> {
    if encrypt {
        seq![101u8, 110, 99, 114, 121, 112, 116]
    } else {
        seq![112u8, 108, 97, 105, 110]
    }
}

/// `YYYYMMDD_HH_{mode}.log`: the name of the file of an hour.
pub open spec fn file_name(k: RotationKey) -> Seq<u8> {
    dir_name(k) + seq![95u8] + decimal(k.hour as nat, 2) + seq![95u8] + mode_name(k.encrypt)
        + seq![46u8, 108, 111, 103]
}

/// The characters of ASCII bytes.
pub open spec fn ascii_chars(b: Seq<u8>) -> Seq<char> {
    b.map_values(|x: u8| x as char)
}

/// The names of the directory and the file that one hour is written to.
pub struct HourFile {
    pub dir: String,
    pub file: String,
}

pub(crate) proof fn lemma_decimal_ascii(n: nat, width: nat)
    ensures
        forall|i: int| 0 <= i < decimal(n, width).len() ==> 48 <= #[trigger] decimal(n, width)[i] <= 57,
    decreases n + width,
{
    if !(n < 10 && width <= 1) {
        let w: nat = if width > 0 { (width - 1) as nat } else { 0 };
        lemma_decimal_ascii(n / 10, w);
        let p = decimal(n / 10, w);
        assert(decimal(n, width) == p.push((48 + n % 10) as u8));
        assert forall|i: int| 0 <= i < decimal(n, width).len() implies 48 <= #[trigger] decimal(
            n,
            width,
        )[i] <= 57 by {
            if i < p.len() {
                assert(decimal(n, width)[i] == p[i]);
            }
        }
    }
}

/// Appends the decimal digits of `n`, left-padded with zeros to `width`.
fn push_decimal(out: &mut Vec<u8>, n: u32, width: u32)
    ensures
        final(out)@ == old(out)@ + decimal(n as nat, width as nat),
    decreases n + width,
{
    if n < 10 && width <= 1 {
        out.push(48 + n as u8);
    } else {
        push_decimal(out, n / 10, if width > 0 { width - 1 } else { 0 });
        out.push(48 + (n % 10) as u8);
        proof {
            assert(old(out)@ + decimal(n as nat, width as nat) =~= old(out)@ + decimal(
                (n / 10) as nat,
                if width > 0 { (width - 1) as nat } else { 0 },
            ) + seq![(48 + n % 10) as u8]);
        }
    }
}

/// Appends the bytes of `s`.
fn push_all(out: &mut Vec<u8>, s: &[u8])
    ensures
        final(out)@ == old(out)@ + s@,
{
    crate::record::append_bytes(out, s);
}

/// The text of bytes that are all ASCII.
fn ascii_text(bytes: Vec<u8>) -> (r: String)
    requires
        forall|i: int| 0 <= i < bytes@.len() ==> #[trigger] bytes@[i] < 128,
    ensures
        r@ == ascii_chars(bytes@),
{
    let ghost cs = ascii_chars(bytes@);
    proof {
        assert(is_ascii_chars(cs));
        assert(encode_utf8(cs) =~= bytes@);
    }
    match utf8_text(bytes) {
        Some(s) => s,
        None => String::new(),
    }
}

proof fn lemma_year_ascii(y: int)
    ensures
        forall|i: int| 0 <= i < year_digits(y).len() ==> #[trigger] year_digits(y)[i] < 128,
{
    if y >= 0 {
        lemma_decimal_ascii(y as nat, 4);
    } else {
        lemma_decimal_ascii((-y) as nat, 3);
        assert forall|i: int| 0 <= i < year_digits(y).len() implies #[trigger] year_digits(y)[i] < 128 by {
            if i > 0 {
                assert(year_digits(y)[i] == decimal((-y) as nat, 3)[i - 1]);
            }
        }
    }
}

fn push_year(out: &mut Vec<u8>, y: i32)
    ensures
        final(out)@ == old(out)@ + year_digits(y as int),
{
    if y >= 0 {
        push_decimal(out, y as u32, 4);
    } else {
        out.push(45);
        let magnitude: u32 = if y == i32::MIN {
            2147483648u32
        } else {
            (-y) as u32
        };
        push_decimal(out, magnitude, 3);
        proof {
            assert(old(out)@ + year_digits(y as int) =~= old(out)@.push(45u8) + decimal(
                magnitude as nat,
                3,
            ));
        }
    }
}

fn dir_bytes(k: &RotationKey) -> (r: Vec<u8>)
    ensures
        r@ == dir_name(*k),
{
    let mut out: Vec<u8> = Vec::new();
    push_year(&mut out, k.year);
    push_decimal(&mut out, k.month, 2);
    push_decimal(&mut out, k.day, 2);
    proof {
        assert(out@ =~= dir_name(*k));
    }
    out
}

proof fn lemma_names_ascii(k: RotationKey)
    ensures
        forall|i: int| 0 <= i < dir_name(k).len() ==> #[trigger] dir_name(k)[i] < 128,
        forall|i: int| 0 <= i < file_name(k).len() ==> #[trigger] file_name(k)[i] < 128,
{
    lemma_year_ascii(k.year as int);
    lemma_decimal_ascii(k.month as nat, 2);
    lemma_decimal_ascii(k.day as nat, 2);
    lemma_decimal_ascii(k.hour as nat, 2);
    let y = year_digits(k.year as int);
    let m = decimal(k.month as nat, 2);
    let d = decimal(k.day as nat, 2);
    let h = decimal(k.hour as nat, 2);
    assert forall|i: int| 0 <= i < dir_name(k).len() implies #[trigger] dir_name(k)[i] < 128 by {
        if i < y.len() {
            assert(dir_name(k)[i] == y[i]);
        } else if i < y.len() + m.len() {
            assert(dir_name(k)[i] == m[i - y.len()]);
        } else {
            assert(dir_name(k)[i] == d[i - y.len() - m.len()]);
        }
    }
    let a = dir_name(k) + seq![95u8];
    let b = a + h;
    let c = b + seq![95u8] + mode_name(k.encrypt);
    assert forall|i: int| 0 <= i < file_name(k).len() implies #[trigger] file_name(k)[i] < 128 by {
        if i < dir_name(k).len() {
            assert(file_name(k)[i] == dir_name(k)[i]);
        } else if a.len() <= i < b.len() {
            assert(file_name(k)[i] == h[i - a.len()]);
        }
    }
}

/// The value of a run of ASCII decimal digits.
pub open spec fn decimal_value(b: Seq<u8>) -> int
    decreases b.len(),
{
    if b.len() == 0 {
        0
    } else {
        decimal_value(b.drop_last()) * 10 + (b.last() - 48)
    }
}

pub(crate) proof fn lemma_decimal_value(n: nat, width: nat)
    ensures
        decimal_value(decimal(n, width)) == n,
        decimal(n, width).len() >= 1,
        decimal(n, width)[0] != 45,
    decreases n + width,
{
    if n < 10 && width <= 1 {
        assert(decimal(n, width).drop_last() =~= Seq::<u8>::empty());
        assert(decimal_value(Seq::<u8>::empty()) == 0);
    } else {
        let w: nat = if width > 0 { (width - 1) as nat } else { 0 };
        lemma_decimal_value(n / 10, w);
        let p = decimal(n / 10, w);
        assert(decimal(n, width).drop_last() =~= p);
        assert(decimal(n, width).last() == (48 + n % 10) as u8);
        assert(decimal(n, width)[0] == p[0]);
        assert((n / 10) * 10 + n % 10 == n) by (nonlinear_arith);
    }
}

pub(crate) proof fn lemma_two_digits(n: nat)
    requires
        n < 100,
    ensures
        decimal(n, 2).len() == 2,
{
    assert(decimal(n, 2) == decimal(n / 10, 1).push((48 + n % 10) as u8));
    assert(decimal(n / 10, 1) == seq![(48 + n / 10) as u8]);
}

pub(crate) proof fn lemma_four_digits(n: nat)
    requires
        n < 10000,
    ensures
        decimal(n, 4).len() == 4,
{
    assert(decimal(n, 4) == decimal(n / 10, 3).push((48 + n % 10) as u8));
    assert(decimal(n / 10, 3) == decimal(n / 100, 2).push((48 + (n / 10) % 10) as u8));
    assert(decimal(n / 100, 2) == decimal(n / 1000, 1).push((48 + (n / 100) % 10) as u8));
    assert(decimal(n / 1000, 1) == seq![(48 + n / 1000) as u8]);
}

/// Two different rotation keys never share a file name, so writes of two
/// different hours, or of the two modes, land in two different files. The
/// directory name is the start of the file name, so the paths differ too.
pub proof fn lemma_file_names_distinct(a: RotationKey, b: RotationKey)
    requires
        a.wf(),
        b.wf(),
        a != b,
    ensures
        file_name(a) != file_name(b),
{
    if file_name(a) == file_name(b) {
        let f = file_name(a);
        let l = f.len() as int;
        // The mode: the last letter before `.log` is `t` or `n`.
        assert(f[l - 5] == file_name(b)[l - 5]);
        assert(a.encrypt == b.encrypt);
        lemma_two_digits(a.hour as nat);
        lemma_two_digits(b.hour as nat);
        lemma_two_digits(a.month as nat);
        lemma_two_digits(b.month as nat);
        lemma_two_digits(a.day as nat);
        lemma_two_digits(b.day as nat);
        let ml = mode_name(a.encrypt).len() as int;
        let ha = decimal(a.hour as nat, 2);
        let hb = decimal(b.hour as nat, 2);
        let da = dir_name(a);
        let db = dir_name(b);
        assert(da.len() == db.len());
        assert(ha =~= f.subrange(da.len() as int + 1, da.len() as int + 3));
        assert(hb =~= file_name(b).subrange(db.len() as int + 1, db.len() as int + 3));
        assert(da =~= f.take(da.len() as int));
        assert(db =~= file_name(b).take(db.len() as int));
        lemma_decimal_value(a.hour as nat, 2);
        lemma_decimal_value(b.hour as nat, 2);
        assert(a.hour == b.hour);
        let ya = year_digits(a.year as int);
        let yb = year_digits(b.year as int);
        let n = ya.len() as int;
        assert(yb.len() == n);
        assert(decimal(a.month as nat, 2) =~= da.subrange(n, n + 2));
        assert(decimal(b.month as nat, 2) =~= db.subrange(n, n + 2));
        assert(decimal(a.day as nat, 2) =~= da.subrange(n + 2, n + 4));
        assert(decimal(b.day as nat, 2) =~= db.subrange(n + 2, n + 4));
        lemma_decimal_value(a.month as nat, 2);
        lemma_decimal_value(b.month as nat, 2);
        lemma_decimal_value(a.day as nat, 2);
        lemma_decimal_value(b.day as nat, 2);
        assert(a.month == b.month);
        assert(a.day == b.day);
        assert(ya =~= da.take(n));
        assert(yb =~= db.take(n));
        lemma_year_digits_injective(a.year as int, b.year as int);
        assert(a.year == b.year);
    }
}

proof fn lemma_year_digits_injective(x: int, y: int)
    requires
        year_digits(x) == year_digits(y),
    ensures
        x == y,
{
    if x >= 0 {
        lemma_decimal_value(x as nat, 4);
    } else {
        lemma_decimal_value((-x) as nat, 3);
        assert(year_digits(x).drop_first() =~= decimal((-x) as nat, 3));
    }
    if y >= 0 {
        lemma_decimal_value(y as nat, 4);
    } else {
        lemma_decimal_value((-y) as nat, 3);
        assert(year_digits(y).drop_first() =~= decimal((-y) as nat, 3));
    }
}

impl RotationKey {
    /// `YYYYMMDD`: the directory of this key's day.
    pub fn dir_name(&self) -> (r: String)
        ensures
            r@ == ascii_chars(dir_name(*self)),
    {
        proof {
            lemma_names_ascii(*self);
        }
        ascii_text(dir_bytes(self))
    }

    /// `YYYYMMDD_HH_{mode}.log`: the file of this key's hour.
    pub fn file_name(&self) -> (r: String)
        ensures
            r@ == ascii_chars(file_name(*self)),
    {
        proof {
            lemma_names_ascii(*self);
        }
        let mut out = dir_bytes(self);
        out.push(95);
        push_decimal(&mut out, self.hour, 2);
        out.push(95);
        if self.encrypt {
            push_all(&mut out, &[101u8, 110, 99, 114, 121, 112, 116]);
        } else {
            push_all(&mut out, &[112u8, 108, 97, 105, 110]);
        }
        push_all(&mut out, &[46u8, 108, 111, 103]);
        proof {
            assert(out@ =~= file_name(*self));
        }
        ascii_text(out)
    }

    /// The directory and file names of this key.
    pub fn hour_file(&self) -> (r: HourFile)
        ensures
            r.dir@ == ascii_chars(dir_name(*self)),
            r.file@ == ascii_chars(file_name(*self)),
    {
        HourFile { dir: self.dir_name(), file: self.file_name() }
    }
}

/// The rotation key of the timestamp `ms` (milliseconds since the epoch),
/// or `None` when it has no civil date.
pub fn rotation_key(ms: i64, encrypt: bool) -> (r: Option<RotationKey>)
    ensures
        r == key_of(ms as int, encrypt),
        -8100000000000000 <= ms <= 8100000000000000 ==> r is Some,
        r is Some ==> -8400000000000000 <= ms <= 8400000000000000,
        r is Some ==> r->0.wf(),
{
    match civil_fields(UTC_OFFSET_SECS, ms) {
        Some(f) => Some(RotationKey { year: f.0, month: f.1, day: f.2, hour: f.3, encrypt }),
        None => None,
    }
}

} // verus!
