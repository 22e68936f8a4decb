//! Export: the hourly files that a time range covers, in ascending order.
use vstd::prelude::*;

use crate::rotation::{key_of, rotation_key, RotationKey, HOUR_MS};

verus! {

/// Why a time range cannot be exported.
#[derive(Clone, Copy, Debug, PartialEq, Eq, Structural)]
pub enum ExportError {
    /// The start of the range has no civil date.
    InvalidStart,
    /// The end of the range has no civil date.
    InvalidEnd,
}

/// The start of the hour that holds `ms`.
pub open spec fn hour_floor(ms: int) -> int {
    ms - ms % (HOUR_MS as int)
}

/// The number of hours from the hour of `start` to the hour of `end`, both
/// included; none when `end` comes first.
pub open spec fn hours_covered(start: int, end: int) -> nat {
    if hour_floor(end) < hour_floor(start) {
        0
    } else {
        ((hour_floor(end) - hour_floor(start)) / (HOUR_MS as int) + 1) as nat
    }
}

/// The hours of a time range: `count` hours from `first_ms` on.
#[derive(Clone, Copy, Debug, PartialEq, Eq, Structural)]
pub struct HourRange {
    pub first_ms: i64,
    pub count: u64,
}

impl HourRange {
    /// The last hour of the range is a timestamp.
    pub open spec fn wf(&self) -> bool {
        self.count > 0 ==> self.first_ms + (self.count - 1) * (HOUR_MS as int) <= i64::MAX
    }

    /// The start of the `k`-th hour of the range.
    pub fn hour_at(&self, k: u64) -> (r: i64)
        requires
            self.wf(),
            k < self.count,
        ensures
            r == self.first_ms + k * (HOUR_MS as int),
    {
        proof {
            assert(k * (HOUR_MS as int) <= (self.count - 1) * (HOUR_MS as int)) by (nonlinear_arith)
                requires
                    k <= self.count - 1,
            ;
            assert(self.first_ms + k * (HOUR_MS as int) >= i64::MIN) by (nonlinear_arith)
                requires
                    k >= 0,
                    self.first_ms >= i64::MIN,
            ;
        }
        let wide: i128 = (self.first_ms as i128) + (k as i128) * (HOUR_MS as i128);
        wide as i64
    }
}

fn floor_to_hour(ms: i64) -> (r: i64)
    requires
        -8400000000000000 <= ms <= 8400000000000000,
    ensures
        r == hour_floor(ms as int),
{
    let wide: i128 = ms as i128;
    let h: i128 = HOUR_MS as i128;
    let m: i128 = wide % h;
    let rem: i128 = if m < 0 {
        m + h
    } else {
        m
    };
    proof {
        assert(rem == (ms as int) % (HOUR_MS as int));
    }
    (wide - rem) as i64
}

/// The hours that an export of `[start_ms, end_ms]` reads: every hour from
/// the one holding `start_ms` to the one holding `end_ms`. Fails when either
/// end has no civil date; an empty range when `end_ms` comes first.
pub fn export_range(start_ms: i64, end_ms: i64) -> (r: Result<HourRange, ExportError>)
    ensures
        key_of(start_ms as int, false) is None ==> r == Err::<HourRange, ExportError>(
            ExportError::InvalidStart,
        ),
        key_of(start_ms as int, false) is Some && key_of(end_ms as int, false) is None ==> r == Err::<
            HourRange,
            ExportError,
        >(ExportError::InvalidEnd),
        key_of(start_ms as int, false) is Some && key_of(end_ms as int, false) is Some ==> (r matches Ok(
            h,
        ) && h.wf() && h.first_ms == hour_floor(start_ms as int) && h.count == hours_covered(
            start_ms as int,
            end_ms as int,
        )),
{
    if rotation_key(start_ms, false).is_none() {
        return Err(ExportError::InvalidStart);
    }
    if rotation_key(end_ms, false).is_none() {
        return Err(ExportError::InvalidEnd);
    }
    let first = floor_to_hour(start_ms);
    let last = floor_to_hour(end_ms);
    if last < first {
        return Ok(HourRange { first_ms: first, count: 0 });
    }
    let span: i128 = (last as i128) - (first as i128);
    let count: i128 = span / (HOUR_MS as i128) + 1;
    proof {
        assert((span as int) % (HOUR_MS as int) == 0);
        assert((count as int - 1) * (HOUR_MS as int) == span as int);
        assert(count <= u64::MAX);
    }
    Ok(HourRange { first_ms: first, count: count as u64 })
}

} // verus!
