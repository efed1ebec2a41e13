//! The epoch of an element set on a continuous day count: days elapsed since
//! the lunar-solar reference epoch 1899-12-31 12:00 (Julian date 2415020.0).

use vstd::prelude::*;
use crate::field::{lemma_pow10_monotonic, lemma_pow10_positive, pow10, Decimal};
use crate::tle::TLE;

verus! {

/// The calendar year of a two-digit epoch year: 57 to 99 stand for 1957 to
/// 1999, 00 to 56 for 2000 to 2056.
pub open spec fn full_year(yy: int) -> int {
    if yy < 57 {
        2000 + yy
    } else {
        1900 + yy
    }
}

/// Whole days from 1899-12-31 00:00 to 00:00 on December 31 of the year before
/// `y`, the day that epoch day 1.0 follows; every fourth year from 1904 on is
/// a leap year, which holds from 1901 to 2099.
pub open spec fn days_before_year(y: int) -> int {
    365 * (y - 1900) + (y - 1901) / 4
}

/// Days from the reference epoch to the element epoch, in units of
/// ten to the power `day.exponent` (a negative exponent).
pub open spec fn epoch_offset(yy: int, day: Decimal) -> int {
    let unit = pow10((-day.exponent) as nat) as int;
    days_before_year(full_year(yy)) * unit - unit / 2 + day.mantissa
}

pub open spec fn epoch_offset_defined(yy: int, day: Decimal) -> bool {
    &&& 0 <= yy < 100
    &&& -12 <= day.exponent <= -1
    &&& i64::MIN <= epoch_offset(yy, day) <= i64::MAX
}

/// Maps a two-digit epoch year to its calendar year.
pub fn epoch_full_year(yy: u32) -> (r: u32)
    requires
        yy < 100,
    ensures
        r == full_year(yy as int),
{
    if yy < 57 {
        2000 + yy
    } else {
        1900 + yy
    }
}

/// The epoch of `t` as days since 1899-12-31 12:00, exactly, with the same
/// exponent as its epoch day. `None` when the epoch year is not two digits,
/// the epoch day has no fraction digit or more than twelve, or the count does
/// not fit.
pub fn epoch_days_since_1900(t: &TLE) -> (r: Option<Decimal>)
    ensures
        r is Some <==> epoch_offset_defined(t.epoch_year as int, t.epoch_day),
        r matches Some(d) ==> d.exponent == t.epoch_day.exponent && d.mantissa == epoch_offset(
            t.epoch_year as int,
            t.epoch_day,
        ),
{
    let yy = t.epoch_year;
    let e = t.epoch_day.exponent;
    if yy >= 100 || e < -12 || e > -1 {
        return None;
    }
    let year = epoch_full_year(yy);
    let whole = 365 * (year as i128 - 1900) + (year as i128 - 1901) / 4;
    let n = (0 - e) as u32;
    let mut unit: i128 = 1;
    let mut i: u32 = 0;
    while i < n
        invariant
            i <= n <= 12,
            unit == pow10(i as nat),
        decreases n - i,
    {
        proof {
            lemma_pow10_monotonic(i as nat + 1, 12);
            reveal_with_fuel(pow10, 13);
        }
        unit = unit * 10;
        i = i + 1;
    }
    proof {
        lemma_pow10_monotonic(n as nat, 12);
        lemma_pow10_positive(n as nat);
        reveal_with_fuel(pow10, 13);
        assert(0 < whole <= 60000);
        assert(whole * unit <= 60000 * 1_000_000_000_000) by (nonlinear_arith)
            requires
                0 < whole <= 60000,
                1 <= unit <= 1_000_000_000_000,
        ;
    }
    let offset = whole * unit - unit / 2 + t.epoch_day.mantissa as i128;
    if offset < i64::MIN as i128 || offset > i64::MAX as i128 {
        return None;
    }
    Some(Decimal { mantissa: offset as i64, exponent: e })
}

} // verus!
