//! The physical ranges that the mean elements of a set must lie in before an
//! orbit can be initialized from them.

use vstd::prelude::*;
use crate::field::{
    digits_value, implied_fraction_value, lemma_digits_value_bound, lemma_pow10_monotonic,
    lemma_pow10_positive, pow10, Decimal,
};
use crate::tle::{cols, tle_spec, TLE};

verus! {

/// The value of `d` as the fraction `numerator(d) / denominator(d)`.
pub open spec fn numerator(d: Decimal) -> int {
    if d.exponent >= 0 {
        d.mantissa * pow10(d.exponent as nat)
    } else {
        d.mantissa as int
    }
}

pub open spec fn denominator(d: Decimal) -> int {
    if d.exponent >= 0 {
        1
    } else {
        pow10((-d.exponent) as nat) as int
    }
}

/// The sign of `d - k`: -1, 0 or 1.
pub open spec fn compare_spec(d: Decimal, k: int) -> int {
    let a = numerator(d);
    let b = k * denominator(d);
    if a < b {
        -1
    } else if a == b {
        0
    } else {
        1
    }
}

proof fn lemma_pow10_values()
    ensures
        pow10(10) == 10_000_000_000,
        pow10(19) == 10_000_000_000_000_000_000,
        pow10(9) == 1_000_000_000,
        pow10(18) == 1_000_000_000_000_000_000,
{
    reveal_with_fuel(pow10, 20);
}

fn pow10_u128(n: u32) -> (r: u128)
    requires
        n <= 19,
    ensures
        r == pow10(n as nat),
{
    let mut r: u128 = 1;
    let mut i: u32 = 0;
    while i < n
        invariant
            i <= n <= 19,
            r == pow10(i as nat),
        decreases n - i,
    {
        proof {
            lemma_pow10_monotonic(i as nat + 1, 19);
            lemma_pow10_values();
        }
        r = r * 10;
        i = i + 1;
    }
    r
}

/// Compares the exact value of `d` with the integer `k`: the sign of `d - k`.
pub fn compare(d: Decimal, k: u32) -> (r: i8)
    ensures
        r == compare_spec(d, k as int),
{
    let m = d.mantissa;
    proof {
        lemma_pow10_values();
    }
    if d.exponent >= 0 {
        let ghost p = pow10(d.exponent as nat);
        proof {
            lemma_pow10_positive(d.exponent as nat);
        }
        if m < 0 {
            assert(m * p < 0) by (nonlinear_arith)
                requires
                    m < 0,
                    p >= 1,
            ;
            return -1;
        }
        if m == 0 {
            assert(m * p == 0) by (nonlinear_arith)
                requires
                    m == 0,
            ;
            return if k == 0 {
                0
            } else {
                -1
            };
        }
        if d.exponent >= 10 {
            proof {
                lemma_pow10_monotonic(10, d.exponent as nat);
                assert(m * p >= p) by (nonlinear_arith)
                    requires
                        m >= 1,
                        p >= 1,
                ;
            }
            return 1;
        }
        proof {
            lemma_pow10_monotonic(d.exponent as nat, 9);
            assert(m * p <= 0x7fff_ffff_ffff_ffff * 1_000_000_000) by (nonlinear_arith)
                requires
                    0 < m <= 0x7fff_ffff_ffff_ffff,
                    1 <= p <= 1_000_000_000,
            ;
        }
        let v = (m as u128) * pow10_u128(d.exponent as u32);
        assert(v == m * p);
        if v < k as u128 {
            -1
        } else if v == k as u128 {
            0
        } else {
            1
        }
    } else {
        let n = (0 - (d.exponent as i64)) as u32;
        let ghost p = pow10(n as nat);
        proof {
            lemma_pow10_positive(n as nat);
        }
        if m < 0 {
            assert(k * p >= 0) by (nonlinear_arith)
                requires
                    k >= 0,
                    p >= 1,
            ;
            return -1;
        }
        if k == 0 {
            assert(k * p == 0);
            return if m == 0 {
                0
            } else {
                1
            };
        }
        if m == 0 {
            assert(k * p >= 1) by (nonlinear_arith)
                requires
                    k >= 1,
                    p >= 1,
            ;
            return -1;
        }
        if n >= 19 {
            proof {
                lemma_pow10_monotonic(19, n as nat);
                assert(k * p >= p) by (nonlinear_arith)
                    requires
                        k >= 1,
                        p >= 1,
                ;
            }
            return -1;
        }
        proof {
            lemma_pow10_monotonic(n as nat, 18);
            assert(k * p <= 0xffff_ffff * 1_000_000_000_000_000_000) by (nonlinear_arith)
                requires
                    0 < k <= 0xffff_ffff,
                    1 <= p <= 1_000_000_000_000_000_000,
            ;
        }
        let w = (k as u128) * pow10_u128(n);
        assert(w == k * p);
        if (m as u128) < w {
            -1
        } else if m as u128 == w {
            0
        } else {
            1
        }
    }
}

/// Why a decoded element set cannot describe an orbit.
#[derive(Clone, Copy, Debug, PartialEq, Eq, Structural)]
pub enum InvalidElements {
    /// The eccentricity is outside [0, 1).
    Eccentricity,
    /// The mean motion is not positive.
    MeanMotion,
    /// The inclination is outside [0, 180] degrees.
    Inclination,
}

pub open spec fn eccentricity_in_range(e: Decimal) -> bool {
    compare_spec(e, 0) >= 0 && compare_spec(e, 1) < 0
}

pub open spec fn mean_motion_in_range(n: Decimal) -> bool {
    compare_spec(n, 0) > 0
}

pub open spec fn inclination_in_range(i: Decimal) -> bool {
    compare_spec(i, 0) >= 0 && compare_spec(i, 180) <= 0
}

/// Every decoded element set has an eccentricity in [0, 1): the format writes
/// it as seven digits after an implied leading "0.".
pub proof fn lemma_decoded_eccentricity_in_range(l1: Seq<u8>, l2: Seq<u8>, name: Option<Seq<u8>>)
    requires
        tle_spec(l1, l2, name) is Ok,
    ensures
        eccentricity_in_range(tle_spec(l1, l2, name)->Ok_0.eccentricity),
{
    let s = cols(l2, 26, 33);
    let e = implied_fraction_value(s);
    assert(tle_spec(l1, l2, name)->Ok_0.eccentricity == e);
    lemma_digits_value_bound(s);
    reveal_with_fuel(pow10, 8);
    assert(s.len() == 7);
    assert(numerator(e) == digits_value(s));
    assert(denominator(e) == 10_000_000);
}

/// Checks, in this order, that the eccentricity lies in [0, 1), the mean
/// motion is positive and the inclination lies in [0, 180] degrees.
pub fn validate_elements(t: &TLE) -> (r: Result<(), InvalidElements>)
    ensures
        !eccentricity_in_range(t.eccentricity) <==> r == Err::<(), _>(
            InvalidElements::Eccentricity,
        ),
        eccentricity_in_range(t.eccentricity) && !mean_motion_in_range(t.mean_motion) <==> r
            == Err::<(), _>(InvalidElements::MeanMotion),
        eccentricity_in_range(t.eccentricity) && mean_motion_in_range(t.mean_motion)
            && !inclination_in_range(t.inclination) <==> r == Err::<(), _>(
            InvalidElements::Inclination,
        ),
        r is Ok <==> eccentricity_in_range(t.eccentricity) && mean_motion_in_range(t.mean_motion)
            && inclination_in_range(t.inclination),
{
    if compare(t.eccentricity, 0) < 0 || compare(t.eccentricity, 1) >= 0 {
        return Err(InvalidElements::Eccentricity);
    }
    if compare(t.mean_motion, 0) <= 0 {
        return Err(InvalidElements::MeanMotion);
    }
    if compare(t.inclination, 0) < 0 || compare(t.inclination, 180) > 0 {
        return Err(InvalidElements::Inclination);
    }
    Ok(())
}

} // verus!
