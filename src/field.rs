//! Fixed-width fields of an element line: right-aligned integers, numbers with
//! a decimal point, implied-point fractions and the compact exponent notation.

use vstd::prelude::*;
use vstd::utf8::*;
use crate::checksum::is_digit;

verus! {

/// An exact decimal number: `mantissa` times ten to the power `exponent`.
#[derive(Clone, Copy, Debug, PartialEq, Eq, Structural)]
pub struct Decimal {
    pub mantissa: i64,
    pub exponent: i32,
}

pub open spec fn pow10(n: nat) -> nat
    decreases n,
{
    if n == 0 {
        1
    } else {
        10 * pow10((n - 1) as nat)
    }
}

/// The value of a digit character; a blank stands for a leading zero.
pub open spec fn digit_value(b: u8) -> nat {
    if is_digit(b) {
        (b - 48) as nat
    } else {
        0
    }
}

/// The number that a run of digits (and leading blanks) writes in base ten.
pub open spec fn digits_value(s: Seq<u8>) -> nat
    decreases s.len(),
{
    if s.len() == 0 {
        0
    } else {
        digits_value(s.drop_last()) * 10 + digit_value(s.last())
    }
}

pub open spec fn all_digits(s: Seq<u8>) -> bool {
    forall|i: int| 0 <= i < s.len() ==> is_digit(#[trigger] s[i])
}

/// A right-aligned unsigned number: blanks, then one digit or more.
pub open spec fn is_padded_number(s: Seq<u8>) -> bool {
    &&& s.len() > 0
    &&& is_digit(s.last())
    &&& forall|i: int| 0 <= i < s.len() ==> is_digit(#[trigger] s[i]) || s[i] == 32
    &&& forall|i: int, j: int|
        #![trigger s[i], s[j]]
        0 <= i < j < s.len() && is_digit(s[i]) ==> is_digit(s[j])
}

pub proof fn lemma_pow10_positive(n: nat)
    ensures
        pow10(n) >= 1,
    decreases n,
{
    if n > 0 {
        lemma_pow10_positive((n - 1) as nat);
    }
}

pub proof fn lemma_pow10_add(a: nat, b: nat)
    ensures
        pow10(a + b) == pow10(a) * pow10(b),
    decreases b,
{
    if b == 0 {
        assert(pow10(0) == 1);
        assert(a + b == a);
    } else {
        let b1 = (b - 1) as nat;
        lemma_pow10_add(a, b1);
        let pa = pow10(a);
        let pb1 = pow10(b1);
        assert(pow10(a + b) == 10 * pow10(a + b1));
        assert(pow10(b) == 10 * pb1);
        assert(pa * (10 * pb1) == 10 * (pa * pb1)) by (nonlinear_arith);
    }
}

pub proof fn lemma_pow10_monotonic(a: nat, b: nat)
    requires
        a <= b,
    ensures
        pow10(a) <= pow10(b),
    decreases b,
{
    if a < b {
        lemma_pow10_monotonic(a, (b - 1) as nat);
    }
}

pub proof fn lemma_pow10_18()
    ensures
        pow10(18) == 1_000_000_000_000_000_000,
{
    reveal_with_fuel(pow10, 19);
}

pub proof fn lemma_digits_value_bound(s: Seq<u8>)
    ensures
        digits_value(s) < pow10(s.len()),
    decreases s.len(),
{
    if s.len() > 0 {
        lemma_digits_value_bound(s.drop_last());
        let p = pow10((s.len() - 1) as nat);
        let d = digits_value(s.drop_last());
        assert(d * 10 + digit_value(s.last()) < 10 * p) by (nonlinear_arith)
            requires
                d < p,
                digit_value(s.last()) <= 9,
        ;
    }
}

/// Reads the digits of `s` after a value `acc` already read: the result is
/// `acc` shifted left by the length of `s`, plus the value of `s`.
fn read_digits(s: &[u8], acc: u64) -> (r: u64)
    requires
        forall|i: int| 0 <= i < s@.len() ==> is_digit(#[trigger] s@[i]) || s@[i] == 32,
        (acc + 1) * pow10(s@.len()) <= u64::MAX + 1,
    ensures
        r == acc * pow10(s@.len()) + digits_value(s@),
{
    let mut r: u64 = acc;
    let mut i: usize = 0;
    proof {
        assert(pow10(0) == 1);
        assert(digits_value(s@.subrange(0, 0)) == 0);
    }
    while i < s.len()
        invariant
            i <= s@.len(),
            forall|k: int| 0 <= k < s@.len() ==> is_digit(#[trigger] s@[k]) || s@[k] == 32,
            (acc + 1) * pow10(s@.len()) <= u64::MAX + 1,
            r == acc * pow10(i as nat) + digits_value(s@.subrange(0, i as int)),
        decreases s@.len() - i,
    {
        let ghost prefix = s@.subrange(0, i as int);
        let ghost next = s@.subrange(0, i as int + 1);
        proof {
            assert(next.drop_last() == prefix);
            lemma_digits_value_bound(prefix);
            lemma_pow10_monotonic(i as nat + 1, s@.len());
            let p = pow10(i as nat);
            let d = digits_value(prefix);
            let q = pow10(s@.len());
            assert(r * 10 + 9 < (acc + 1) * (10 * p)) by (nonlinear_arith)
                requires
                    r == acc * p + d,
                    d < p,
            ;
            assert((acc + 1) * (10 * p) <= (acc + 1) * q) by (nonlinear_arith)
                requires
                    10 * p <= q,
            ;
            assert(r * 10 == acc * (10 * p) + d * 10) by (nonlinear_arith)
                requires
                    r == acc * p + d,
            ;
        }
        let c = s[i];
        let v: u64 = if 48 <= c && c <= 57 {
            (c - 48) as u64
        } else {
            0
        };
        r = r * 10 + v;
        i = i + 1;
    }
    proof {
        assert(s@.subrange(0, s@.len() as int) == s@);
    }
    r
}

/// Tells whether every character of `s` is a digit.
fn check_all_digits(s: &[u8]) -> (r: bool)
    ensures
        r == all_digits(s@),
{
    let mut i: usize = 0;
    while i < s.len()
        invariant
            i <= s@.len(),
            forall|k: int| 0 <= k < i ==> is_digit(#[trigger] s@[k]),
        decreases s@.len() - i,
    {
        if s[i] < 48 || s[i] > 57 {
            return false;
        }
        i = i + 1;
    }
    true
}

/// Tells whether `s` is a right-aligned number: blanks, then one digit or more.
fn check_padded_number(s: &[u8]) -> (r: bool)
    ensures
        r == is_padded_number(s@),
{
    let mut seen_digit = false;
    let mut i: usize = 0;
    while i < s.len()
        invariant
            i <= s@.len(),
            forall|k: int| 0 <= k < i ==> is_digit(#[trigger] s@[k]) || s@[k] == 32,
            forall|k: int, l: int|
                #![trigger s@[k], s@[l]]
                0 <= k < l < i && is_digit(s@[k]) ==> is_digit(s@[l]),
            seen_digit ==> i > 0 && is_digit(s@[i - 1]),
            !seen_digit ==> forall|k: int| 0 <= k < i ==> #[trigger] s@[k] == 32,
        decreases s@.len() - i,
    {
        let c = s[i];
        if 48 <= c && c <= 57 {
            seen_digit = true;
        } else if c == 32 && !seen_digit {
        } else {
            proof {
                if c == 32 {
                    assert(is_digit(s@[i - 1]) && s@[i as int] == 32);
                }
            }
            return false;
        }
        i = i + 1;
    }
    seen_digit
}

/// Decodes a right-aligned unsigned number of at most 18 columns.
pub fn padded_number(s: &[u8]) -> (r: Option<u64>)
    requires
        s@.len() <= 18,
    ensures
        r is Some <==> is_padded_number(s@),
        r matches Some(v) ==> v == digits_value(s@),
{
    if !check_padded_number(s) {
        return None;
    }
    proof {
        lemma_pow10_monotonic(s@.len(), 18);
        lemma_pow10_18();
    }
    Some(read_digits(s, 0))
}

/// A sign column: blank or plus for a positive value, minus for a negative one.
pub open spec fn is_sign(b: u8) -> bool {
    b == 32 || b == 43 || b == 45
}

pub open spec fn sign_value(b: u8) -> int {
    if b == 45 {
        -1
    } else {
        1
    }
}

/// A number with a decimal point at `point`: a right-aligned integer part,
/// the point, then one fraction digit or more.
pub open spec fn is_fixed_point(s: Seq<u8>, point: int) -> bool {
    &&& 0 < point < s.len() - 1
    &&& is_padded_number(s.subrange(0, point))
    &&& s[point] == 46
    &&& all_digits(s.subrange(point + 1, s.len() as int))
}

/// The exact value of a number written with its point at `point`.
pub open spec fn fixed_point_value(s: Seq<u8>, point: int) -> Decimal {
    let frac = s.subrange(point + 1, s.len() as int);
    Decimal {
        mantissa: (digits_value(s.subrange(0, point)) * pow10(frac.len()) + digits_value(
            frac,
        )) as i64,
        exponent: -(frac.len() as int) as i32,
    }
}

/// A fraction whose leading "0." is implied: digits only.
pub open spec fn is_implied_fraction(s: Seq<u8>) -> bool {
    s.len() > 0 && all_digits(s)
}

pub open spec fn implied_fraction_value(s: Seq<u8>) -> Decimal {
    Decimal { mantissa: digits_value(s) as i64, exponent: -(s.len() as int) as i32 }
}

/// A signed fraction with no integer digit: a sign, a point, then digits.
pub open spec fn is_signed_fraction(s: Seq<u8>) -> bool {
    &&& s.len() > 2
    &&& is_sign(s[0])
    &&& s[1] == 46
    &&& all_digits(s.subrange(2, s.len() as int))
}

pub open spec fn signed_fraction_value(s: Seq<u8>) -> Decimal {
    let digits = s.subrange(2, s.len() as int);
    Decimal {
        mantissa: (sign_value(s[0]) * digits_value(digits)) as i64,
        exponent: -(digits.len() as int) as i32,
    }
}

/// The compact exponent notation of eight columns, `sMMMMMeE`: the signed
/// fraction 0.MMMMM times ten to the signed single-digit power eE.
pub open spec fn is_exponent_form(s: Seq<u8>) -> bool {
    &&& s.len() == 8
    &&& is_sign(s[0])
    &&& all_digits(s.subrange(1, 6))
    &&& (s[6] == 43 || s[6] == 45)
    &&& is_digit(s[7])
}

pub open spec fn exponent_form_value(s: Seq<u8>) -> Decimal {
    Decimal {
        mantissa: (sign_value(s[0]) * digits_value(s.subrange(1, 6))) as i64,
        exponent: (sign_value(s[6]) * digit_value(s[7]) - 5) as i32,
    }
}

pub open spec fn trim_start(s: Seq<u8>) -> Seq<u8>
    decreases s.len(),
{
    if s.len() > 0 && s[0] == 32 {
        trim_start(s.drop_first())
    } else {
        s
    }
}

pub open spec fn trim_end(s: Seq<u8>) -> Seq<u8>
    decreases s.len(),
{
    if s.len() > 0 && s.last() == 32 {
        trim_end(s.drop_last())
    } else {
        s
    }
}

/// `s` without its leading and trailing blanks.
pub open spec fn trim_blanks(s: Seq<u8>) -> Seq<u8> {
    trim_end(trim_start(s))
}

/// Printable ASCII: the blank through the tilde.
pub open spec fn is_printable(s: Seq<u8>) -> bool {
    forall|i: int| 0 <= i < s.len() ==> 32 <= #[trigger] s[i] <= 126
}

/// The characters that ASCII bytes stand for, one for one.
pub open spec fn ascii_chars(s: Seq<u8>) -> Seq<char> {
    Seq::new(s.len(), |i: int| s[i] as char)
}

/// Decodes a number with its decimal point at `point`, of at most 18 digits.
pub fn fixed_point(s: &[u8], point: usize) -> (r: Option<Decimal>)
    requires
        s@.len() <= 19,
    ensures
        r is Some <==> is_fixed_point(s@, point as int),
        r matches Some(d) ==> d == fixed_point_value(s@, point as int),
{
    if point == 0 || s.len() < 2 || point >= s.len() - 1 {
        return None;
    }
    let int_part = &s[0..point];
    let frac = &s[point + 1..s.len()];
    if !check_padded_number(int_part) || s[point] != 46 || !check_all_digits(frac) {
        return None;
    }
    proof {
        lemma_pow10_18();
        lemma_pow10_add(int_part@.len(), frac@.len());
        lemma_pow10_monotonic(int_part@.len() + frac@.len(), 18);
        lemma_pow10_monotonic(int_part@.len(), 18);
        lemma_digits_value_bound(int_part@);
        let a = digits_value(int_part@);
        let pi = pow10(int_part@.len());
        let pf = pow10(frac@.len());
        assert((a + 1) * pf <= pi * pf) by (nonlinear_arith)
            requires
                a < pi,
        ;
        lemma_digits_value_bound(frac@);
    }
    let whole = read_digits(int_part, 0);
    let m = read_digits(frac, whole);
    proof {
        let pf = pow10(frac@.len());
        assert(m < (whole + 1) * pf) by (nonlinear_arith)
            requires
                m == whole * pf + digits_value(frac@),
                digits_value(frac@) < pf,
        ;
        assert(int_part@ == s@.subrange(0, point as int));
    }
    Some(Decimal { mantissa: m as i64, exponent: -((s.len() - point - 1) as i32) })
}

/// Decodes a fraction with an implied leading "0.", of at most 18 digits.
pub fn implied_fraction(s: &[u8]) -> (r: Option<Decimal>)
    requires
        s@.len() <= 18,
    ensures
        r is Some <==> is_implied_fraction(s@),
        r matches Some(d) ==> d == implied_fraction_value(s@),
{
    if s.len() == 0 || !check_all_digits(s) {
        return None;
    }
    proof {
        lemma_pow10_18();
        lemma_pow10_monotonic(s@.len(), 18);
        lemma_digits_value_bound(s@);
    }
    let m = read_digits(s, 0);
    Some(Decimal { mantissa: m as i64, exponent: -(s.len() as i32) })
}

/// Decodes a signed fraction with no integer digit, of at most 18 digits.
pub fn signed_fraction(s: &[u8]) -> (r: Option<Decimal>)
    requires
        s@.len() <= 20,
    ensures
        r is Some <==> is_signed_fraction(s@),
        r matches Some(d) ==> d == signed_fraction_value(s@),
{
    if s.len() <= 2 {
        return None;
    }
    let sign = s[0];
    let digits = &s[2..s.len()];
    if !(sign == 32 || sign == 43 || sign == 45) || s[1] != 46 || !check_all_digits(digits) {
        return None;
    }
    proof {
        lemma_pow10_18();
        lemma_pow10_monotonic(digits@.len(), 18);
        lemma_digits_value_bound(digits@);
    }
    let m = read_digits(digits, 0) as i64;
    let mantissa = if sign == 45 {
        -m
    } else {
        m
    };
    Some(Decimal { mantissa, exponent: -(digits.len() as i32) })
}

/// Decodes the eight-column exponent notation `sMMMMMeE`.
pub fn exponent_form(s: &[u8]) -> (r: Option<Decimal>)
    ensures
        r is Some <==> is_exponent_form(s@),
        r matches Some(d) ==> d == exponent_form_value(s@),
{
    if s.len() != 8 {
        return None;
    }
    let sign = s[0];
    let digits = &s[1..6];
    let exp_sign = s[6];
    let exp_digit = s[7];
    if !(sign == 32 || sign == 43 || sign == 45) || !check_all_digits(digits) || !(exp_sign
        == 43 || exp_sign == 45) || exp_digit < 48 || exp_digit > 57 {
        return None;
    }
    proof {
        reveal_with_fuel(pow10, 6);
        lemma_digits_value_bound(digits@);
        assert(digits@ == s@.subrange(1, 6));
    }
    let m = read_digits(digits, 0) as i64;
    let mantissa = if sign == 45 {
        -m
    } else {
        m
    };
    let e = (exp_digit - 48) as i32;
    let exponent = if exp_sign == 45 {
        -e - 5
    } else {
        e - 5
    };
    Some(Decimal { mantissa, exponent })
}

proof fn lemma_ascii_utf8(s: Seq<u8>)
    requires
        forall|i: int| 0 <= i < s.len() ==> #[trigger] s[i] < 128,
    ensures
        valid_utf8(s),
        decode_utf8(s) == ascii_chars(s),
{
    let c = ascii_chars(s);
    assert(is_ascii_chars(c)) by {
        assert forall|i: int| 0 <= i < c.len() implies '\0' <= #[trigger] c[i] <= '\u{7f}' by {
            assert(s[i] < 128);
        }
    }
    is_ascii_chars_encode_utf8(c);
    assert forall|i: int| 0 <= i < s.len() implies #[trigger] encode_utf8(c)[i] == s[i] by {
        assert(c[i] as u8 == encode_utf8(c)[i]);
    }
    assert(encode_utf8(c) == s);
    encode_utf8_valid_utf8(c);
    encode_utf8_decode_utf8(c);
}

/// Relies on `std::str::from_utf8`: it accepts every valid UTF-8 byte string
/// and returns the text that those bytes encode.
#[verifier::external_body]
pub(crate) fn utf8_string(b: &[u8]) -> (r: String)
    requires
        valid_utf8(b@),
    ensures
        r@ == decode_utf8(b@),
{
    match std::str::from_utf8(b) {
        Ok(s) => s.to_string(),
        Err(_) => String::new(),
    }
}

/// Finds the columns of `s` that remain once its blanks at both ends are cut.
fn trim_range(s: &[u8]) -> (r: (usize, usize))
    ensures
        r.0 <= r.1 <= s@.len(),
        s@.subrange(r.0 as int, r.1 as int) == trim_blanks(s@),
{
    let mut lo: usize = 0;
    proof {
        assert(s@.subrange(0, s@.len() as int) == s@);
    }
    while lo < s.len() && s[lo] == 32
        invariant
            lo <= s@.len(),
            trim_start(s@) == trim_start(s@.subrange(lo as int, s@.len() as int)),
        decreases s@.len() - lo,
    {
        proof {
            let t = s@.subrange(lo as int, s@.len() as int);
            assert(t.drop_first() == s@.subrange(lo as int + 1, s@.len() as int));
        }
        lo = lo + 1;
    }
    proof {
        if lo == s@.len() {
            assert(s@.subrange(lo as int, s@.len() as int).len() == 0);
        }
    }
    let mut hi: usize = s.len();
    while hi > lo && s[hi - 1] == 32
        invariant
            lo <= hi <= s@.len(),
            trim_blanks(s@) == trim_end(s@.subrange(lo as int, hi as int)),
        decreases hi - lo,
    {
        proof {
            let t = s@.subrange(lo as int, hi as int);
            assert(t.drop_last() == s@.subrange(lo as int, hi as int - 1));
        }
        hi = hi - 1;
    }
    (lo, hi)
}

/// Decodes a text field of printable ASCII, without its blanks at both ends.
pub fn text_field(s: &[u8]) -> (r: Option<String>)
    ensures
        r is Some <==> is_printable(s@),
        r matches Some(t) ==> t@ == ascii_chars(trim_blanks(s@)),
{
    let mut i: usize = 0;
    while i < s.len()
        invariant
            i <= s@.len(),
            forall|k: int| 0 <= k < i ==> 32 <= #[trigger] s@[k] <= 126,
        decreases s@.len() - i,
    {
        if s[i] < 32 || s[i] > 126 {
            return None;
        }
        i = i + 1;
    }
    let (lo, hi) = trim_range(s);
    let t = &s[lo..hi];
    proof {
        lemma_ascii_utf8(t@);
    }
    Some(utf8_string(t))
}

} // verus!
