//! The two-line element set and its decoder. Every numeric field is kept
//! exactly as written, as a [`Decimal`] or an integer; nothing is rounded.

use vstd::prelude::*;
use vstd::string::*;
use vstd::utf8::*;
use crate::checksum::{bytes_checksum_valid, checksum_valid, is_digit};
use crate::field::{
    ascii_chars, digit_value, digits_value, exponent_form, exponent_form_value, fixed_point,
    fixed_point_value, implied_fraction, implied_fraction_value, is_exponent_form, is_fixed_point,
    is_implied_fraction, is_padded_number, is_printable, is_signed_fraction, lemma_digits_value_bound,
    padded_number, pow10, signed_fraction, signed_fraction_value, text_field, trim_blanks,
    utf8_string, Decimal,
};

verus! {

/// A decoded two-line element set, in the units of the format: degrees for
/// angles, revolutions per day for the mean motion, days for the epoch.
pub struct TLE {
    /// Name from the optional title line; empty when there is none.
    pub common_name: String,
    pub satellite_catalog_number: u32,
    pub classification: char,
    pub international_designator: String,
    /// Last two digits of the epoch year.
    pub epoch_year: u32,
    /// Day of the year with its fraction.
    pub epoch_day: Decimal,
    /// First derivative of the mean motion, in revolutions per day squared
    /// (twice the value that the line writes).
    pub first_derivative_of_mean_motion: Decimal,
    /// Second derivative of the mean motion, in revolutions per day cubed
    /// (six times the value that the line writes).
    pub second_derivative_of_mean_motion: Decimal,
    /// Drag term, in inverse Earth radii.
    pub bstar: Decimal,
    pub ephemeris_type: u32,
    pub element_set_number: u32,
    pub inclination: Decimal,
    pub right_ascension_of_ascending_node: Decimal,
    pub eccentricity: Decimal,
    pub argument_of_perigee: Decimal,
    pub mean_anomaly: Decimal,
    pub mean_motion: Decimal,
    pub revolution_number_at_epoch: u32,
}

/// The field of an element line that failed to decode.
#[derive(Clone, Copy, Debug, PartialEq, Eq, Structural)]
pub enum TleField {
    SatelliteNumber,
    Classification,
    InternationalDesignator,
    EpochYear,
    EpochDay,
    FirstDerivative,
    SecondDerivative,
    Bstar,
    EphemerisType,
    ElementSetNumber,
    Inclination,
    RightAscension,
    Eccentricity,
    ArgumentOfPerigee,
    MeanAnomaly,
    MeanMotion,
    RevolutionNumber,
}

/// Why a text is not a well-formed element set.
#[derive(Clone, Copy, Debug, PartialEq, Eq, Structural)]
pub enum TleError {
    /// The text holds neither two nor three lines.
    LineCount,
    /// The title line is empty or longer than 24 bytes.
    NameLength,
    /// An element line is not 69 columns long.
    LineLength,
    /// A field does not hold what its columns must hold.
    Field(TleField),
    /// An element line's last column is not its checksum.
    Checksum,
}

/// The mathematical content of a [`TLE`].
pub struct TleView {
    pub common_name: Seq<char>,
    pub satellite_catalog_number: int,
    pub classification: char,
    pub international_designator: Seq<char>,
    pub epoch_year: int,
    pub epoch_day: Decimal,
    pub first_derivative_of_mean_motion: Decimal,
    pub second_derivative_of_mean_motion: Decimal,
    pub bstar: Decimal,
    pub ephemeris_type: int,
    pub element_set_number: int,
    pub inclination: Decimal,
    pub right_ascension_of_ascending_node: Decimal,
    pub eccentricity: Decimal,
    pub argument_of_perigee: Decimal,
    pub mean_anomaly: Decimal,
    pub mean_motion: Decimal,
    pub revolution_number_at_epoch: int,
}

impl View for TLE {
    type V = TleView;

    open spec fn view(&self) -> TleView {
        TleView {
            common_name: self.common_name@,
            satellite_catalog_number: self.satellite_catalog_number as int,
            classification: self.classification,
            international_designator: self.international_designator@,
            epoch_year: self.epoch_year as int,
            epoch_day: self.epoch_day,
            first_derivative_of_mean_motion: self.first_derivative_of_mean_motion,
            second_derivative_of_mean_motion: self.second_derivative_of_mean_motion,
            bstar: self.bstar,
            ephemeris_type: self.ephemeris_type as int,
            element_set_number: self.element_set_number as int,
            inclination: self.inclination,
            right_ascension_of_ascending_node: self.right_ascension_of_ascending_node,
            eccentricity: self.eccentricity,
            argument_of_perigee: self.argument_of_perigee,
            mean_anomaly: self.mean_anomaly,
            mean_motion: self.mean_motion,
            revolution_number_at_epoch: self.revolution_number_at_epoch as int,
        }
    }
}

/// The classification column holds one printable ASCII character.
pub open spec fn is_classification(b: u8) -> bool {
    32 <= b <= 126
}

/// Columns `lo` to `hi` (zero-based, `hi` excluded) of a line.
pub open spec fn cols(l: Seq<u8>, lo: int, hi: int) -> Seq<u8> {
    l.subrange(lo, hi)
}

/// The first field, in column order of line 1 then line 2, whose columns do
/// not hold what the format requires; `None` when all of them do.
pub open spec fn first_bad_field(l1: Seq<u8>, l2: Seq<u8>) -> Option<TleField> {
    if !is_padded_number(cols(l1, 2, 7)) {
        Some(TleField::SatelliteNumber)
    } else if !is_classification(l1[7]) {
        Some(TleField::Classification)
    } else if !is_printable(cols(l1, 9, 17)) {
        Some(TleField::InternationalDesignator)
    } else if !is_padded_number(cols(l1, 18, 20)) {
        Some(TleField::EpochYear)
    } else if !is_fixed_point(cols(l1, 20, 32), 3) {
        Some(TleField::EpochDay)
    } else if !is_signed_fraction(cols(l1, 33, 43)) {
        Some(TleField::FirstDerivative)
    } else if !is_exponent_form(cols(l1, 44, 52)) {
        Some(TleField::SecondDerivative)
    } else if !is_exponent_form(cols(l1, 53, 61)) {
        Some(TleField::Bstar)
    } else if !is_digit(l1[62]) {
        Some(TleField::EphemerisType)
    } else if !is_padded_number(cols(l1, 64, 68)) {
        Some(TleField::ElementSetNumber)
    } else if !is_fixed_point(cols(l2, 8, 16), 3) {
        Some(TleField::Inclination)
    } else if !is_fixed_point(cols(l2, 17, 25), 3) {
        Some(TleField::RightAscension)
    } else if !is_implied_fraction(cols(l2, 26, 33)) {
        Some(TleField::Eccentricity)
    } else if !is_fixed_point(cols(l2, 34, 42), 3) {
        Some(TleField::ArgumentOfPerigee)
    } else if !is_fixed_point(cols(l2, 43, 51), 3) {
        Some(TleField::MeanAnomaly)
    } else if !is_fixed_point(cols(l2, 52, 63), 2) {
        Some(TleField::MeanMotion)
    } else if !is_padded_number(cols(l2, 63, 68)) {
        Some(TleField::RevolutionNumber)
    } else {
        None
    }
}

pub open spec fn scaled(d: Decimal, factor: int) -> Decimal {
    Decimal { mantissa: (factor * d.mantissa) as i64, exponent: d.exponent }
}

/// The element set that two well-formed lines and a title write.
pub open spec fn decoded(l1: Seq<u8>, l2: Seq<u8>, name: Seq<char>) -> TleView {
    TleView {
        common_name: name,
        satellite_catalog_number: digits_value(cols(l1, 2, 7)) as int,
        classification: l1[7] as char,
        international_designator: ascii_chars(trim_blanks(cols(l1, 9, 17))),
        epoch_year: digits_value(cols(l1, 18, 20)) as int,
        epoch_day: fixed_point_value(cols(l1, 20, 32), 3),
        first_derivative_of_mean_motion: scaled(signed_fraction_value(cols(l1, 33, 43)), 2),
        second_derivative_of_mean_motion: scaled(exponent_form_value(cols(l1, 44, 52)), 6),
        bstar: exponent_form_value(cols(l1, 53, 61)),
        ephemeris_type: digit_value(l1[62]) as int,
        element_set_number: digits_value(cols(l1, 64, 68)) as int,
        inclination: fixed_point_value(cols(l2, 8, 16), 3),
        right_ascension_of_ascending_node: fixed_point_value(cols(l2, 17, 25), 3),
        eccentricity: implied_fraction_value(cols(l2, 26, 33)),
        argument_of_perigee: fixed_point_value(cols(l2, 34, 42), 3),
        mean_anomaly: fixed_point_value(cols(l2, 43, 51), 3),
        mean_motion: fixed_point_value(cols(l2, 52, 63), 2),
        revolution_number_at_epoch: digits_value(cols(l2, 63, 68)) as int,
    }
}

/// What decoding the fields of two element lines and an optional title line
/// gives, before the checksums are looked at.
pub open spec fn fields_spec(l1: Seq<u8>, l2: Seq<u8>, name: Option<Seq<u8>>) -> Result<
    TleView,
    TleError,
> {
    if name matches Some(n) && !(1 <= n.len() <= 24) {
        Err(TleError::NameLength)
    } else if l1.len() != 69 || l2.len() != 69 {
        Err(TleError::LineLength)
    } else {
        match first_bad_field(l1, l2) {
            Some(f) => Err(TleError::Field(f)),
            None => Ok(
                decoded(
                    l1,
                    l2,
                    match name {
                        Some(n) => decode_utf8(n),
                        None => Seq::empty(),
                    },
                ),
            ),
        }
    }
}

/// What decoding two element lines and an optional title line gives: the
/// layout and field errors first, then `Checksum` where either line's last
/// column is not its checksum.
pub open spec fn tle_spec(l1: Seq<u8>, l2: Seq<u8>, name: Option<Seq<u8>>) -> Result<
    TleView,
    TleError,
> {
    match fields_spec(l1, l2, name) {
        Ok(t) => if checksum_valid(l1) && checksum_valid(l2) {
            Ok(t)
        } else {
            Err(TleError::Checksum)
        },
        Err(e) => Err(e),
    }
}

pub open spec fn result_view(r: Result<TLE, TleError>) -> Result<TleView, TleError> {
    match r {
        Ok(t) => Ok(t@),
        Err(e) => Err(e),
    }
}

pub open spec fn name_bytes(line0: Option<&str>) -> Option<Seq<u8>> {
    match line0 {
        Some(n) => Some(n.spec_bytes()),
        None => None,
    }
}

fn decode(l1: &[u8], l2: &[u8], name: Option<&[u8]>) -> (r: Result<TLE, TleError>)
    requires
        name matches Some(n) ==> valid_utf8(n@),
    ensures
        result_view(r) == tle_spec(
            l1@,
            l2@,
            match name {
                Some(n) => Some(n@),
                None => None,
            },
        ),
{
    let common_name = match name {
        Some(n) => {
            if n.len() < 1 || n.len() > 24 {
                return Err(TleError::NameLength);
            }
            utf8_string(n)
        },
        None => String::new(),
    };
    if l1.len() != 69 || l2.len() != 69 {
        return Err(TleError::LineLength);
    }
    let sat = match padded_number(&l1[2..7]) {
        Some(v) => v,
        None => return Err(TleError::Field(TleField::SatelliteNumber)),
    };
    let class = l1[7];
    if class < 32 || class > 126 {
        return Err(TleError::Field(TleField::Classification));
    }
    let designator = match text_field(&l1[9..17]) {
        Some(t) => t,
        None => return Err(TleError::Field(TleField::InternationalDesignator)),
    };
    let year = match padded_number(&l1[18..20]) {
        Some(v) => v,
        None => return Err(TleError::Field(TleField::EpochYear)),
    };
    let day = match fixed_point(&l1[20..32], 3) {
        Some(d) => d,
        None => return Err(TleError::Field(TleField::EpochDay)),
    };
    let ndot = match signed_fraction(&l1[33..43]) {
        Some(d) => d,
        None => return Err(TleError::Field(TleField::FirstDerivative)),
    };
    let nddot = match exponent_form(&l1[44..52]) {
        Some(d) => d,
        None => return Err(TleError::Field(TleField::SecondDerivative)),
    };
    let bstar = match exponent_form(&l1[53..61]) {
        Some(d) => d,
        None => return Err(TleError::Field(TleField::Bstar)),
    };
    let ephemeris = l1[62];
    if ephemeris < 48 || ephemeris > 57 {
        return Err(TleError::Field(TleField::EphemerisType));
    }
    let set_number = match padded_number(&l1[64..68]) {
        Some(v) => v,
        None => return Err(TleError::Field(TleField::ElementSetNumber)),
    };
    let inclination = match fixed_point(&l2[8..16], 3) {
        Some(d) => d,
        None => return Err(TleError::Field(TleField::Inclination)),
    };
    let raan = match fixed_point(&l2[17..25], 3) {
        Some(d) => d,
        None => return Err(TleError::Field(TleField::RightAscension)),
    };
    let eccentricity = match implied_fraction(&l2[26..33]) {
        Some(d) => d,
        None => return Err(TleError::Field(TleField::Eccentricity)),
    };
    let argp = match fixed_point(&l2[34..42], 3) {
        Some(d) => d,
        None => return Err(TleError::Field(TleField::ArgumentOfPerigee)),
    };
    let anomaly = match fixed_point(&l2[43..51], 3) {
        Some(d) => d,
        None => return Err(TleError::Field(TleField::MeanAnomaly)),
    };
    let motion = match fixed_point(&l2[52..63], 2) {
        Some(d) => d,
        None => return Err(TleError::Field(TleField::MeanMotion)),
    };
    let revolution = match padded_number(&l2[63..68]) {
        Some(v) => v,
        None => return Err(TleError::Field(TleField::RevolutionNumber)),
    };
    if !bytes_checksum_valid(l1) || !bytes_checksum_valid(l2) {
        return Err(TleError::Checksum);
    }
    proof {
        reveal_with_fuel(pow10, 11);
        lemma_digits_value_bound(l1@.subrange(2, 7));
        lemma_digits_value_bound(l1@.subrange(18, 20));
        lemma_digits_value_bound(l1@.subrange(64, 68));
        lemma_digits_value_bound(l2@.subrange(63, 68));
        lemma_digits_value_bound(l1@.subrange(35, 43));
        lemma_digits_value_bound(l1@.subrange(45, 50));
        assert(l1@.subrange(33, 43).subrange(2, 10) == l1@.subrange(35, 43));
        assert(l1@.subrange(44, 52).subrange(1, 6) == l1@.subrange(45, 50));
    }
    Ok(
        TLE {
            common_name,
            satellite_catalog_number: sat as u32,
            classification: class as char,
            international_designator: designator,
            epoch_year: year as u32,
            epoch_day: day,
            first_derivative_of_mean_motion: Decimal {
                mantissa: 2 * ndot.mantissa,
                exponent: ndot.exponent,
            },
            second_derivative_of_mean_motion: Decimal {
                mantissa: 6 * nddot.mantissa,
                exponent: nddot.exponent,
            },
            bstar,
            ephemeris_type: (ephemeris - 48) as u32,
            element_set_number: set_number as u32,
            inclination,
            right_ascension_of_ascending_node: raan,
            eccentricity,
            argument_of_perigee: argp,
            mean_anomaly: anomaly,
            mean_motion: motion,
            revolution_number_at_epoch: revolution as u32,
        },
    )
}

/// Decodes an element set from its two lines and an optional title line,
/// rejecting it where either line's checksum does not hold.
pub fn from_lines(line1: &str, line2: &str, line0: Option<&str>) -> (r: Result<TLE, TleError>)
    ensures
        result_view(r) == tle_spec(line1.spec_bytes(), line2.spec_bytes(), name_bytes(line0)),
        r matches Ok(t) ==> t.common_name@ == match line0 {
            Some(n) => n@,
            None => Seq::empty(),
        },
{
    let name = match line0 {
        Some(n) => {
            proof {
                encode_utf8_valid_utf8(n@);
                encode_utf8_decode_utf8(n@);
            }
            Some(n.as_bytes())
        },
        None => None,
    };
    decode(line1.as_bytes(), line2.as_bytes(), name)
}

/// Index of the first line feed at or after `from`; the length when none.
pub open spec fn find_newline(s: Seq<u8>, from: int) -> int
    decreases s.len() - from,
{
    if from >= s.len() {
        s.len() as int
    } else if s[from] == 10 {
        from
    } else {
        find_newline(s, from + 1)
    }
}

/// What decoding a text of two element lines, or of a title line and two
/// element lines, separated by line feeds, gives.
pub open spec fn tle_string_spec(s: Seq<u8>) -> Result<TleView, TleError> {
    let p = find_newline(s, 0);
    let q = find_newline(s, p + 1);
    let t = find_newline(s, q + 1);
    if p >= s.len() {
        Err(TleError::LineCount)
    } else if q >= s.len() {
        tle_spec(s.subrange(0, p), s.subrange(p + 1, s.len() as int), None)
    } else if t >= s.len() {
        tle_spec(
            s.subrange(p + 1, q),
            s.subrange(q + 1, s.len() as int),
            Some(s.subrange(0, p)),
        )
    } else {
        Err(TleError::LineCount)
    }
}

pub open spec fn has_no_newline(s: Seq<u8>) -> bool {
    forall|k: int| 0 <= k < s.len() ==> #[trigger] s[k] != 10
}

proof fn lemma_find_newline(s: Seq<u8>, from: int, j: int)
    requires
        0 <= from <= j <= s.len(),
        forall|k: int| from <= k < j ==> #[trigger] s[k] != 10,
        j == s.len() || s[j] == 10,
    ensures
        find_newline(s, from) == j,
    decreases j - from,
{
    if from < j {
        lemma_find_newline(s, from + 1, j);
    }
}

/// Two element lines joined by a line feed decode as the two lines given apart.
pub proof fn lemma_two_joined_lines_decode_alike(l1: Seq<u8>, l2: Seq<u8>)
    requires
        has_no_newline(l1),
        has_no_newline(l2),
    ensures
        tle_string_spec(l1 + seq![10u8] + l2) == tle_spec(l1, l2, None),
{
    let s = l1 + seq![10u8] + l2;
    let p = l1.len() as int;
    assert(forall|k: int| 0 <= k < p ==> s[k] == l1[k]);
    assert(forall|k: int| p + 1 <= k < s.len() ==> s[k] == l2[k - p - 1]);
    lemma_find_newline(s, 0, p);
    lemma_find_newline(s, p + 1, s.len() as int);
    assert(s.subrange(0, p) == l1);
    assert(s.subrange(p + 1, s.len() as int) == l2);
}

/// A title line and two element lines joined by line feeds decode as the
/// three lines given apart.
pub proof fn lemma_joined_lines_decode_alike(l0: Seq<u8>, l1: Seq<u8>, l2: Seq<u8>)
    requires
        has_no_newline(l0),
        has_no_newline(l1),
        has_no_newline(l2),
    ensures
        tle_string_spec(l0 + seq![10u8] + l1 + seq![10u8] + l2) == tle_spec(l1, l2, Some(l0)),
{
    let s = l0 + seq![10u8] + l1 + seq![10u8] + l2;
    let p = l0.len() as int;
    let q = p + 1 + l1.len();
    assert(forall|k: int| 0 <= k < p ==> s[k] == l0[k]);
    assert(forall|k: int| p + 1 <= k < q ==> s[k] == l1[k - p - 1]);
    assert(forall|k: int| q + 1 <= k < s.len() ==> s[k] == l2[k - q - 1]);
    lemma_find_newline(s, 0, p);
    lemma_find_newline(s, p + 1, q);
    lemma_find_newline(s, q + 1, s.len() as int);
    assert(s.subrange(0, p) == l0);
    assert(s.subrange(p + 1, q) == l1);
    assert(s.subrange(q + 1, s.len() as int) == l2);
}

fn next_newline(b: &[u8], from: usize) -> (r: usize)
    requires
        from <= b@.len(),
    ensures
        r == find_newline(b@, from as int),
        from <= r <= b@.len(),
        r < b@.len() ==> b@[r as int] == 10,
{
    let mut i = from;
    while i < b.len() && b[i] != 10
        invariant
            from <= i <= b@.len(),
            find_newline(b@, from as int) == find_newline(b@, i as int),
        decreases b@.len() - i,
    {
        i = i + 1;
    }
    i
}

/// Decodes an element set from text: two element lines, or a title line and
/// two element lines, separated by line feeds.
pub fn from_string(tle_string: &str) -> (r: Result<TLE, TleError>)
    ensures
        result_view(r) == tle_string_spec(tle_string.spec_bytes()),
{
    let b = tle_string.as_bytes();
    let p = next_newline(b, 0);
    if p == b.len() {
        return Err(TleError::LineCount);
    }
    let q = next_newline(b, p + 1);
    if q == b.len() {
        return decode(&b[0..p], &b[p + 1..b.len()], None);
    }
    let t = next_newline(b, q + 1);
    if t < b.len() {
        return Err(TleError::LineCount);
    }
    proof {
        encode_utf8_valid_utf8(tle_string@);
        is_char_boundary_iff_is_leading_byte(b@, p as int);
        valid_utf8_split(b@, p as int);
    }
    decode(&b[p + 1..q], &b[q + 1..b.len()], Some(&b[0..p]))
}

} // verus!
