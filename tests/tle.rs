use sgp4::checksum::{checksum_digit, tle_checksum};
use sgp4::elements::{compare, validate_elements, InvalidElements};
use sgp4::epoch::{epoch_days_since_1900, epoch_full_year};
use sgp4::field::Decimal;
use sgp4::tle::{from_lines, from_string, TleError, TleField, TLE};

const NAME: &str = "ISS (ZARYA)";
const LINE1: &str = "1 25544U 98067A   08264.51782528 -.00002182 -00100-2 -11606-4 0  2921";
const LINE1_BAD_SUM: &str = "1 25544U 98067A   08264.51782528 -.00002182 -00100-2 -11606-4 0  2927";
const LINE2: &str = "2 25544  51.6416 247.4627 0006703 130.5360 325.0288 15.72125391563537";

fn to_f64(d: Decimal) -> f64 {
    if d.exponent >= 0 {
        d.mantissa as f64 * 10f64.powi(d.exponent)
    } else {
        d.mantissa as f64 / 10f64.powi(-d.exponent)
    }
}

fn dec(mantissa: i64, exponent: i32) -> Decimal {
    Decimal { mantissa, exponent }
}

fn with_column(line: &str, col: usize, c: char) -> String {
    let mut b: Vec<char> = line.chars().collect();
    b[col] = c;
    b.into_iter().collect()
}

fn with_text(line: &str, col: usize, text: &str) -> String {
    format!("{}{}{}", &line[..col], text, &line[col + text.len()..])
}

fn resummed(line: &str) -> String {
    let digit = checksum_digit(line).unwrap();
    with_column(line, 68, (b'0' + digit) as char)
}

fn iss() -> TLE {
    from_lines(LINE1, LINE2, Some(NAME)).unwrap()
}

#[test]
fn test_tle_parsing_from_string() {
    let tle_string = "ISS (ZARYA)\n1 25544U 98067A   08264.51782528 -.00002182 -00100-2 -11606-4 0  2921\n2 25544  51.6416 247.4627 0006703 130.5360 325.0288 15.72125391563537";

    let tle = from_string(tle_string).unwrap();

    assert_eq!(tle.common_name, "ISS (ZARYA)");
    assert_eq!(tle.satellite_catalog_number, 25544);
    assert_eq!(tle.classification, 'U');
    assert_eq!(tle.international_designator, "98067A");
    assert_eq!(tle.epoch_year, 8);
    assert_eq!(to_f64(tle.epoch_day), 264.51782528);
    assert_eq!(to_f64(tle.first_derivative_of_mean_motion), -0.00004364);
    // The value is kept exactly (-600e-7); the float literal carries rounding noise.
    assert!((to_f64(tle.second_derivative_of_mean_motion) - -0.00006000000000000001).abs() < 1e-18);
    assert_eq!(to_f64(tle.bstar), -0.000011606);
    assert_eq!(tle.ephemeris_type, 0);
    assert_eq!(tle.element_set_number, 292);
    assert_eq!(to_f64(tle.inclination), 51.6416);
    assert_eq!(to_f64(tle.right_ascension_of_ascending_node), 247.4627);
    assert_eq!(to_f64(tle.eccentricity), 0.0006703);
    assert_eq!(to_f64(tle.argument_of_perigee), 130.536);
    assert_eq!(to_f64(tle.mean_anomaly), 325.0288);
    assert_eq!(to_f64(tle.mean_motion), 15.72125391);
    assert_eq!(tle.revolution_number_at_epoch, 56353);
}

#[test]
fn decimal_fields_are_exact() {
    let t = iss();
    assert_eq!(t.epoch_day, dec(26451782528, -8));
    assert_eq!(t.first_derivative_of_mean_motion, dec(-4364, -8));
    assert_eq!(t.second_derivative_of_mean_motion, dec(-600, -7));
    assert_eq!(t.bstar, dec(-11606, -9));
    assert_eq!(t.inclination, dec(516416, -4));
    assert_eq!(t.right_ascension_of_ascending_node, dec(2474627, -4));
    assert_eq!(t.eccentricity, dec(6703, -7));
    assert_eq!(t.argument_of_perigee, dec(1305360, -4));
    assert_eq!(t.mean_anomaly, dec(3250288, -4));
    assert_eq!(t.mean_motion, dec(1572125391, -8));
}

#[test]
fn two_line_text_has_no_name() {
    let text = format!("{}\n{}", LINE1, LINE2);
    let t = from_string(&text).unwrap();
    assert_eq!(t.common_name, "");
    assert_eq!(t.satellite_catalog_number, 25544);
}

#[test]
fn title_line_keeps_non_ascii_text() {
    let text = format!("{}\n{}\n{}", "SATÉLITE Ω", LINE1, LINE2);
    let t = from_string(&text).unwrap();
    assert_eq!(t.common_name, "SATÉLITE Ω");
}

#[test]
fn from_lines_matches_from_string() {
    let a = from_lines(LINE1, LINE2, Some(NAME)).unwrap();
    let b = from_string(&format!("{}\n{}\n{}", NAME, LINE1, LINE2)).unwrap();
    assert_eq!(a.common_name, b.common_name);
    assert_eq!(a.international_designator, b.international_designator);
    assert_eq!(a.mean_motion, b.mean_motion);
    assert_eq!(a.bstar, b.bstar);
}

#[test]
fn wrong_line_count_is_rejected() {
    assert_eq!(from_string(LINE1).err(), Some(TleError::LineCount));
    let four = format!("{}\n{}\n{}\n{}", NAME, LINE1, LINE2, LINE2);
    assert_eq!(from_string(&four).err(), Some(TleError::LineCount));
}

#[test]
fn name_length_is_checked() {
    let long = "ABCDEFGHIJKLMNOPQRSTUVWXY";
    assert_eq!(from_lines(LINE1, LINE2, Some(long)).err(), Some(TleError::NameLength));
    assert_eq!(from_lines(LINE1, LINE2, Some("")).err(), Some(TleError::NameLength));
    assert!(from_lines(LINE1, LINE2, Some(&long[..24])).is_ok());
}

#[test]
fn line_length_is_checked() {
    assert_eq!(from_lines(&LINE1[..68], LINE2, None).err(), Some(TleError::LineLength));
    let long = format!("{} ", LINE2);
    assert_eq!(from_lines(LINE1, &long, None).err(), Some(TleError::LineLength));
}

#[test]
fn bad_fields_are_named() {
    let cases = [
        (with_column(LINE1, 4, 'X'), LINE2.to_string(), TleField::SatelliteNumber),
        (with_column(LINE1, 7, '\t'), LINE2.to_string(), TleField::Classification),
        (with_column(LINE1, 19, ' '), LINE2.to_string(), TleField::EpochYear),
        (with_column(LINE1, 23, '5'), LINE2.to_string(), TleField::EpochDay),
        (with_column(LINE1, 34, '0'), LINE2.to_string(), TleField::FirstDerivative),
        (with_column(LINE1, 50, '*'), LINE2.to_string(), TleField::SecondDerivative),
        (with_column(LINE1, 59, ' '), LINE2.to_string(), TleField::Bstar),
        (with_column(LINE1, 62, ' '), LINE2.to_string(), TleField::EphemerisType),
        (with_column(LINE1, 67, ' '), LINE2.to_string(), TleField::ElementSetNumber),
        (LINE1.to_string(), with_column(LINE2, 11, ','), TleField::Inclination),
        (LINE1.to_string(), with_column(LINE2, 24, 'x'), TleField::RightAscension),
        (LINE1.to_string(), with_column(LINE2, 27, ' '), TleField::Eccentricity),
        (LINE1.to_string(), with_column(LINE2, 41, ' '), TleField::ArgumentOfPerigee),
        (LINE1.to_string(), with_column(LINE2, 43, '-'), TleField::MeanAnomaly),
        (LINE1.to_string(), with_column(LINE2, 55, '.'), TleField::MeanMotion),
        (LINE1.to_string(), with_column(LINE2, 67, ' '), TleField::RevolutionNumber),
    ];
    for (l1, l2, field) in cases.iter() {
        assert_eq!(from_lines(l1, l2, None).err(), Some(TleError::Field(*field)));
    }
}

#[test]
fn designator_must_be_printable() {
    let l1 = with_column(LINE1, 12, '\t');
    assert_eq!(
        from_lines(&l1, LINE2, None).err(),
        Some(TleError::Field(TleField::InternationalDesignator))
    );
}

#[test]
fn first_bad_field_in_column_order_is_reported() {
    let l1 = with_column(&with_column(LINE1, 62, 'x'), 4, 'X');
    assert_eq!(
        from_lines(&l1, LINE2, None).err(),
        Some(TleError::Field(TleField::SatelliteNumber))
    );
}

#[test]
fn padded_and_positive_exponent_fields() {
    let l1 = with_text(LINE1, 2, "  544");
    let l1 = with_text(&l1, 33, " ");
    let l1 = with_text(&l1, 44, " 12345+1");
    let l1 = with_text(&l1, 53, " 11606+4");
    let l1 = resummed(&with_text(&l1, 64, "   7"));
    assert_eq!(l1.len(), 69);
    let t = from_lines(&l1, LINE2, None).unwrap();
    assert_eq!(t.satellite_catalog_number, 544);
    assert_eq!(t.first_derivative_of_mean_motion, dec(4364, -8));
    assert_eq!(t.second_derivative_of_mean_motion, dec(74070, -4));
    assert_eq!(t.bstar, dec(11606, -1));
    assert_eq!(t.element_set_number, 7);
}

#[test]
fn checksum_of_reference_line_is_one() {
    assert_eq!(checksum_digit(LINE1), Some(1));
    assert_eq!(checksum_digit(LINE1_BAD_SUM), Some(1));
    assert!(tle_checksum(LINE1));
}

#[test]
fn altered_checksum_digit_fails_validation() {
    assert!(!tle_checksum(LINE1_BAD_SUM));
    assert!(!tle_checksum(&with_column(LINE1, 68, '2')));
    assert!(tle_checksum(LINE2));
}

#[test]
fn checksum_counts_digits_and_minus_signs() {
    assert_eq!(checksum_digit(&"9".repeat(68)), Some((9 * 68 % 10) as u8));
    assert_eq!(checksum_digit(&"-".repeat(68)), Some(8));
    assert_eq!(checksum_digit(&"A+. ".repeat(17)), Some(0));
    assert_eq!(checksum_digit(&"1".repeat(67)), None);
    assert!(!tle_checksum(&"0".repeat(68)));
}

#[test]
fn wrong_checksum_aborts_the_decode() {
    assert_eq!(from_lines(LINE1_BAD_SUM, LINE2, None).err(), Some(TleError::Checksum));
    let line2 = with_column(LINE2, 68, '0');
    assert_eq!(from_lines(LINE1, &line2, Some(NAME)).err(), Some(TleError::Checksum));
    let text = format!("{}\n{}\n{}", NAME, LINE1_BAD_SUM, LINE2);
    assert_eq!(from_string(&text).err(), Some(TleError::Checksum));
    assert_eq!(from_lines(&LINE1_BAD_SUM[..60], LINE2, None).err(), Some(TleError::LineLength));
}

#[test]
fn any_printable_classification_is_kept() {
    let t = from_lines(&resummed(&with_column(LINE1, 7, ' ')), LINE2, None).unwrap();
    assert_eq!(t.classification, ' ');
    let t = from_lines(&resummed(&with_column(LINE1, 7, 'c')), LINE2, None).unwrap();
    assert_eq!(t.classification, 'c');
}

#[test]
fn test_() {
    let t = from_string(&format!("{}\n{}\n{}", NAME, LINE1, LINE2)).unwrap();
    assert!(validate_elements(&t).is_ok());
}

#[test]
fn reference_elements_are_in_range() {
    assert_eq!(validate_elements(&iss()), Ok(()));
}

#[test]
fn out_of_range_elements_are_rejected() {
    let mut t = iss();
    t.eccentricity = dec(10000000, -7);
    assert_eq!(validate_elements(&t), Err(InvalidElements::Eccentricity));
    t.eccentricity = dec(-1, -7);
    assert_eq!(validate_elements(&t), Err(InvalidElements::Eccentricity));
    let mut t = iss();
    t.mean_motion = dec(0, -8);
    assert_eq!(validate_elements(&t), Err(InvalidElements::MeanMotion));
    let mut t = iss();
    t.inclination = dec(1800001, -4);
    assert_eq!(validate_elements(&t), Err(InvalidElements::Inclination));
    t.inclination = dec(1800000, -4);
    assert_eq!(validate_elements(&t), Ok(()));
}

#[test]
fn decimals_compare_exactly() {
    assert_eq!(compare(dec(1800000, -4), 180), 0);
    assert_eq!(compare(dec(1799999, -4), 180), -1);
    assert_eq!(compare(dec(18, 1), 180), 0);
    assert_eq!(compare(dec(2, 2), 180), 1);
    assert_eq!(compare(dec(1, 30), 4_000_000_000), 1);
    assert_eq!(compare(dec(i64::MAX, -40), 1), -1);
    assert_eq!(compare(dec(-5, 3), 0), -1);
    assert_eq!(compare(dec(0, -3), 0), 0);
}

#[test]
fn epoch_years_wrap_at_1957() {
    assert_eq!(epoch_full_year(8), 2008);
    assert_eq!(epoch_full_year(56), 2056);
    assert_eq!(epoch_full_year(57), 1957);
    assert_eq!(epoch_full_year(99), 1999);
}

#[test]
fn epoch_day_count_matches_julian_dates() {
    // 2008-09-20 12:25:40 UTC is Julian date 2454730.01782528.
    let d = epoch_days_since_1900(&iss()).unwrap();
    assert_eq!(d, dec(3971001782528, -8));
    // 2000-01-01 00:00 is Julian date 2451544.5.
    let mut t = iss();
    t.epoch_year = 0;
    t.epoch_day = dec(10, -1);
    assert_eq!(epoch_days_since_1900(&t), Some(dec(365245, -1)));
    // 1957-01-01 00:00 is Julian date 2435839.5.
    t.epoch_year = 57;
    assert_eq!(epoch_days_since_1900(&t), Some(dec(208195, -1)));
}

#[test]
fn epoch_day_count_needs_a_fraction_and_two_digits() {
    let mut t = iss();
    t.epoch_day = dec(264, 0);
    assert_eq!(epoch_days_since_1900(&t), None);
    let mut t = iss();
    t.epoch_year = 100;
    assert_eq!(epoch_days_since_1900(&t), None);
    let mut t = iss();
    t.epoch_day = dec(i64::MAX, -1);
    assert_eq!(epoch_days_since_1900(&t), None);
}
