use sgp4::fields::Decimal;
use sgp4::sgp4::{Classification, MeanElements, PropagationError, TLE, TypeRun};

const ISS_1: &str = "1 25544U 98067A   08264.51782528 -.00002182  00000-0 -11606-4 0  2927";
const ISS_2: &str = "2 25544  51.6416 247.4627 0006703 130.5360 325.0288 15.72125391563537";

fn dec(mantissa: i64, exponent: i64) -> Decimal {
    Decimal { mantissa, exponent }
}

fn parse(l1: &str, l2: &str) -> Result<MeanElements, PropagationError> {
    TLE::new(l1.to_string(), l2.to_string()).parse()
}

fn with_column(line: &str, lo: usize, text: &str) -> String {
    let mut s = line.to_string();
    s.replace_range(lo..lo + text.len(), text);
    s
}

#[test]
fn reads_every_field_of_a_valid_pair() {
    let e = parse(ISS_1, ISS_2).ok().unwrap();
    assert_eq!(e.satnum, 25544);
    assert_eq!(e.classification, Some(Classification::Unclassified));
    assert_eq!(e.intldesg, b"98067A".to_vec());
    assert_eq!(e.epochyr, 8);
    assert_eq!(e.year, 2008);
    assert_eq!(e.epochdays, dec(26451782528, -8));
    assert_eq!(e.ndot, dec(-2182, -8));
    assert_eq!(e.nddot, dec(0, -5));
    assert_eq!(e.bstar, dec(-11606, -9));
    assert_eq!(e.elnum, 292);
    assert_eq!(e.inclo, dec(516416, -4));
    assert_eq!(e.nodeo, dec(2474627, -4));
    assert_eq!(e.ecco, dec(6703, -7));
    assert_eq!(e.argpo, dec(1305360, -4));
    assert_eq!(e.mo, dec(3250288, -4));
    assert_eq!(e.no_kozai, dec(1572125391, -8));
    assert_eq!(e.revnum, 56353);
}

#[test]
fn epoch_becomes_a_split_julian_date() {
    let e = parse(ISS_1, ISS_2).ok().unwrap();
    // 2008, day 264 is 20 September 2008, whose 0h is JD 2454729.5.
    assert_eq!(e.jdsatepoch, dec(24547295, -1));
    assert_eq!(e.jdsatepochf, dec(51782528, -8));
}

#[test]
fn inclination_field_reads_exactly() {
    let l2 = with_column(ISS_2, 8, " 51.6400");
    let e = parse(ISS_1, &l2).ok().unwrap();
    assert_eq!(e.inclo, dec(516400, -4));
}

#[test]
fn non_digit_in_eccentricity_is_invalid() {
    let l2 = with_column(ISS_2, 29, "x");
    assert!(matches!(parse(ISS_1, &l2), Err(PropagationError::InvalidElements)));
}

#[test]
fn eccentricity_has_an_assumed_point() {
    let e = parse(ISS_1, &with_column(ISS_2, 26, "1234567")).ok().unwrap();
    assert_eq!(e.ecco, dec(1234567, -7));
    let e = parse(ISS_1, &with_column(ISS_2, 26, "12     ")).ok().unwrap();
    assert_eq!(e.ecco, dec(12, -2));
    let e = parse(ISS_1, &with_column(ISS_2, 26, "0000000")).ok().unwrap();
    assert_eq!(e.ecco, dec(0, -7));
}

#[test]
fn short_line_is_invalid() {
    assert!(matches!(parse(&ISS_1[..60], ISS_2), Err(PropagationError::InvalidElements)));
    assert!(matches!(parse(ISS_1, &ISS_2[..68]), Err(PropagationError::InvalidElements)));
    assert!(matches!(parse("", ""), Err(PropagationError::InvalidElements)));
}

#[test]
fn classification_column() {
    let e = parse(&with_column(ISS_1, 7, "C"), ISS_2).ok().unwrap();
    assert_eq!(e.classification, Some(Classification::Classified));
    let e = parse(&with_column(ISS_1, 7, " "), ISS_2).ok().unwrap();
    assert_eq!(e.classification, None);
    assert!(matches!(
        parse(&with_column(ISS_1, 7, "Q"), ISS_2),
        Err(PropagationError::InvalidElements)
    ));
}

#[test]
fn epoch_year_pivot() {
    let e = parse(&with_column(ISS_1, 18, "56"), ISS_2).ok().unwrap();
    assert_eq!(e.year, 2056);
    let e = parse(&with_column(ISS_1, 18, "57"), ISS_2).ok().unwrap();
    assert_eq!(e.year, 1957);
    let e = parse(&with_column(ISS_1, 18, "00"), ISS_2).ok().unwrap();
    assert_eq!(e.year, 2000);
}

#[test]
fn julian_date_at_start_of_2000() {
    let l1 = with_column(ISS_1, 18, "00001.50000000");
    let e = parse(&l1, ISS_2).ok().unwrap();
    // 1 January 2000 0h is JD 2451544.5.
    assert_eq!(e.jdsatepoch, dec(24515445, -1));
    assert_eq!(e.jdsatepochf, dec(50000000, -8));
}

#[test]
fn exponential_fields() {
    let l1 = with_column(ISS_1, 44, "+12345+3");
    let l1 = with_column(&l1, 53, " 34123-9");
    let e = parse(&l1, ISS_2).ok().unwrap();
    assert_eq!(e.nddot, dec(12345, -2));
    assert_eq!(e.bstar, dec(34123, -14));
    let bad = with_column(ISS_1, 53, "-1160a-4");
    assert!(matches!(parse(&bad, ISS_2), Err(PropagationError::InvalidElements)));
    let bad = with_column(ISS_1, 59, "*4");
    assert!(matches!(parse(&bad, ISS_2), Err(PropagationError::InvalidElements)));
}

#[test]
fn decimal_fields_with_signs_and_spaces() {
    let l1 = with_column(ISS_1, 33, " +.0001   ");
    let e = parse(&l1, ISS_2).ok().unwrap();
    assert_eq!(e.ndot, dec(1, -4));
    let l2 = with_column(ISS_2, 8, "   51.  ");
    let e = parse(ISS_1, &l2).ok().unwrap();
    assert_eq!(e.inclo, dec(51, 0));
    let l2 = with_column(ISS_2, 8, "   .    ");
    assert!(matches!(parse(ISS_1, &l2), Err(PropagationError::InvalidElements)));
    let l2 = with_column(ISS_2, 8, " 51.6.16");
    assert!(matches!(parse(ISS_1, &l2), Err(PropagationError::InvalidElements)));
    let l2 = with_column(ISS_2, 8, " 51 6416");
    assert!(matches!(parse(ISS_1, &l2), Err(PropagationError::InvalidElements)));
}

#[test]
fn integer_fields() {
    let l1 = with_column(ISS_1, 2, "  544");
    let e = parse(&l1, ISS_2).ok().unwrap();
    assert_eq!(e.satnum, 544);
    let l1 = with_column(ISS_1, 2, "     ");
    assert!(matches!(parse(&l1, ISS_2), Err(PropagationError::InvalidElements)));
    let l2 = with_column(ISS_2, 63, "5635x");
    assert!(matches!(parse(ISS_1, &l2), Err(PropagationError::InvalidElements)));
}

#[test]
fn parse_is_deterministic() {
    let a = parse(ISS_1, ISS_2).ok().unwrap();
    let b = parse(ISS_1, ISS_2).ok().unwrap();
    assert_eq!(a.inclo, b.inclo);
    assert_eq!(a.jdsatepoch, b.jdsatepoch);
    assert_eq!(a.intldesg, b.intldesg);
}

#[test]
fn classification_from_char() {
    assert_eq!(Classification::from('U'), Some(Classification::Unclassified));
    assert_eq!(Classification::from('C'), Some(Classification::Classified));
    assert_eq!(Classification::from('S'), None);
    assert_eq!(Classification::default(), Classification::Unclassified);
    assert_ne!(TypeRun::Catalog, TypeRun::Manual);
}
