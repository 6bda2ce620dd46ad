use tle::{get_epoch_from_tle, parse_decimal_point_assumed, parse_fixed_point, parse_tle, split_tle};
use tle::{Decimal, DecodeError, Field, Reason};

fn float(d: Decimal) -> f64 {
    format!("{}e{}", d.mantissa, d.exponent).parse::<f64>().unwrap()
}

fn assumed(s: &str) -> f64 {
    float(parse_decimal_point_assumed(s).unwrap())
}

#[test]
fn test_epoch_parser() {
    assert_eq!(1718748281, get_epoch_from_tle("24170.91992694").unwrap().timestamp())
}

#[test]
fn test_decimal_point_parser() {
    assert_eq!(0.00014141 as f64, assumed("14141-3"));

    assert_eq!(assumed("00000-0"), 0.0 as f64);

    assert_eq!(assumed("-36258-4"), -0.36258e-4);
}

#[test]
fn test_tle_parse() {
    let mut raw_tle = "ISS (ZARYA)
        1 25544U 98067A   20045.18587073  .00000950  00000-0  25302-4 0  9990
        2 25544  51.6443 242.0161 0004885 264.6060 207.3845 15.49165514212791";

    let tle = parse_tle(raw_tle).unwrap();

    assert_eq!(tle.name, "ISS (ZARYA)".to_string());
    assert_eq!(tle.satellite_number, 25544);
    assert_eq!(tle.classification, 'U');
    assert_eq!(tle.international_designator, "98067A".to_string());
    assert_eq!(tle.epoch, 1581654459);
    assert_eq!(tle.date_time, "2020-02-14T04:27:39.231+00:00".to_string());
    assert_eq!(float(tle.first_derivative_mean_motion), 0.00000950);
    assert_eq!(float(tle.second_derivative_mean_motion), 0.0);
    assert_eq!(float(tle.drag_term), 0.25302e-4);
    assert_eq!(tle.ephemeris_type, 0);
    assert_eq!(tle.element_number, 999);
    assert_eq!(float(tle.inclination), 51.6443);
    assert_eq!(float(tle.right_ascension), 242.0161);
    assert_eq!(float(tle.eccentricity), 0.0004885);
    assert_eq!(float(tle.argument_of_perigee), 264.6060);
    assert_eq!(float(tle.mean_anomaly), 207.3845);
    assert_eq!(float(tle.mean_motion), 15.49165514);
    assert_eq!(tle.revolution_number, 21279);

    raw_tle = "GRUS-1A
        1 43890U 18111Q   20044.88470557  .00000320  00000-0  36258-4 0  9993
        2 43890  97.7009 312.6237 0003899   7.8254 352.3026 14.92889838 61757";

    let tle = parse_tle(raw_tle).unwrap();

    assert_eq!(tle.name, "GRUS-1A");
    assert_eq!(tle.satellite_number, 43890);
    assert_eq!(tle.classification, 'U');
    assert_eq!(tle.international_designator, "18111Q");
    assert_eq!(tle.epoch, 1581628438);
    assert_eq!(float(tle.first_derivative_mean_motion), 0.00000320);
    assert_eq!(float(tle.second_derivative_mean_motion), 0.0);
    assert_eq!(float(tle.drag_term), 0.36258e-4);
    assert_eq!(tle.ephemeris_type, 0);
    assert_eq!(tle.element_number, 999);
    // 2nd line
    assert_eq!(float(tle.inclination), 97.7009);
    assert_eq!(float(tle.right_ascension), 312.6237);
    assert_eq!(float(tle.eccentricity), 0.0003899);
    assert_eq!(float(tle.argument_of_perigee), 7.8254);
    assert_eq!(float(tle.mean_anomaly), 352.3026);
    assert_eq!(float(tle.mean_motion), 14.92889838);
    assert_eq!(tle.revolution_number, 6175);
}

#[test]
fn assumed_decimal_exact_parts() {
    assert_eq!(parse_decimal_point_assumed("14141-3"), Some(Decimal { mantissa: 14141, exponent: -8 }));
    assert_eq!(parse_decimal_point_assumed("-36258-4"), Some(Decimal { mantissa: -36258, exponent: -9 }));
    assert_eq!(parse_decimal_point_assumed("00000+0"), Some(Decimal { mantissa: 0, exponent: -5 }));
    assert_eq!(parse_decimal_point_assumed("12345+2"), Some(Decimal { mantissa: 12345, exponent: -3 }));
}

#[test]
fn assumed_decimal_without_exponent() {
    assert_eq!(parse_decimal_point_assumed("0004885"), Some(Decimal { mantissa: 4885, exponent: -7 }));
    assert_eq!(parse_decimal_point_assumed("-5"), Some(Decimal { mantissa: -5, exponent: -1 }));
    assert_eq!(assumed("0004885"), 0.0004885);
}

#[test]
fn assumed_decimal_rounds_to_fifteen_places() {
    // 0.1234567 × 10^-9 needs sixteen places: the last one rounds away.
    assert_eq!(parse_decimal_point_assumed("1234567-9"), Some(Decimal { mantissa: 123457, exponent: -15 }));
    assert_eq!(parse_decimal_point_assumed("-1234565-9"), Some(Decimal { mantissa: -123457, exponent: -15 }));
    assert_eq!(parse_decimal_point_assumed("4-20"), Some(Decimal { mantissa: 0, exponent: -15 }));
}

#[test]
fn assumed_decimal_rejects() {
    assert_eq!(parse_decimal_point_assumed(""), None);
    assert_eq!(parse_decimal_point_assumed("-"), None);
    assert_eq!(parse_decimal_point_assumed("+5"), None);
    assert_eq!(parse_decimal_point_assumed("123-"), None);
    assert_eq!(parse_decimal_point_assumed("12a45-3"), None);
    assert_eq!(parse_decimal_point_assumed("123-4-5"), None);
    assert_eq!(parse_decimal_point_assumed("1234567890123456789"), None);
}

#[test]
fn fixed_point_values() {
    assert_eq!(parse_fixed_point(".00000950"), Some(Decimal { mantissa: 950, exponent: -8 }));
    assert_eq!(parse_fixed_point("-.00000044"), Some(Decimal { mantissa: -44, exponent: -8 }));
    assert_eq!(parse_fixed_point("15.49165514"), Some(Decimal { mantissa: 1549165514, exponent: -8 }));
    assert_eq!(parse_fixed_point("+7"), Some(Decimal { mantissa: 7, exponent: 0 }));
    assert_eq!(parse_fixed_point("12."), Some(Decimal { mantissa: 12, exponent: 0 }));
    assert_eq!(parse_fixed_point("."), None);
    assert_eq!(parse_fixed_point("1.2.3"), None);
    assert_eq!(parse_fixed_point("1e5"), None);
}

#[test]
fn epoch_instant_and_text() {
    let e = get_epoch_from_tle("20045.18587073").unwrap();
    assert_eq!(e.unix_seconds, 1581654459);
    assert_eq!(e.millis, 231);
    assert_eq!(e.iso8601, "2020-02-14T04:27:39.231+00:00");
}

#[test]
fn epoch_year_pivot() {
    // 57 and later are in the 1900s.
    let e = get_epoch_from_tle("57001.00000000").unwrap();
    assert_eq!(e.unix_seconds, -410227200);
    let e = get_epoch_from_tle("56001.50000000").unwrap();
    assert_eq!(e.unix_seconds, 2713910400 + 43200);
}

#[test]
fn epoch_leap_day() {
    // Day 60 of 2024 is February 29th.
    let e = get_epoch_from_tle("24060.00000000").unwrap();
    assert_eq!(e.iso8601, "2024-02-29T00:00:00+00:00");
    assert_eq!(e.unix_seconds, 1709164800);
}

#[test]
fn epoch_day_past_year_end_rolls_over() {
    // Day 367 of 2024 (a leap year) is January 1st, 2025.
    let e = get_epoch_from_tle("24367.50000000").unwrap();
    assert_eq!(e.iso8601, "2025-01-01T12:00:00+00:00");
    assert_eq!(e.unix_seconds, 1735732800);
    let e = get_epoch_from_tle("24999.00000000").unwrap();
    assert_eq!(e.unix_seconds, 1704067200 + 998 * 86400);
}

#[test]
fn epoch_next_day_is_one_day_later() {
    let a = get_epoch_from_tle("24366.91992694").unwrap();
    let b = get_epoch_from_tle("24367.91992694").unwrap();
    assert_eq!(b.unix_seconds, a.unix_seconds + 86400);
    assert_eq!(b.millis, a.millis);
    let a = get_epoch_from_tle("2499.25").unwrap();
    let b = get_epoch_from_tle("24100.25").unwrap();
    assert_eq!(b.unix_seconds, a.unix_seconds + 86400);
}

#[test]
fn epoch_fraction_rounding_to_next_day() {
    let e = get_epoch_from_tle("24001.9999999999").unwrap();
    assert_eq!(e.unix_seconds, 1704153600);
    assert_eq!(e.millis, 0);
}

#[test]
fn epoch_errors() {
    assert!(matches!(get_epoch_from_tle("24170"), Err(DecodeError::UnsupportedEpochFormat)));
    let bad = DecodeError::MalformedRecord { field: Field::Epoch, reason: Reason::BadEpoch };
    assert_eq!(get_epoch_from_tle("2x170.5").unwrap_err(), bad);
    assert_eq!(get_epoch_from_tle("24000.5").unwrap_err(), bad);
    assert_eq!(get_epoch_from_tle("241000.5").unwrap_err(), bad);
    assert_eq!(get_epoch_from_tle("24170.").unwrap_err(), bad);
    assert_eq!(get_epoch_from_tle("24.5").unwrap_err(), bad);
    assert_eq!(get_epoch_from_tle("2417a.5").unwrap_err(), bad);
}

const ISS: &str = "ISS (ZARYA)
1 25544U 98067A   20045.18587073  .00000950  00000-0  25302-4 0  9990
2 25544  51.6443 242.0161 0004885 264.6060 207.3845 15.49165514212791";

#[test]
fn parse_reports_missing_lines() {
    let e = parse_tle("ISS (ZARYA)").unwrap_err();
    assert_eq!(e, DecodeError::MalformedRecord { field: Field::Line1, reason: Reason::MissingLine });
    let e = parse_tle("").unwrap_err();
    assert_eq!(e, DecodeError::MalformedRecord { field: Field::Name, reason: Reason::MissingLine });
}

#[test]
fn parse_reports_short_line() {
    let text = ISS.replace("15.49165514212791", "15.4916");
    let e = parse_tle(&text).unwrap_err();
    assert_eq!(e, DecodeError::MalformedRecord { field: Field::MeanMotion, reason: Reason::ColumnsOutOfRange });
}

#[test]
fn parse_reports_bad_integer() {
    let text = ISS.replace("1 25544U", "1 255X4U");
    let e = parse_tle(&text).unwrap_err();
    assert_eq!(e, DecodeError::MalformedRecord { field: Field::CatalogNumber, reason: Reason::NotAnInteger });
}

#[test]
fn parse_reports_bad_decimals() {
    let text = ISS.replace("51.6443", "51.6a43");
    let e = parse_tle(&text).unwrap_err();
    assert_eq!(e, DecodeError::MalformedRecord { field: Field::Inclination, reason: Reason::NotADecimal });
    let text = ISS.replace("25302-4", "25302*4");
    let e = parse_tle(&text).unwrap_err();
    assert_eq!(e, DecodeError::MalformedRecord { field: Field::DragTerm, reason: Reason::NotAnAssumedDecimal });
}

#[test]
fn parse_rejects_signed_eccentricity() {
    let text = ISS.replace(" 0004885 ", " -004885 ");
    let e = parse_tle(&text).unwrap_err();
    assert_eq!(e, DecodeError::MalformedRecord { field: Field::Eccentricity, reason: Reason::NotAnAssumedDecimal });
}

#[test]
fn parse_reports_epoch_without_separator() {
    let text = ISS.replace("20045.18587073", "20045018587073");
    assert_eq!(parse_tle(&text).unwrap_err(), DecodeError::UnsupportedEpochFormat);
}

#[test]
fn parse_keeps_classification_verbatim() {
    let text = ISS.replace("25544U", "25544S");
    assert_eq!(parse_tle(&text).unwrap().classification, 'S');
}

#[test]
fn parse_accepts_crlf_lines() {
    let text = ISS.replace('\n', "\r\n");
    let tle = parse_tle(&text).unwrap();
    assert_eq!(tle.name, "ISS (ZARYA)");
    assert_eq!(tle.revolution_number, 21279);
}

#[test]
fn split_groups_by_three() {
    let text = format!("{}\n{}\n", ISS, ISS);
    let (groups, leftover) = split_tle(text);
    assert_eq!(leftover, None);
    assert_eq!(groups.len(), 2);
    assert_eq!(groups[0], format!("{}\n", ISS));
    assert_eq!(groups[1], format!("{}\n", ISS));
}

#[test]
fn split_drops_partial_group() {
    let text = format!("{}\nEXTRA\nLINE", ISS);
    let (groups, leftover) = split_tle(text);
    assert_eq!(groups.len(), 1);
    assert_eq!(leftover, Some(DecodeError::TruncatedInput { leftover_lines: 2 }));
    assert_eq!(split_tle(String::new()), (vec![], None));
    assert_eq!(
        split_tle("a\nb".to_string()),
        (vec![], Some(DecodeError::TruncatedInput { leftover_lines: 2 }))
    );
    assert_eq!(
        split_tle("a\nb\nc\nd\ne".to_string()),
        (vec!["a\nb\nc\n".to_string()], Some(DecodeError::TruncatedInput { leftover_lines: 2 }))
    );
}
