use flood_reports::dates::{parse_date, Date};
use flood_reports::format::{format_cents, format_comma_cents, format_deci, format_u128};
use flood_reports::parse::{parse_amount, parse_year, YearReading};

#[test]
fn amounts_read_to_cent_precision() {
    assert_eq!(parse_amount("0"), Some(0));
    assert_eq!(parse_amount("100"), Some(10000));
    assert_eq!(parse_amount("123.45"), Some(12345));
    assert_eq!(parse_amount("123.4"), Some(12340));
    assert_eq!(parse_amount("123."), Some(12300));
    // fractional digits beyond the cent are checked but carry no value
    assert_eq!(parse_amount("12.345"), Some(1234));
    assert_eq!(parse_amount("9999999999.99"), Some(999_999_999_999));
}

#[test]
fn bad_amounts_are_rejected() {
    assert_eq!(parse_amount(""), None);
    assert_eq!(parse_amount("."), None);
    assert_eq!(parse_amount(".5"), None);
    assert_eq!(parse_amount("-5"), None);
    assert_eq!(parse_amount("1e5"), None);
    assert_eq!(parse_amount("12.3a"), None);
    assert_eq!(parse_amount("12,000"), None);
    // one whole unit past the largest representable amount
    assert_eq!(parse_amount("10000000000"), None);
}

#[test]
fn years_are_classified() {
    assert!(matches!(parse_year("2021"), YearReading::InRange(2021)));
    assert!(matches!(parse_year("2023"), YearReading::InRange(2023)));
    assert!(matches!(parse_year("2020"), YearReading::OutOfRange));
    assert!(matches!(parse_year("2024"), YearReading::OutOfRange));
    assert!(matches!(parse_year("-2021"), YearReading::OutOfRange));
    assert!(matches!(parse_year("+2022"), YearReading::InRange(2022)));
    assert!(matches!(parse_year("99999999999999999999"), YearReading::OutOfRange));
    assert!(matches!(parse_year(""), YearReading::Invalid));
    assert!(matches!(parse_year("20 21"), YearReading::Invalid));
    assert!(matches!(parse_year("year"), YearReading::Invalid));
}

#[test]
fn dates_follow_the_calendar() {
    assert_eq!(
        parse_date("2021-01-11"),
        Some(Date { year: 2021, month: 1, day: 11 })
    );
    // leap rules
    assert_eq!(parse_date("2021-02-29"), None);
    assert_eq!(
        parse_date("2020-02-29"),
        Some(Date { year: 2020, month: 2, day: 29 })
    );
    assert_eq!(parse_date("1900-02-29"), None);
    assert_eq!(
        parse_date("2000-02-29"),
        Some(Date { year: 2000, month: 2, day: 29 })
    );
    // shape and range
    assert_eq!(parse_date("2021-13-01"), None);
    assert_eq!(parse_date("2021-00-10"), None);
    assert_eq!(parse_date("2021-04-31"), None);
    assert_eq!(parse_date("2021-1-1"), None);
    assert_eq!(parse_date("2021/01/01"), None);
    assert_eq!(parse_date("01-01-2021"), None);
}

#[test]
fn day_distance_counts_calendar_days() {
    let a = Date { year: 2021, month: 1, day: 1 };
    let b = Date { year: 2021, month: 1, day: 11 };
    assert_eq!(b.day_index() - a.day_index(), 10);
    let c = Date { year: 2022, month: 1, day: 1 };
    assert_eq!(c.day_index() - a.day_index(), 365);
    let d = Date { year: 2020, month: 3, day: 1 };
    let e = Date { year: 2020, month: 2, day: 1 };
    assert_eq!(d.day_index() - e.day_index(), 29);
}

#[test]
fn plain_decimal_rendering() {
    assert_eq!(format_u128(0), "0");
    assert_eq!(format_u128(907), "907");
    assert_eq!(format_cents(0), "0.00");
    assert_eq!(format_cents(12345), "123.45");
    assert_eq!(format_cents(-123), "-1.23");
    assert_eq!(format_cents(5), "0.05");
    assert_eq!(format_deci(333), "33.3");
    assert_eq!(format_deci(-7), "-0.7");
}

#[test]
fn comma_grouped_rendering() {
    assert_eq!(format_comma_cents(12345), "123.45");
    assert_eq!(format_comma_cents(123456789), "1,234,567.89");
    assert_eq!(format_comma_cents(-100000000), "-1,000,000.00");
    assert_eq!(format_comma_cents(99999), "999.99");
    assert_eq!(format_comma_cents(100000), "1,000.00");
}
