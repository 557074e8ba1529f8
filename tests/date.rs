use tbb::date::{format_month_year, parse_date, year_month_from_date, DateFormatError, YearMonth};

#[test]
fn jan_0_is_origin() {
    let origin = YearMonth { year: 0, month: 0 };
    assert_eq!(origin.to_int(), 0);
}

#[test]
fn year_month_same_after_roundtrip() {
    for n in [0i64, 1, -1, 11, 12, -12, -13, 24287, i64::MAX, i64::MIN, i64::MIN + 1] {
        assert_eq!(YearMonth::from_int(n).to_int(), n);
    }
}

#[test]
fn from_int_decodes_negative_ordinals() {
    assert_eq!(YearMonth::from_int(-1), YearMonth { year: -1, month: 11 });
    assert_eq!(YearMonth::from_int(-12), YearMonth { year: -1, month: 0 });
    assert_eq!(YearMonth::from_int(-13), YearMonth { year: -2, month: 11 });
    assert_eq!(YearMonth::from_int(2024 * 12 + 1), YearMonth { year: 2024, month: 1 });
}

#[test]
fn year_month_from_int_preserves_order() {
    let values = [i64::MIN, -25, -13, -12, -1, 0, 1, 11, 12, 13, 24288, i64::MAX];
    for a in values {
        for b in values {
            let ya = YearMonth::from_int(a);
            let yb = YearMonth::from_int(b);
            assert_eq!(a.cmp(&b), ya.cmp(&yb));
            assert_eq!(a < b, ya.is_before(yb));
        }
    }
}

#[test]
fn parse_date_reads_year_and_month() {
    assert_eq!(parse_date("2024-02-29"), Ok(YearMonth { year: 2024, month: 1 }));
    assert_eq!(parse_date("1999-12-31"), Ok(YearMonth { year: 1999, month: 11 }));
}

#[test]
fn parse_date_rejects_malformed_text() {
    assert_eq!(parse_date("2023-02-29"), Err(DateFormatError));
    assert_eq!(parse_date("24-1"), Err(DateFormatError));
    assert_eq!(parse_date(""), Err(DateFormatError));
}

#[test]
fn year_month_from_date_counts_months_from_zero() {
    assert_eq!(year_month_from_date(2024, 1), YearMonth { year: 2024, month: 0 });
    assert_eq!(year_month_from_date(2024, 12), YearMonth { year: 2024, month: 11 });
}

#[test]
fn format_month_year_names_the_month() {
    assert_eq!(format_month_year(YearMonth { year: 2024, month: 0 }), "Jan 2024");
    assert_eq!(format_month_year(YearMonth { year: 1999, month: 11 }), "Dec 1999");
}

#[test]
fn format_month_year_writes_years_as_percent_y() {
    assert_eq!(format_month_year(YearMonth { year: 999, month: 4 }), "May 0999");
    assert_eq!(format_month_year(YearMonth { year: 0, month: 5 }), "Jun 0000");
    assert_eq!(format_month_year(YearMonth { year: -5, month: 6 }), "Jul -0005");
    assert_eq!(format_month_year(YearMonth { year: 12345, month: 8 }), "Sep +12345");
}
