use vstd::prelude::*;

use chrono::Datelike;

verus! {

/// A calendar month, with `month` counted from 0 (January) to 11.
///
/// Year and month combine into one integer, `year * 12 + month`, so that
/// months compare and index like plain numbers.
#[derive(PartialEq, Eq, Structural, PartialOrd, Ord, Clone, Copy, Debug, Hash)]
pub struct YearMonth {
    pub year: i64,
    /// 0-indexed
    pub month: u8,
}

/// The month part of the ordinal `n`, always in `0..12`.
pub open spec fn month_of(n: int) -> int {
    ((n % 12) + 12) % 12
}

/// The year part of the ordinal `n`.
pub open spec fn year_of(n: int) -> int {
    (n - month_of(n)) / 12
}

/// The month that the ordinal `n` stands for.
pub open spec fn year_month_of(n: int) -> YearMonth {
    YearMonth { year: year_of(n) as i64, month: month_of(n) as u8 }
}

/// Lexicographic order on (year, month): the order that `derive(Ord)` gives.
pub open spec fn precedes(a: YearMonth, b: YearMonth) -> bool {
    a.year < b.year || (a.year == b.year && a.month < b.month)
}

impl YearMonth {
    /// The integer that stands for this month.
    pub open spec fn ordinal(self) -> int {
        self.year * 12 + self.month
    }

    /// A month field in range and an ordinal that fits in `i64`.
    pub open spec fn wf(self) -> bool {
        self.month < 12 && i64::MIN <= self.ordinal() <= i64::MAX
    }

    pub fn to_int(self) -> (r: i64)
        requires
            i64::MIN <= self.ordinal() <= i64::MAX,
        ensures
            r == self.ordinal(),
    {
        let wide: i128 = self.year as i128 * 12 + self.month as i128;
        wide as i64
    }

    pub fn from_int(n: i64) -> (r: YearMonth)
        ensures
            r == year_month_of(n as int),
            r.wf(),
            r.ordinal() == n,
    {
        let rem: i64 = n % 12;
        proof {
            lemma_mod_parts(n as int);
        }
        let month: i64 = (rem + 12) % 12;
        let year: i128 = (n as i128 - month as i128) / 12;
        YearMonth { year: year as i64, month: month as u8 }
    }

    /// Whether this month comes strictly before `other`.
    pub fn is_before(self, other: YearMonth) -> (r: bool)
        ensures
            r == precedes(self, other),
    {
        self.year < other.year || (self.year == other.year && self.month < other.month)
    }
}

proof fn lemma_mod_parts(n: int)
    ensures
        0 <= month_of(n) < 12,
        (n - month_of(n)) % 12 == 0,
        year_of(n) * 12 + month_of(n) == n,
        i64::MIN <= n <= i64::MAX ==> i64::MIN <= year_of(n) <= i64::MAX,
{
    assert(((n % 12) + 12) % 12 == n % 12) by (nonlinear_arith);
    assert(n == (n / 12) * 12 + n % 12) by (nonlinear_arith);
    assert(year_of(n) == n / 12) by (nonlinear_arith)
        requires
            month_of(n) == n % 12,
            n == (n / 12) * 12 + n % 12,
            year_of(n) == (n - month_of(n)) / 12,
    ;
}

/// Decoding an ordinal and encoding the month again gives the ordinal back.
pub proof fn lemma_round_trip(n: i64)
    ensures
        year_month_of(n as int).wf(),
        year_month_of(n as int).ordinal() == n,
{
    lemma_mod_parts(n as int);
}

/// Decoding keeps order: two ordinals compare as the months they decode to.
pub proof fn lemma_order_preserved(a: i64, b: i64)
    ensures
        (a < b) == precedes(year_month_of(a as int), year_month_of(b as int)),
        (a == b) == (year_month_of(a as int) == year_month_of(b as int)),
        (a > b) == precedes(year_month_of(b as int), year_month_of(a as int)),
{
    lemma_mod_parts(a as int);
    lemma_mod_parts(b as int);
    lemma_order_of_wf(year_month_of(a as int), year_month_of(b as int));
}

/// For months in range, the lexicographic order is the order of their ordinals.
pub proof fn lemma_order_of_wf(x: YearMonth, y: YearMonth)
    requires
        x.month < 12,
        y.month < 12,
    ensures
        precedes(x, y) == (x.ordinal() < y.ordinal()),
        (x == y) == (x.ordinal() == y.ordinal()),
{
    if x.year < y.year {
        assert(x.year * 12 + 12 <= y.year * 12) by (nonlinear_arith)
            requires x.year < y.year;
    } else if x.year > y.year {
        assert(y.year * 12 + 12 <= x.year * 12) by (nonlinear_arith)
            requires x.year > y.year;
    }
}

/// The earliest and latest years that chrono's dates cover.
pub const MIN_CALENDAR_YEAR: i64 = -262143;
pub const MAX_CALENDAR_YEAR: i64 = 262142;

/// A date string that is not of the form `yyyy-mm-dd`.
#[derive(PartialEq, Eq, Structural, Clone, Copy, Debug)]
pub struct DateFormatError;

/// The (year, month from 1, day from 1) that chrono reads from `s` in the
/// form `%Y-%m-%d`, or `None` where it reads no valid date.
pub uninterp spec fn parsed_date(s: Seq<char>) -> Option<(i32, u32, u32)>;

/// The decimal digit `d`.
pub open spec fn digit_char(d: int) -> char {
    ((48 + d) as u32) as char
}

/// The decimal digits of `n`, with no leading zero.
pub open spec fn decimal(n: nat) -> Seq<char>
    decreases n,
{
    if n < 10 {
        seq![digit_char(n as int)]
    } else {
        decimal(n / 10).push(digit_char((n % 10) as int))
    }
}

/// `s` with zeros in front up to four characters.
pub open spec fn zero_pad4(s: Seq<char>) -> Seq<char> {
    if s.len() >= 4 {
        s
    } else {
        Seq::new((4 - s.len()) as nat, |_i: int| '0') + s
    }
}

/// A year as chrono's `%Y` writes it: four digits at least, zero-padded,
/// with a sign for years outside 0..=9999.
pub open spec fn year_text(year: int) -> Seq<char> {
    if 0 <= year <= 9999 {
        zero_pad4(decimal(year as nat))
    } else if year < 0 {
        seq!['-'] + zero_pad4(decimal((-year) as nat))
    } else {
        seq!['+'] + zero_pad4(decimal(year as nat))
    }
}

/// The English abbreviation of the month `month0`, counted from 0, as
/// chrono's `%b` writes it.
pub open spec fn month_abbrev(month0: int) -> Seq<char> {
    if month0 == 0 { "Jan"@ }
    else if month0 == 1 { "Feb"@ }
    else if month0 == 2 { "Mar"@ }
    else if month0 == 3 { "Apr"@ }
    else if month0 == 4 { "May"@ }
    else if month0 == 5 { "Jun"@ }
    else if month0 == 6 { "Jul"@ }
    else if month0 == 7 { "Aug"@ }
    else if month0 == 8 { "Sep"@ }
    else if month0 == 9 { "Oct"@ }
    else if month0 == 10 { "Nov"@ }
    else { "Dec"@ }
}

/// The text of `%b %Y` for a day of the month `month0` (counted from 0) of `year`.
pub open spec fn month_year_text(year: int, month0: int) -> Seq<char> {
    month_abbrev(month0) + " "@ + year_text(year)
}

/// Relies on chrono's `NaiveDate::parse_from_str` with `%Y-%m-%d`, and on its
/// documented ranges: a year in chrono's range, a month in 1..=12, a day in 1..=31.
#[verifier::external_body]
fn parse_ymd(s: &str) -> (r: Option<(i32, u32, u32)>)
    ensures
        r == parsed_date(s@),
        r matches Some((y, m, d)) ==> MIN_CALENDAR_YEAR <= y <= MAX_CALENDAR_YEAR && 1 <= m <= 12
            && 1 <= d <= 31,
{
    match chrono::NaiveDate::parse_from_str(s, "%Y-%m-%d") {
        Ok(d) => Some((d.year(), d.month(), d.day())),
        Err(_) => None,
    }
}

/// Relies on chrono's `NaiveDate::from_ymd_opt`, which gives a date for
/// every day up to the 28th of every month in chrono's range of years, and on
/// `NaiveDate::format` with `%b %Y`: without a locale feature, the English
/// month abbreviation, a space, and the year as `%Y` writes it.
#[verifier::external_body]
fn month_year_label(year: i32, month: u32, day: u32) -> (r: String)
    requires
        MIN_CALENDAR_YEAR <= year <= MAX_CALENDAR_YEAR,
        1 <= month <= 12,
        1 <= day <= 28,
    ensures
        r@ == month_year_text(year as int, month - 1),
{
    match chrono::NaiveDate::from_ymd_opt(year, month, day) {
        Some(d) => d.format("%b %Y").to_string(),
        None => String::new(),
    }
}

/// The month of a calendar date given by its year and its month counted from 1.
pub fn year_month_from_date(year: i32, month: u32) -> (r: YearMonth)
    requires
        1 <= month <= 12,
    ensures
        r == (YearMonth { year: year as i64, month: (month - 1) as u8 }),
        r.wf(),
{
    YearMonth { year: year as i64, month: (month - 1) as u8 }
}

/// The month of a date written `yyyy-mm-dd`.
pub fn parse_date(s: &str) -> (r: Result<YearMonth, DateFormatError>)
    ensures
        match parsed_date(s@) {
            Some((y, m, _)) => r == Ok::<YearMonth, DateFormatError>(
                YearMonth { year: y as i64, month: (m - 1) as u8 },
            ),
            None => r == Err::<YearMonth, DateFormatError>(DateFormatError),
        },
        r matches Ok(ym) ==> ym.wf() && MIN_CALENDAR_YEAR <= ym.year <= MAX_CALENDAR_YEAR,
{
    match parse_ymd(s) {
        Some((y, m, _)) => Ok(year_month_from_date(y, m)),
        None => Err(DateFormatError),
    }
}

/// The month and year as a header shows them, such as `Jan 2024`.
pub fn format_month_year(year_month: YearMonth) -> (r: String)
    requires
        MIN_CALENDAR_YEAR <= year_month.year <= MAX_CALENDAR_YEAR,
        year_month.month < 12,
    ensures
        r@ == month_year_text(year_month.year as int, year_month.month as int),
{
    month_year_label(year_month.year as i32, year_month.month as u32 + 1, 1)
}

} // verus!
