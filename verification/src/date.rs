//! Calendar dates as the journal writes them: `YYYY-MM-DD`, four-digit
//! year, two-digit month and day. The calendar itself is chrono's.

use chrono::Datelike;
use vstd::prelude::*;

verus! {

/// Leap years of the proleptic Gregorian calendar.
pub open spec fn is_leap_year(year: int) -> bool {
    year % 4 == 0 && (year % 100 != 0 || year % 400 == 0)
}

/// Number of days of `month` in `year`; `month` is 1 to 12.
pub open spec fn days_in_month(year: int, month: int) -> int {
    if month == 2 {
        if is_leap_year(year) {
            29
        } else {
            28
        }
    } else if month == 4 || month == 6 || month == 9 || month == 11 {
        30
    } else {
        31
    }
}

/// `month` and `day` name a day that exists in `year`.
pub open spec fn calendar_day(year: int, month: int, day: int) -> bool {
    1 <= month <= 12 && 1 <= day <= days_in_month(year, month)
}

/// A calendar day whose year can be written with four digits.
pub open spec fn valid_date(year: int, month: int, day: int) -> bool {
    0 <= year <= 9999 && calendar_day(year, month, day)
}

/// The first and the last year that chrono's `NaiveDate` can hold.
pub open spec fn naive_year_range(year: int) -> bool {
    -262143 <= year <= 262142
}

/// The day before `(year, month, day)`.
pub open spec fn previous_day(ymd: (int, int, int)) -> (int, int, int) {
    let (year, month, day) = ymd;
    if day > 1 {
        (year, month, day - 1)
    } else if month > 1 {
        (year, month - 1, days_in_month(year, month - 1))
    } else {
        (year - 1, 12, 31)
    }
}

/// The day that lies `n` days before `(year, month, day)`.
pub open spec fn days_before(ymd: (int, int, int), n: nat) -> (int, int, int)
    decreases n,
{
    if n == 0 {
        ymd
    } else {
        days_before(previous_day(ymd), (n - 1) as nat)
    }
}

/// The ASCII digit for `n`, which is 0 to 9.
pub open spec fn digit(n: int) -> u8 {
    (48 + n) as u8
}

/// `b` is an ASCII digit.
pub open spec fn is_digit(b: u8) -> bool {
    48 <= b <= 57
}

/// The number that the ASCII digit `b` stands for.
pub open spec fn digit_value(b: u8) -> int {
    b - 48
}

/// `n`, below 100, as two digits.
pub open spec fn two_digits(n: int) -> Seq<u8> {
    seq![digit(n / 10), digit(n % 10)]
}

/// `n`, below 10000, as four digits.
pub open spec fn four_digits(n: int) -> Seq<u8> {
    two_digits(n / 100) + two_digits(n % 100)
}

/// `YYYY-MM-DD`.
pub open spec fn iso_text(year: int, month: int, day: int) -> Seq<u8> {
    four_digits(year) + seq![45u8] + two_digits(month) + seq![45u8] + two_digits(day)
}

/// Ten bytes of the shape `dddd-dd-dd`, each `d` a digit.
pub open spec fn iso_shaped(s: Seq<u8>) -> bool {
    &&& s.len() == 10
    &&& is_digit(s[0]) && is_digit(s[1]) && is_digit(s[2]) && is_digit(s[3])
    &&& s[4] == 45
    &&& is_digit(s[5]) && is_digit(s[6])
    &&& s[7] == 45
    &&& is_digit(s[8]) && is_digit(s[9])
}

/// The year that the first four digits of `s` spell.
pub open spec fn iso_year(s: Seq<u8>) -> int {
    1000 * digit_value(s[0]) + 100 * digit_value(s[1]) + 10 * digit_value(s[2]) + digit_value(
        s[3],
    )
}

/// The month that the two digits behind the first hyphen of `s` spell.
pub open spec fn iso_month(s: Seq<u8>) -> int {
    10 * digit_value(s[5]) + digit_value(s[6])
}

/// The day that the last two digits of `s` spell.
pub open spec fn iso_day(s: Seq<u8>) -> int {
    10 * digit_value(s[8]) + digit_value(s[9])
}

/// The date that `s` spells, if it spells one.
pub open spec fn parse_iso(s: Seq<u8>) -> Option<Date> {
    if iso_shaped(s) && calendar_day(iso_year(s), iso_month(s), iso_day(s)) {
        Some(Date { year: iso_year(s) as i32, month: iso_month(s) as u32, day: iso_day(s) as u32 })
    } else {
        None
    }
}

/// A day of the calendar.
#[derive(Clone, Copy, Debug, PartialEq, Eq, Structural)]
pub struct Date {
    pub year: i32,
    pub month: u32,
    pub day: u32,
}

/// A day of the week.
#[derive(Clone, Copy, Debug, PartialEq, Eq, Structural)]
pub enum Weekday {
    Mon,
    Tue,
    Wed,
    Thu,
    Fri,
    Sat,
    Sun,
}

impl Date {
    /// The day exists and its year has four digits.
    pub open spec fn wf(self) -> bool {
        valid_date(self.year as int, self.month as int, self.day as int)
    }

    /// `YYYY-MM-DD`.
    pub open spec fn text(self) -> Seq<u8> {
        iso_text(self.year as int, self.month as int, self.day as int)
    }

    /// `self` is `other` or an earlier day.
    pub open spec fn on_or_before(self, other: Date) -> bool {
        self.year < other.year || (self.year == other.year && (self.month < other.month || (
        self.month == other.month && self.day <= other.day)))
    }

    /// The date `year`-`month`-`day`, if that is a day of the calendar with
    /// a four-digit year.
    pub fn from_ymd(year: i32, month: u32, day: u32) -> (r: Option<Date>)
        ensures
            r == (if valid_date(year as int, month as int, day as int) {
                Some(Date { year, month, day })
            } else {
                None
            }),
            r matches Some(d) ==> d.wf(),
    {
        if year < 0 || year > 9999 {
            return None;
        }
        match naive_from_ymd(year, month, day) {
            Some(_) => Some(Date { year, month, day }),
            None => None,
        }
    }

    /// Reads `YYYY-MM-DD`.
    pub fn parse(s: &[u8]) -> (r: Option<Date>)
        ensures
            r == parse_iso(s@),
            r matches Some(d) ==> d.wf(),
    {
        if s.len() != 10 {
            return None;
        }
        if !(is_ascii_digit(s[0]) && is_ascii_digit(s[1]) && is_ascii_digit(s[2])
            && is_ascii_digit(s[3]) && s[4] == 45 && is_ascii_digit(s[5]) && is_ascii_digit(s[6])
            && s[7] == 45 && is_ascii_digit(s[8]) && is_ascii_digit(s[9])) {
            return None;
        }
        match naive_parse_iso(s) {
            Some((year, month, day)) => Some(Date { year, month, day }),
            None => None,
        }
    }

    /// Writes `YYYY-MM-DD`.
    pub fn to_text(&self) -> (r: Vec<u8>)
        requires
            self.wf(),
        ensures
            r@ == self.text(),
    {
        naive_to_text(self.year, self.month, self.day)
    }

    /// Whether `self` is `other` or an earlier day.
    pub fn le(&self, other: &Date) -> (r: bool)
        ensures
            r == self.on_or_before(*other),
    {
        self.year < other.year || (self.year == other.year && (self.month < other.month || (
        self.month == other.month && self.day <= other.day)))
    }

    /// The day `n` days earlier, unless it lies before the year 0000.
    pub fn minus_days(&self, n: u16) -> (r: Option<Date>)
        requires
            self.wf(),
        ensures
            ({
                let (year, month, day) = days_before(
                    (self.year as int, self.month as int, self.day as int),
                    n as nat,
                );
                r == if year >= 0 {
                    Some(Date { year: year as i32, month: month as u32, day: day as u32 })
                } else {
                    None
                }
            }),
            r matches Some(d) ==> d.wf() && d.on_or_before(*self),
    {
        proof {
            lemma_days_before(
                (self.year as int, self.month as int, self.day as int),
                n as nat,
            );
        }
        let (year, month, day) = naive_days_before(self.year, self.month, self.day, n);
        if year >= 0 {
            Some(Date { year, month, day })
        } else {
            None
        }
    }

    /// The first day of the month of `self`.
    pub fn first_of_month(&self) -> (r: Date)
        requires
            self.wf(),
        ensures
            r == (Date { year: self.year, month: self.month, day: 1 }),
            r.wf(),
            r.on_or_before(*self),
    {
        match naive_from_ymd(self.year, self.month, 1) {
            Some((year, month, day)) => Date { year, month, day },
            None => *self,
        }
    }
}

/// Whether `b` is an ASCII digit.
pub fn is_ascii_digit(b: u8) -> (r: bool)
    ensures
        r == is_digit(b),
{
    48 <= b && b <= 57
}

/// `a` is `b` or lies before it, component by component.
pub open spec fn ymd_on_or_before(a: (int, int, int), b: (int, int, int)) -> bool {
    a.0 < b.0 || (a.0 == b.0 && (a.1 < b.1 || (a.1 == b.1 && a.2 <= b.2)))
}

/// Going back by days stays in the calendar and never moves forward.
pub proof fn lemma_days_before(ymd: (int, int, int), n: nat)
    requires
        calendar_day(ymd.0, ymd.1, ymd.2),
    ensures
        ({
            let r = days_before(ymd, n);
            &&& calendar_day(r.0, r.1, r.2)
            &&& ymd_on_or_before(r, ymd)
            &&& ymd.0 - n <= r.0
        }),
    decreases n,
{
    if n > 0 {
        lemma_days_before(previous_day(ymd), (n - 1) as nat);
    }
}

/// A date's text is read back as that date.
pub proof fn lemma_parse_text(d: Date)
    requires
        d.wf(),
    ensures
        iso_shaped(d.text()),
        parse_iso(d.text()) == Some(d),
{
    let s = d.text();
    let y = d.year as int;
    let m = d.month as int;
    let dd = d.day as int;
    assert(s =~= seq![
        digit(y / 100 / 10),
        digit(y / 100 % 10),
        digit(y % 100 / 10),
        digit(y % 100 % 10),
        45u8,
        digit(m / 10),
        digit(m % 10),
        45u8,
        digit(dd / 10),
        digit(dd % 10),
    ]);
}

/// What reads as a date is that date's text: no two spellings give one date.
pub proof fn law_only_date_text_is_read(s: Seq<u8>)
    requires
        parse_iso(s) is Some,
    ensures
        parse_iso(s)->0.wf(),
        parse_iso(s)->0.text() == s,
{
    let d = parse_iso(s)->0;
    assert(d.text() =~= s);
}

/// `NaiveDate::from_ymd_opt`: hands the three numbers back when they name a
/// day of the proleptic Gregorian calendar in a year that chrono can hold,
/// and nothing otherwise.
#[verifier::external_body]
fn naive_from_ymd(year: i32, month: u32, day: u32) -> (r: Option<(i32, u32, u32)>)
    ensures
        r == (if naive_year_range(year as int) && calendar_day(year as int, month as int, day as int) {
            Some((year, month, day))
        } else {
            None
        }),
{
    match chrono::NaiveDate::from_ymd_opt(year, month, day) {
        Some(date) => Some((date.year(), date.month(), date.day())),
        None => None,
    }
}

/// `NaiveDate::parse_from_str` with the format `%Y-%m-%d`, on text of the
/// shape `dddd-dd-dd` only: the year, month and day that the digits spell
/// when they name a day of the calendar, and nothing otherwise.
#[verifier::external_body]
fn naive_parse_iso(s: &[u8]) -> (r: Option<(i32, u32, u32)>)
    requires
        iso_shaped(s@),
    ensures
        r == (if calendar_day(iso_year(s@), iso_month(s@), iso_day(s@)) {
            Some((iso_year(s@) as i32, iso_month(s@) as u32, iso_day(s@) as u32))
        } else {
            None
        }),
{
    let text = core::str::from_utf8(s).unwrap_or_default();
    match chrono::NaiveDate::parse_from_str(text, "%Y-%m-%d") {
        Ok(date) => Some((date.year(), date.month(), date.day())),
        Err(_) => None,
    }
}

/// `Display` of `NaiveDate`: for a year of 0 to 9999 the text `YYYY-MM-DD`,
/// each number padded with zeros.
#[verifier::external_body]
fn naive_to_text(year: i32, month: u32, day: u32) -> (r: Vec<u8>)
    requires
        valid_date(year as int, month as int, day as int),
    ensures
        r@ == iso_text(year as int, month as int, day as int),
{
    let date = chrono::NaiveDate::from_ymd_opt(year, month, day).unwrap_or_default();
    date.to_string().into_bytes()
}

/// `NaiveDate - TimeDelta::days(n)`: the day that lies `n` days earlier.
/// From a year of 0 or later, 65535 days back stay within chrono's years.
#[verifier::external_body]
fn naive_days_before(year: i32, month: u32, day: u32, n: u16) -> (r: (i32, u32, u32))
    requires
        valid_date(year as int, month as int, day as int),
    ensures
        r.0 == days_before((year as int, month as int, day as int), n as nat).0,
        r.1 == days_before((year as int, month as int, day as int), n as nat).1,
        r.2 == days_before((year as int, month as int, day as int), n as nat).2,
{
    let date = chrono::NaiveDate::from_ymd_opt(year, month, day).unwrap_or_default();
    let earlier = date - chrono::TimeDelta::days(i64::from(n));
    (earlier.year(), earlier.month(), earlier.day())
}

} // verus!
