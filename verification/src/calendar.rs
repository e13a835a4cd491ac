//! Calendar dates as day numbers.
//!
//! A date is the number of its day in the proleptic Gregorian calendar, day 1
//! being January 1 of year 1. Durations are differences of day numbers; years,
//! months, weekdays and text go through `chrono`.

use chrono::Datelike;
use vstd::prelude::*;

verus! {

/// First representable day: January 1 of year -262143.
pub const FIRST_DAY: i32 = -95_746_129;

/// Last representable day: December 31 of year 262142.
pub const LAST_DAY: i32 = 95_745_399;

/// First representable year.
pub const FIRST_YEAR: i32 = -262_143;

/// Last representable year.
pub const LAST_YEAR: i32 = 262_142;

/// Day number of January 1, 1970.
pub const EPOCH_DAY: i64 = 719_163;

/// Seconds in a day.
pub const DAY_SECONDS: i64 = 86_400;

// ── The Gregorian calendar ───────────────────────────────────────────────────

/// Leap years of the Gregorian calendar.
pub open spec fn leap(y: int) -> bool {
    y % 4 == 0 && (y % 100 != 0 || y % 400 == 0)
}

/// Number of days in month `m` of year `y`.
pub open spec fn month_len(y: int, m: int) -> int {
    if m == 4 || m == 6 || m == 9 || m == 11 {
        30
    } else if m == 2 {
        if leap(y) {
            29
        } else {
            28
        }
    } else {
        31
    }
}

/// Number of days in year `y`.
pub open spec fn year_len(y: int) -> int {
    if leap(y) {
        366
    } else {
        365
    }
}

/// Number of days of year `y` before the first of month `m`.
pub open spec fn days_before(y: int, m: int) -> int {
    let feb = if m > 2 && leap(y) {
        1int
    } else {
        0int
    };
    feb + if m == 1 {
        0int
    } else if m == 2 {
        31int
    } else if m == 3 {
        59int
    } else if m == 4 {
        90int
    } else if m == 5 {
        120int
    } else if m == 6 {
        151int
    } else if m == 7 {
        181int
    } else if m == 8 {
        212int
    } else if m == 9 {
        243int
    } else if m == 10 {
        273int
    } else if m == 11 {
        304int
    } else {
        334int
    }
}

/// Number of days before January 1 of year `y`, counted from January 1 of year 1.
pub open spec fn days_before_year(y: int) -> int {
    365 * (y - 1) + (y - 1) / 4 - (y - 1) / 100 + (y - 1) / 400
}

/// Whether year `y` has a month `m` with a day `d`.
pub open spec fn civil(y: int, m: int, d: int) -> bool {
    1 <= m <= 12 && 1 <= d <= month_len(y, m)
}

/// The day number of a calendar date.
pub open spec fn day_number(y: int, m: int, d: int) -> int {
    days_before_year(y) + days_before(y, m) + d
}

/// The days that can be represented.
pub open spec fn day_in_range(day: int) -> bool {
    FIRST_DAY <= day <= LAST_DAY
}

/// The years that can be represented.
pub open spec fn year_in_range(y: int) -> bool {
    FIRST_YEAR <= y <= LAST_YEAR
}

/// Every year ends where the next one begins.
proof fn lemma_year_step(y: int)
    ensures
        days_before_year(y + 1) == days_before_year(y) + year_len(y),
{
}

/// Later years begin after earlier ones have ended.
proof fn lemma_years_apart(a: int, b: int)
    requires
        a < b,
    ensures
        days_before_year(a) + year_len(a) <= days_before_year(b),
    decreases b - a,
{
    lemma_year_step(a);
    if a + 1 < b {
        lemma_years_apart(a + 1, b);
    }
}

/// A date lies within its year.
proof fn lemma_within_year(y: int, m: int, d: int)
    requires
        civil(y, m, d),
    ensures
        1 <= days_before(y, m) + d <= year_len(y),
{
}

/// Day numbers order dates as year, month and day do.
pub proof fn day_number_is_monotone(y1: int, m1: int, d1: int, y2: int, m2: int, d2: int)
    requires
        civil(y1, m1, d1),
        civil(y2, m2, d2),
    ensures
        day_number(y1, m1, d1) < day_number(y2, m2, d2) <==> (y1 < y2 || (y1 == y2 && (m1 < m2 || (
        m1 == m2 && d1 < d2)))),
{
    lemma_within_year(y1, m1, d1);
    lemma_within_year(y2, m2, d2);
    if y1 < y2 {
        lemma_years_apart(y1, y2);
    } else if y2 < y1 {
        lemma_years_apart(y2, y1);
    }
}

/// Two calendar dates with one day number are the same date.
pub proof fn day_number_is_injective(y1: int, m1: int, d1: int, y2: int, m2: int, d2: int)
    requires
        civil(y1, m1, d1),
        civil(y2, m2, d2),
        day_number(y1, m1, d1) == day_number(y2, m2, d2),
    ensures
        y1 == y2 && m1 == m2 && d1 == d2,
{
    day_number_is_monotone(y1, m1, d1, y2, m2, d2);
    day_number_is_monotone(y2, m2, d2, y1, m1, d1);
}

/// Every day number is that of a calendar date.
pub proof fn every_day_is_a_date(day: int)
    ensures
        exists|y: int, m: int, d: int| civil(y, m, d) && #[trigger] day_number(y, m, d) == day,
    decreases (if day >= 1 { day - 1 } else { 1 - day }),
{
    if day == 1 {
        assert(civil(1, 1, 1) && day_number(1, 1, 1) == 1);
    } else if day > 1 {
        every_day_is_a_date(day - 1);
        let (y, m, d) = choose|y: int, m: int, d: int|
            civil(y, m, d) && #[trigger] day_number(y, m, d) == day - 1;
        if d < month_len(y, m) {
            assert(civil(y, m, d + 1) && day_number(y, m, d + 1) == day);
        } else if m < 12 {
            assert(civil(y, m + 1, 1) && day_number(y, m + 1, 1) == day);
        } else {
            lemma_year_step(y);
            assert(civil(y + 1, 1, 1) && day_number(y + 1, 1, 1) == day);
        }
    } else {
        every_day_is_a_date(day + 1);
        let (y, m, d) = choose|y: int, m: int, d: int|
            civil(y, m, d) && #[trigger] day_number(y, m, d) == day + 1;
        if d > 1 {
            assert(civil(y, m, d - 1) && day_number(y, m, d - 1) == day);
        } else if m > 1 {
            assert(civil(y, m - 1, month_len(y, m - 1)) && day_number(
                y,
                m - 1,
                month_len(y, m - 1),
            ) == day);
        } else {
            lemma_year_step(y - 1);
            assert(civil(y - 1, 12, 31) && day_number(y - 1, 12, 31) == day);
        }
    }
}

/// The month `n` months after month `m` of year `y`, as a year and a month.
pub open spec fn month_after(y: int, m: int, n: int) -> (int, int) {
    ((12 * y + m - 1 + n) / 12, (12 * y + m - 1 + n) % 12 + 1)
}

/// `n` months after a date: the same day of the month, or the last one where that month is shorter.
pub open spec fn months_after(y: int, m: int, d: int, n: int) -> int {
    let (ty, tm) = month_after(y, m, n);
    day_number(ty, tm, if d <= month_len(ty, tm) { d } else { month_len(ty, tm) })
}

// ── What chrono provides ─────────────────────────────────────────────────────

/// The day that `NaiveDate::parse_from_str` reads from `s` by the format `fmt`.
pub uninterp spec fn parsed_day(s: Seq<char>, fmt: Seq<char>) -> Option<int>;

/// The day that `NaiveDate`'s `FromStr` reads from `s`.
pub uninterp spec fn plain_day(s: Seq<char>) -> Option<int>;

/// The text that `NaiveDate`'s `Display` gives for a day.
pub uninterp spec fn day_text(day: int) -> Seq<char>;

/// `NaiveDate::from_ymd_opt`: the date exists if the year is representable and has that month
/// and day; its day number is then that of the Gregorian calendar.
#[verifier::external_body]
fn chrono_from_ymd(y: i32, m: u32, d: u32) -> (r: Option<i32>)
    ensures
        match r {
            Some(day) => year_in_range(y as int) && civil(y as int, m as int, d as int) && day
                == day_number(y as int, m as int, d as int) && day_in_range(day as int),
            None => !(year_in_range(y as int) && civil(y as int, m as int, d as int)),
        },
{
    chrono::NaiveDate::from_ymd_opt(y, m, d).map(|x| x.num_days_from_ce())
}

/// `Datelike::year`, `month` and `day` of a `NaiveDate`: the calendar date with that day number.
#[verifier::external_body]
fn chrono_ymd(day: i32) -> (r: (i32, u32, u32))
    requires
        day_in_range(day as int),
    ensures
        year_in_range(r.0 as int),
        civil(r.0 as int, r.1 as int, r.2 as int),
        day_number(r.0 as int, r.1 as int, r.2 as int) == day,
{
    let x = chrono::NaiveDate::from_num_days_from_ce_opt(day).unwrap();
    (x.year(), x.month(), x.day())
}

/// `NaiveDate::checked_add_months`: the same day of the month `n` months on, clamped to the
/// end of a shorter month; nothing where the year is not representable.
#[verifier::external_body]
fn chrono_add_months(day: i32, n: u32) -> (r: Option<i32>)
    requires
        day_in_range(day as int),
    ensures
        forall|y: int, m: int, d: int|
            civil(y, m, d) && #[trigger] day_number(y, m, d) == day ==> match r {
                Some(t) => year_in_range(month_after(y, m, n as int).0) && t == months_after(
                    y,
                    m,
                    d,
                    n as int,
                ) && day_in_range(t as int),
                None => !year_in_range(month_after(y, m, n as int).0),
            },
{
    let x = chrono::NaiveDate::from_num_days_from_ce_opt(day).unwrap();
    x.checked_add_months(chrono::Months::new(n)).map(|x| x.num_days_from_ce())
}

/// `Datelike::weekday`: Monday is 0 and Sunday 6; January 1 of year 1 was a Monday.
#[verifier::external_body]
fn chrono_weekday(day: i32) -> (r: u32)
    requires
        day_in_range(day as int),
    ensures
        r == (day - 1) % 7,
{
    let x = chrono::NaiveDate::from_num_days_from_ce_opt(day).unwrap();
    x.weekday().num_days_from_monday()
}

/// `NaiveDate::parse_from_str`: what it reads is a function of the text and the format, and
/// is a representable day.
#[verifier::external_body]
fn chrono_parse(s: &str, fmt: &str) -> (r: Option<i32>)
    ensures
        match r {
            Some(day) => parsed_day(s@, fmt@) == Some(day as int) && day_in_range(day as int),
            None => parsed_day(s@, fmt@) is None,
        },
{
    chrono::NaiveDate::parse_from_str(s, fmt).ok().map(|x| x.num_days_from_ce())
}

/// `NaiveDate`'s `FromStr`: what it reads is a function of the text, and is a representable day;
/// a date written `YYYY-MM-DD` reads as that date.
#[verifier::external_body]
fn chrono_from_str(s: &str) -> (r: Option<i32>)
    ensures
        match r {
            Some(day) => plain_day(s@) == Some(day as int) && day_in_range(day as int),
            None => plain_day(s@) is None,
        },
        forall|y: int, m: int, d: int|
            civil(y, m, d) && 0 <= y <= 9999 && s@ == #[trigger] iso_text(y, m, d) ==> r is Some
                && r->0 == day_number(y, m, d),
{
    s.parse::<chrono::NaiveDate>().ok().map(|x| x.num_days_from_ce())
}

/// `NaiveDate`'s `Display`: a function of the day; years 0 to 9999 are written `YYYY-MM-DD`.
#[verifier::external_body]
fn chrono_text(day: i32) -> (r: String)
    requires
        day_in_range(day as int),
    ensures
        r@ == day_text(day as int),
        forall|y: int, m: int, d: int|
            civil(y, m, d) && 0 <= y <= 9999 && #[trigger] day_number(y, m, d) == day ==> r@
                == iso_text(y, m, d),
{
    chrono::NaiveDate::from_num_days_from_ce_opt(day).unwrap().to_string()
}

/// `DateTime::from_timestamp` and `date_naive`: the UTC day that holds the second, where it is
/// representable.
#[verifier::external_body]
fn chrono_day_of_timestamp(secs: i64) -> (r: Option<i32>)
    ensures
        match r {
            Some(day) => day == secs as int / 86_400 + EPOCH_DAY && day_in_range(day as int),
            None => !day_in_range(secs as int / 86_400 + EPOCH_DAY),
        },
{
    chrono::DateTime::from_timestamp(secs, 0).map(|t| t.date_naive().num_days_from_ce())
}

/// The digit `n` as a character.
pub open spec fn digit(n: int) -> char {
    (n + 48) as char
}

/// A date in the form `YYYY-MM-DD`, for years 0 to 9999.
pub open spec fn iso_text(y: int, m: int, d: int) -> Seq<char> {
    seq![
        digit(y / 1000),
        digit(y / 100 % 10),
        digit(y / 10 % 10),
        digit(y % 10),
        '-',
        digit(m / 10),
        digit(m % 10),
        '-',
        digit(d / 10),
        digit(d % 10),
    ]
}

// ── Dates ────────────────────────────────────────────────────────────────────

/// A calendar date.
#[derive(Clone, Copy, Debug, PartialEq, Eq, Structural, Hash)]
pub struct Date {
    /// Day number in the proleptic Gregorian calendar, January 1 of year 1 being day 1.
    pub days: i32,
}

impl Date {
    /// Whether the date can be represented.
    pub open spec fn in_range(self) -> bool {
        day_in_range(self.days as int)
    }

    /// Whether this is the calendar date `y`-`m`-`d`.
    pub open spec fn is_ymd(self, y: int, m: int, d: int) -> bool {
        civil(y, m, d) && day_number(y, m, d) == self.days
    }

    /// The date of a calendar year, month and day, where there is one.
    pub fn from_ymd_opt(y: i32, m: u32, d: u32) -> (r: Option<Date>)
        ensures
            match r {
                Some(date) => year_in_range(y as int) && date.is_ymd(y as int, m as int, d as int)
                    && date.in_range(),
                None => !(year_in_range(y as int) && civil(y as int, m as int, d as int)),
            },
    {
        match chrono_from_ymd(y, m, d) {
            Some(days) => Some(Date { days }),
            None => None,
        }
    }

    /// Year, month and day of the month.
    pub fn ymd(self) -> (r: (i32, u32, u32))
        requires
            self.in_range(),
        ensures
            self.is_ymd(r.0 as int, r.1 as int, r.2 as int),
            year_in_range(r.0 as int),
    {
        chrono_ymd(self.days)
    }

    /// The date `n` days later (earlier for a negative `n`).
    pub fn plus_days(self, n: i64) -> (r: Date)
        requires
            day_in_range(self.days + n),
        ensures
            r.days == self.days + n,
            r.in_range(),
    {
        Date { days: (self.days as i64 + n) as i32 }
    }

    /// Days from `earlier` to this date.
    pub fn days_since(self, earlier: Date) -> (r: i64)
        ensures
            r == self.days - earlier.days,
    {
        self.days as i64 - earlier.days as i64
    }

    /// The date `n` months later, clamped to the end of a shorter month.
    pub fn checked_add_months(self, n: u32) -> (r: Option<Date>)
        requires
            self.in_range(),
        ensures
            forall|y: int, m: int, d: int| #[trigger]
                self.is_ymd(y, m, d) ==> match r {
                    Some(t) => year_in_range(month_after(y, m, n as int).0) && t.days
                        == months_after(y, m, d, n as int),
                    None => !year_in_range(month_after(y, m, n as int).0),
                },
            r matches Some(t) ==> t.in_range(),
    {
        let moved: Option<i32> = chrono_add_months(self.days, n);
        let (gy, gm, gd): (i32, u32, u32) = self.ymd();
        assert(self.is_ymd(gy as int, gm as int, gd as int));
        assert(day_number(gy as int, gm as int, gd as int) == self.days);
        match moved {
            Some(days) => Some(Date { days }),
            None => None,
        }
    }

    /// Whether the date is a Saturday or a Sunday.
    pub fn is_weekend(self) -> (r: bool)
        requires
            self.in_range(),
        ensures
            r == ((self.days - 1) % 7 >= 5),
    {
        chrono_weekday(self.days) >= 5
    }

    /// The date that `s` holds by the `strftime` format `fmt`.
    pub fn parse(s: &str, fmt: &str) -> (r: Option<Date>)
        ensures
            match r {
                Some(date) => parsed_day(s@, fmt@) == Some(date.days as int) && date.in_range(),
                None => parsed_day(s@, fmt@) is None,
            },
    {
        match chrono_parse(s, fmt) {
            Some(days) => Some(Date { days }),
            None => None,
        }
    }

    /// The date that `s` holds as `YYYY-MM-DD`.
    pub fn from_text(s: &str) -> (r: Option<Date>)
        ensures
            match r {
                Some(date) => plain_day(s@) == Some(date.days as int) && date.in_range(),
                None => plain_day(s@) is None,
            },
            forall|y: int, m: int, d: int|
                civil(y, m, d) && 0 <= y <= 9999 && s@ == #[trigger] iso_text(y, m, d) ==> r is Some
                    && r->0.is_ymd(y, m, d),
    {
        match chrono_from_str(s) {
            Some(days) => Some(Date { days }),
            None => None,
        }
    }

    /// The date as text: `YYYY-MM-DD` for years 0 to 9999.
    pub fn text(self) -> (r: String)
        requires
            self.in_range(),
        ensures
            r@ == day_text(self.days as int),
            forall|y: int, m: int, d: int| #[trigger]
                self.is_ymd(y, m, d) && 0 <= y <= 9999 ==> r@ == iso_text(y, m, d),
    {
        chrono_text(self.days)
    }

    /// The UTC day of a Unix timestamp in seconds.
    pub fn from_timestamp(secs: i64) -> (r: Option<Date>)
        ensures
            match r {
                Some(date) => date.days == secs as int / 86_400 + EPOCH_DAY && date.in_range(),
                None => !day_in_range(secs as int / 86_400 + EPOCH_DAY),
            },
    {
        match chrono_day_of_timestamp(secs) {
            Some(days) => Some(Date { days }),
            None => None,
        }
    }

    /// The Unix timestamp, in seconds, of the day's midnight in UTC.
    pub fn to_epoch(self) -> (r: i64)
        ensures
            r == (self.days - EPOCH_DAY) * 86_400,
    {
        (self.days as i64 - EPOCH_DAY) * DAY_SECONDS
    }
}

/// Midnight of a day lies within that day: reading a timestamp back gives the date it was made of.
pub proof fn timestamp_round_trip(date: Date)
    requires
        date.in_range(),
    ensures
        ((date.days - EPOCH_DAY) * 86_400) / 86_400 + EPOCH_DAY == date.days,
{
}

/// Number of days in a month; 30 where there is no such month.
#[verifier::spinoff_prover]
#[verifier::rlimit(50)]
pub fn days_in_month(year: i32, month: u32) -> (r: u32)
    ensures
        r == (if 1 <= month <= 12 {
            month_len(year as int, month as int)
        } else {
            30
        }),
{
    if month == 2 {
        let y4: i32 = year % 4;
        let y100: i32 = year % 100;
        let y400: i32 = year % 400;
        if y4 == 0 && (y100 != 0 || y400 == 0) {
            29
        } else {
            28
        }
    } else if month == 4 || month == 6 || month == 9 || month == 11 {
        30
    } else if month >= 1 && month <= 12 {
        31
    } else {
        30
    }
}

/// The date `months` months before `date`: the same day of the month, or the last one where
/// that month is shorter; `date` itself where the year is not representable.
pub fn subtract_months(date: Date, months: u32) -> (r: Date)
    requires
        date.in_range(),
    ensures
        forall|y: int, m: int, d: int| #[trigger]
            date.is_ymd(y, m, d) ==> r.days == (if year_in_range(month_after(y, m, -months).0) {
                months_after(y, m, d, -months)
            } else {
                date.days as int
            }),
        r.in_range(),
{
    let (y, m, d): (i32, u32, u32) = date.ymd();
    let total: i64 = 12 * (y as i64) + (m as i64) - 1 - (months as i64);
    let rest: i64 = total % 12;
    let month0: i64 = if rest < 0 {
        rest + 12
    } else {
        rest
    };
    let new_year: i64 = (total - month0) / 12;
    proof {
        assert(month_after(y as int, m as int, -months) == (new_year as int, month0 + 1));
        assert forall|y2: int, m2: int, d2: int| #[trigger] date.is_ymd(y2, m2, d2) implies y2 == y
            && m2 == m && d2 == d by {
            day_number_is_injective(y as int, m as int, d as int, y2, m2, d2);
        }
    }
    if new_year < FIRST_YEAR as i64 || new_year > LAST_YEAR as i64 {
        return date;
    }
    let new_month: u32 = (month0 + 1) as u32;
    let max_day: u32 = days_in_month(new_year as i32, new_month);
    let day: u32 = if d <= max_day {
        d
    } else {
        max_day
    };
    match Date::from_ymd_opt(new_year as i32, new_month, day) {
        Some(r) => r,
        None => date,
    }
}

/// The same day and month `years` years earlier; `date` itself where that day does not exist.
pub fn subtract_years(date: Date, years: u32) -> (r: Date)
    requires
        date.in_range(),
    ensures
        forall|y: int, m: int, d: int| #[trigger]
            date.is_ymd(y, m, d) ==> r.days == (if year_in_range(y - years) && civil(
                y - years,
                m,
                d,
            ) {
                day_number(y - years, m, d)
            } else {
                date.days as int
            }),
        r.in_range(),
{
    let (y, m, d): (i32, u32, u32) = date.ymd();
    proof {
        assert forall|y2: int, m2: int, d2: int| #[trigger] date.is_ymd(y2, m2, d2) implies y2 == y
            && m2 == m && d2 == d by {
            day_number_is_injective(y as int, m as int, d as int, y2, m2, d2);
        }
    }
    let new_year: i64 = (y as i64) - (years as i64);
    if new_year < FIRST_YEAR as i64 || new_year > LAST_YEAR as i64 {
        return date;
    }
    match Date::from_ymd_opt(new_year as i32, m, d) {
        Some(r) => r,
        None => date,
    }
}

// ── Months and years back ────────────────────────────────────────────────────

/// So many months before a date lies a date as many months back by the calendar, on the same day of
/// the month, or on the last day of a month that is too short for it.
pub proof fn months_are_counted_back(
    date: Date,
    from: (i32, u32, u32),
    months: u32,
    r: Date,
    to: (i32, u32, u32),
    len: u32,
)
    requires
        date.in_range(),
        call_ensures(Date::ymd, (date,), from),
        call_ensures(subtract_months, (date, months), r),
        call_ensures(Date::ymd, (r,), to),
        call_ensures(days_in_month, (to.0, to.1), len),
        12 * from.0 + from.1 - months > 12 * FIRST_YEAR,
    ensures
        12 * to.0 + to.1 == 12 * from.0 + from.1 - months,
        to.2 == from.2 || to.2 < from.2 && to.2 == len,
        r.days <= date.days,
        months > 0 ==> r.days < date.days,
{
    let (y, m, d) = (from.0 as int, from.1 as int, from.2 as int);
    assert(date.is_ymd(y, m, d));
    assert(r.is_ymd(to.0 as int, to.1 as int, to.2 as int));
    let (ty, tm) = month_after(y, m, -months);
    let td = if d <= month_len(ty, tm) {
        d
    } else {
        month_len(ty, tm)
    };
    assert(year_in_range(ty));
    let args = (date, months);
    assert(args.0.is_ymd(y, m, d));
    assert(r.days == day_number(ty, tm, td));
    assert(civil(ty, tm, td));
    day_number_is_injective(to.0 as int, to.1 as int, to.2 as int, ty, tm, td);
    day_number_is_monotone(ty, tm, td, y, m, d);
    day_number_is_monotone(y, m, d, ty, tm, td);
}

/// So many years before a date lies the same day of the same month; a date that its year lacks, the
/// 29th of February, stays as it is.
pub proof fn years_are_counted_back(
    date: Date,
    from: (i32, u32, u32),
    years: u32,
    r: Date,
    to: (i32, u32, u32),
    len: u32,
)
    requires
        date.in_range(),
        call_ensures(Date::ymd, (date,), from),
        call_ensures(subtract_years, (date, years), r),
        call_ensures(Date::ymd, (r,), to),
        from.0 - years >= FIRST_YEAR,
        call_ensures(days_in_month, ((from.0 - years) as i32, from.1), len),
    ensures
        from.2 <= len ==> to.0 == from.0 - years && to.1 == from.1 && to.2 == from.2,
        from.2 > len ==> r == date,
{
    let (y, m, d) = (from.0 as int, from.1 as int, from.2 as int);
    assert(date.is_ymd(y, m, d));
    let args = (date, years);
    assert(args.0.is_ymd(y, m, d));
    if from.2 <= len {
        assert(civil(y - years, m, d));
        day_number_is_injective(to.0 as int, to.1 as int, to.2 as int, y - years, m, d);
    }
}

/// A month has 30 days, or 31, or 28, or 29 in February of a leap year: one divisible by four, but
/// by a hundred only where by four hundred too.
pub proof fn months_have_their_lengths(year: i32, month: u32, r: u32)
    requires
        call_ensures(days_in_month, (year, month), r),
        1 <= month <= 12,
    ensures
        month == 4 || month == 6 || month == 9 || month == 11 ==> r == 30,
        month == 1 || month == 3 || month == 5 || month == 7 || month == 8 || month == 10 || month
            == 12 ==> r == 31,
        month == 2 && year % 4 == 0 && (year % 100 != 0 || year % 400 == 0) ==> r == 29,
        month == 2 && !(year % 4 == 0 && (year % 100 != 0 || year % 400 == 0)) ==> r == 28,
{
}

/// Two dates are apart by the days that are added to one to reach the other.
pub proof fn days_added_are_days_between(date: Date, n: i64, later: Date, r: i64)
    requires
        date.in_range(),
        day_in_range(date.days + n),
        call_ensures(Date::plus_days, (date, n), later),
        call_ensures(Date::days_since, (later, date), r),
    ensures
        r == n,
{
}

/// The two days after a Friday are the weekend, and a week on it is the same day of the week.
pub proof fn two_days_in_seven_are_the_weekend(date: Date, later: Date, a: bool, b: bool)
    requires
        date.in_range(),
        later.in_range(),
        call_ensures(Date::is_weekend, (date,), a),
        call_ensures(Date::is_weekend, (later,), b),
    ensures
        (later.days - date.days) % 7 == 0 ==> a == b,
        a ==> (date.days % 7 == 6 || date.days % 7 == 0),
        (date.days % 7 == 6 || date.days % 7 == 0) ==> a,
{
}

/// A date is read back from the seconds of its first moment and from every second of its day.
pub proof fn every_second_of_a_day_reads_as_that_day(date: Date, secs: i64, start: i64, r: Option<Date>)
    requires
        date.in_range(),
        call_ensures(Date::to_epoch, (date,), start),
        start <= secs < start + 86_400,
        call_ensures(Date::from_timestamp, (secs,), r),
    ensures
        r == Some(date),
{
}

/// A date of the years 0 to 9999 is read back from its text.
pub proof fn dates_are_read_back_from_their_text(
    date: Date,
    parts: (i32, u32, u32),
    written: String,
    text_of: &str,
    r: Option<Date>,
)
    requires
        date.in_range(),
        call_ensures(Date::ymd, (date,), parts),
        0 <= parts.0 <= 9999,
        call_ensures(Date::text, (date,), written),
        text_of@ == written@,
        call_ensures(Date::from_text, (text_of,), r),
    ensures
        r == Some(date),
{
    let (y, m, d) = (parts.0 as int, parts.1 as int, parts.2 as int);
    let args = (date,);
    assert(args.0.is_ymd(y, m, d));
    assert(written@ == iso_text(y, m, d));
    let read = (text_of,);
    assert(read.0@ == iso_text(y, m, d));
}

/// A calendar date has the day number from which it is read back, and a date that does not exist
/// has none.
pub proof fn calendar_dates_are_read_back(y: i32, m: u32, d: u32, r: Option<Date>, back: (i32, u32, u32))
    requires
        call_ensures(Date::from_ymd_opt, (y, m, d), r),
        r matches Some(date) ==> call_ensures(Date::ymd, (date,), back),
    ensures
        r is Some ==> back == (y, m, d),
        m == 0 || m > 12 || d == 0 || d > 31 ==> r is None,
        year_in_range(y as int) && 1 <= m <= 12 && 1 <= d <= 28 ==> r is Some,
{
    if r is Some {
        day_number_is_injective(
            back.0 as int,
            back.1 as int,
            back.2 as int,
            y as int,
            m as int,
            d as int,
        );
    }
}

} // verus!
