use vstd::prelude::*;

verus! {

/// Smallest year that `chrono::NaiveDate` represents.
pub const MIN_YEAR: i32 = -262143;

/// Largest year that `chrono::NaiveDate` represents.
pub const MAX_YEAR: i32 = 262142;

/// A calendar date without time of day or time zone.
#[derive(Clone, Copy, Debug, PartialEq, Eq, Structural)]
pub struct Date {
    pub year: i32,
    pub month: u32,
    pub day: u32,
}

pub open spec fn is_leap_year(y: int) -> bool {
    y % 4 == 0 && (y % 100 != 0 || y % 400 == 0)
}

pub open spec fn days_in_month(y: int, m: int) -> int {
    if m == 2 {
        if is_leap_year(y) { 29 } else { 28 }
    } else if m == 4 || m == 6 || m == 9 || m == 11 {
        30
    } else {
        31
    }
}

/// Whether year, month and day name a day of the proleptic Gregorian calendar
/// within the range that `chrono::NaiveDate` covers.
pub open spec fn valid_ymd(y: int, m: int, d: int) -> bool {
    MIN_YEAR <= y <= MAX_YEAR && 1 <= m <= 12 && 1 <= d <= days_in_month(y, m)
}

/// Relies on chrono's `NaiveDate::from_ymd_opt`, which gives `None` exactly
/// for a day that does not exist, an invalid month or day, or a year out of
/// its range.
#[verifier::external_body]
fn calendar_day_exists(year: i32, month: u32, day: u32) -> (r: bool)
    ensures
        r == valid_ymd(year as int, month as int, day as int),
{
    chrono::NaiveDate::from_ymd_opt(year, month, day).is_some()
}

impl Date {
    pub open spec fn valid(self) -> bool {
        valid_ymd(self.year as int, self.month as int, self.day as int)
    }

    /// Strict chronological order: `self` is an earlier day than `other`.
    pub open spec fn precedes(self, other: Date) -> bool {
        self.year < other.year || (self.year == other.year && (self.month < other.month || (
        self.month == other.month && self.day < other.day)))
    }

    /// The date of the given year, month and day, if that day exists.
    pub fn new(year: i32, month: u32, day: u32) -> (r: Option<Date>)
        ensures
            r is Some <==> valid_ymd(year as int, month as int, day as int),
            r matches Some(d) ==> d.year == year && d.month == month && d.day == day,
    {
        if calendar_day_exists(year, month, day) {
            Some(Date { year, month, day })
        } else {
            None
        }
    }

    /// Whether `self` is an earlier day than `other`.
    pub fn is_before(&self, other: &Date) -> (r: bool)
        ensures
            r == self.precedes(*other),
    {
        self.year < other.year || (self.year == other.year && (self.month < other.month || (
        self.month == other.month && self.day < other.day)))
    }
}

pub open spec fn digit_text(d: int) -> Seq<char> {
    if d == 0 { "0"@ }
    else if d == 1 { "1"@ }
    else if d == 2 { "2"@ }
    else if d == 3 { "3"@ }
    else if d == 4 { "4"@ }
    else if d == 5 { "5"@ }
    else if d == 6 { "6"@ }
    else if d == 7 { "7"@ }
    else if d == 8 { "8"@ }
    else { "9"@ }
}

/// Decimal notation of a natural number, without leading zeros.
pub open spec fn decimal(n: nat) -> Seq<char>
    decreases n,
{
    if n < 10 {
        digit_text(n as int)
    } else {
        decimal(n / 10) + digit_text((n % 10) as int)
    }
}

/// Short French name of a month, `1` being January.
pub open spec fn month_abbrev(m: int) -> Seq<char> {
    if m == 1 { "jan"@ }
    else if m == 2 { "fev"@ }
    else if m == 3 { "mar"@ }
    else if m == 4 { "avr"@ }
    else if m == 5 { "mai"@ }
    else if m == 6 { "juin"@ }
    else if m == 7 { "juil"@ }
    else if m == 8 { "août"@ }
    else if m == 9 { "sep"@ }
    else if m == 10 { "oct"@ }
    else if m == 11 { "nov"@ }
    else { "dec"@ }
}

/// How a date is shown: day of month and short month name, or `???` for no date.
pub open spec fn date_text(date: Option<Date>) -> Seq<char> {
    match date {
        None => "???"@,
        Some(d) => decimal(d.day as nat) + " "@ + month_abbrev(d.month as int),
    }
}

fn digit_str(d: u32) -> (r: &'static str)
    requires
        d < 10,
    ensures
        r@ == digit_text(d as int),
{
    match d {
        0 => "0",
        1 => "1",
        2 => "2",
        3 => "3",
        4 => "4",
        5 => "5",
        6 => "6",
        7 => "7",
        8 => "8",
        _ => "9",
    }
}

/// Decimal notation of `n`.
pub fn decimal_string(n: u32) -> (r: String)
    ensures
        r@ == decimal(n as nat),
{
    let mut rest: u32 = n / 10;
    let mut s = String::from_str(digit_str(n % 10));
    proof {
        if n < 10 {
            assert(decimal(n as nat) == digit_text(n as int));
        }
    }
    while rest > 0
        invariant
            rest <= n,
            rest > 0 ==> decimal(n as nat) == decimal(rest as nat) + s@,
            rest == 0 ==> decimal(n as nat) == s@,
        decreases rest,
    {
        let d = rest % 10;
        let t = String::from_str(digit_str(d));
        proof {
            assert(decimal(rest as nat) == (if rest < 10 { digit_text(rest as int) } else {
                decimal((rest / 10) as nat) + digit_text((rest % 10) as int)
            }));
            if rest >= 10 {
                assert(decimal(rest as nat) + s@ == decimal((rest / 10) as nat) + (digit_text(
                    (rest % 10) as int) + s@));
            }
        }
        s = t.concat(s.as_str());
        rest = rest / 10;
    }
    s
}

pub fn month_str(m: u32) -> (r: &'static str)
    requires
        1 <= m <= 12,
    ensures
        r@ == month_abbrev(m as int),
{
    match m {
        1 => "jan",
        2 => "fev",
        3 => "mar",
        4 => "avr",
        5 => "mai",
        6 => "juin",
        7 => "juil",
        8 => "août",
        9 => "sep",
        10 => "oct",
        11 => "nov",
        _ => "dec",
    }
}

/// The day of month and short month name of `date`, or `???` when there is none.
pub fn format_date(date: Option<Date>) -> (r: String)
    requires
        date matches Some(d) ==> 1 <= d.month <= 12,
    ensures
        r@ == date_text(date),
{
    match date {
        None => String::from_str("???"),
        Some(d) => {
            let day = decimal_string(d.day);
            let with_space = day.concat(" ");
            with_space.concat(month_str(d.month))
        },
    }
}

} // verus!
