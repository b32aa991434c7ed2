use chrono::Datelike;
use vstd::prelude::*;

verus! {

/// A day of the week.
#[derive(Clone, Copy, Debug, PartialEq, Eq, Structural)]
pub enum Weekday {
    Mon,
    Tue,
    Wed,
    Thu,
    Fri,
    Sat,
    Sun,
}

impl Weekday {
    /// The ISO 8601 number of the day: Monday is 1, Sunday is 7.
    pub open spec fn number(self) -> int {
        match self {
            Weekday::Mon => 1,
            Weekday::Tue => 2,
            Weekday::Wed => 3,
            Weekday::Thu => 4,
            Weekday::Fri => 5,
            Weekday::Sat => 6,
            Weekday::Sun => 7,
        }
    }

    /// The day with the given ISO number; Monday for a number outside 1..=7.
    pub open spec fn of_number(n: int) -> Weekday {
        if n == 2 {
            Weekday::Tue
        } else if n == 3 {
            Weekday::Wed
        } else if n == 4 {
            Weekday::Thu
        } else if n == 5 {
            Weekday::Fri
        } else if n == 6 {
            Weekday::Sat
        } else if n == 7 {
            Weekday::Sun
        } else {
            Weekday::Mon
        }
    }

    pub fn number_from_monday(&self) -> (n: u32)
        ensures
            n == self.number(),
            1 <= n <= 7,
    {
        match self {
            Weekday::Mon => 1,
            Weekday::Tue => 2,
            Weekday::Wed => 3,
            Weekday::Thu => 4,
            Weekday::Fri => 5,
            Weekday::Sat => 6,
            Weekday::Sun => 7,
        }
    }

    /// The day with ISO number `n`, for `n` in 1..=7.
    pub fn from_number(n: u32) -> (r: Option<Weekday>)
        ensures
            r is Some <==> 1 <= n <= 7,
            r matches Some(w) ==> w == Weekday::of_number(n as int) && w.number() == n,
    {
        if n == 1 {
            Some(Weekday::Mon)
        } else if n == 2 {
            Some(Weekday::Tue)
        } else if n == 3 {
            Some(Weekday::Wed)
        } else if n == 4 {
            Some(Weekday::Thu)
        } else if n == 5 {
            Some(Weekday::Fri)
        } else if n == 6 {
            Some(Weekday::Sat)
        } else if n == 7 {
            Some(Weekday::Sun)
        } else {
            None
        }
    }
}

/// Numbering the days and reading the number back gives the same day.
pub proof fn lemma_weekday_number_round_trip(w: Weekday)
    ensures
        1 <= w.number() <= 7,
        Weekday::of_number(w.number()) == w,
{
}

/// The ISO weekday number (Monday = 1) that chrono gives for the calendar day
/// holding the instant `secs` seconds after 1970-01-01T00:00:00, or `None`
/// where chrono cannot represent that instant.
pub uninterp spec fn iso_weekday_at(secs: int) -> Option<int>;

/// The day of the month that chrono gives for the calendar day holding the
/// instant `secs` seconds after 1970-01-01T00:00:00, or `None` where chrono
/// cannot represent that instant.
pub uninterp spec fn day_of_month_at(secs: int) -> Option<int>;

/// The first second of the year 0000.
pub const FIRST_COMMON_SECOND: i64 = -62_167_219_200;

/// The last second of the year 9999.
pub const LAST_COMMON_SECOND: i64 = 253_402_300_799;

/// Instants from the year 0000 to the year 9999, which every calendar here
/// can represent.
pub open spec fn in_common_years(secs: int) -> bool {
    FIRST_COMMON_SECOND <= secs <= LAST_COMMON_SECOND
}

/// Calls `chrono::DateTime::from_timestamp(secs, 0)` and, on the date it
/// gives, `Datelike::weekday` and `Weekday::number_from_monday`.
///
/// Trusted: the result is the one named `iso_weekday_at(secs)`; it lies in
/// 1..=7; and chrono represents every instant of the years 0000 to 9999.
#[verifier::external_body]
fn chrono_weekday(secs: i64) -> (r: Option<u32>)
    ensures
        match r {
            Some(n) => iso_weekday_at(secs as int) == Some(n as int) && 1 <= n <= 7,
            None => iso_weekday_at(secs as int) is None,
        },
        in_common_years(secs as int) ==> r is Some,
{
    match chrono::DateTime::from_timestamp(secs, 0) {
        Some(date_time) => Some(date_time.weekday().number_from_monday()),
        None => None,
    }
}

/// Calls `chrono::DateTime::from_timestamp(secs, 0)` and, on the date it
/// gives, `Datelike::day`.
///
/// Trusted: the result is the one named `day_of_month_at(secs)`; it lies in
/// 1..=31; and chrono represents every instant of the years 0000 to 9999.
#[verifier::external_body]
fn chrono_day_of_month(secs: i64) -> (r: Option<u32>)
    ensures
        match r {
            Some(d) => day_of_month_at(secs as int) == Some(d as int) && 1 <= d <= 31,
            None => day_of_month_at(secs as int) is None,
        },
        in_common_years(secs as int) ==> r is Some,
{
    match chrono::DateTime::from_timestamp(secs, 0) {
        Some(date_time) => Some(date_time.day()),
        None => None,
    }
}

/// A wall-clock reading together with the calendar day it falls on.
#[derive(Clone, Copy, Debug)]
pub struct Instant {
    secs: i64,
    weekday: Weekday,
    day: u32,
}

/// What an [`Instant`] stands for.
pub struct InstantView {
    /// Seconds since 1970-01-01T00:00:00 on the clock the reading was taken from.
    pub secs: int,
    /// The weekday of the calendar day.
    pub weekday: Weekday,
    /// The day of the month, from 1.
    pub day: int,
}

impl View for Instant {
    type V = InstantView;

    closed spec fn view(&self) -> InstantView {
        InstantView { secs: self.secs as int, weekday: self.weekday, day: self.day as int }
    }
}

/// Whether `at` carries the calendar day that chrono gives for its seconds.
pub open spec fn on_calendar(at: InstantView) -> bool {
    &&& iso_weekday_at(at.secs) == Some(at.weekday.number())
    &&& day_of_month_at(at.secs) == Some(at.day)
    &&& 1 <= at.day <= 31
}

impl Instant {
    /// The instant `secs` seconds after 1970-01-01T00:00:00, with its
    /// calendar day, where the calendar reaches that far.
    pub fn from_unix_seconds(secs: i64) -> (r: Option<Instant>)
        ensures
            r is Some <==> iso_weekday_at(secs as int) is Some && day_of_month_at(secs as int)
                is Some,
            in_common_years(secs as int) ==> r is Some,
            r matches Some(at) ==> at@.secs == secs && on_calendar(at@),
    {
        let weekday_number = chrono_weekday(secs);
        let day = chrono_day_of_month(secs);
        match (weekday_number, day) {
            (Some(n), Some(d)) => {
                match Weekday::from_number(n) {
                    Some(weekday) => Some(Instant { secs, weekday, day: d }),
                    None => None,
                }
            },
            _ => None,
        }
    }

    pub fn unix_seconds(&self) -> (secs: i64)
        ensures
            secs == self@.secs,
    {
        self.secs
    }

    pub fn weekday(&self) -> (weekday: Weekday)
        ensures
            weekday == self@.weekday,
    {
        self.weekday
    }

    pub fn day(&self) -> (day: u32)
        ensures
            day == self@.day,
    {
        self.day
    }
}

} // verus!
