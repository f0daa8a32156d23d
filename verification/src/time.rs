//! Points in time as text.

use vstd::arithmetic::div_mod::lemma_mod_multiples_vanish;
use vstd::prelude::*;
use vstd::string::StringExecFns;

use crate::text::{decimal, decimal_of};

verus! {

/// A year with 366 days.
pub open spec fn leap(year: int) -> bool {
    year % 4 == 0 && (year % 100 != 0 || year % 400 == 0)
}

/// Days of a year.
pub open spec fn year_days(year: int) -> int {
    if leap(year) {
        366
    } else {
        365
    }
}

/// Days of a month.
pub open spec fn month_days(year: int, month: int) -> int {
    if month == 2 {
        if leap(year) {
            29
        } else {
            28
        }
    } else if month == 4 || month == 6 || month == 9 || month == 11 {
        30
    } else {
        31
    }
}

/// Days from the start of 1970 to that of a year; negative for years before.
pub open spec fn year_start(year: int) -> int
    decreases
            if year >= 1970 {
                year - 1970
            } else {
                1970 - year
            },
{
    if year == 1970 {
        0
    } else if year > 1970 {
        year_start(year - 1) + year_days(year - 1)
    } else {
        year_start(year + 1) - year_days(year)
    }
}

/// Days from the start of a year to that of a month.
pub open spec fn month_start(year: int, month: int) -> int
    decreases month,
{
    if month <= 1 {
        0
    } else {
        month_start(year, month - 1) + month_days(year, month - 1)
    }
}

/// A day of the calendar.
pub open spec fn valid_date(year: int, month: int, day: int) -> bool {
    1 <= month <= 12 && 1 <= day <= month_days(year, month)
}

/// Days from the start of 1970 to a day of the calendar.
pub open spec fn day_number(year: int, month: int, day: int) -> int {
    year_start(year) + month_start(year, month) + day - 1
}

/// Leap years before a year, counted from the year 1 on.
spec fn leaps_before(year: int) -> int {
    (year - 1) / 4 - (year - 1) / 100 + (year - 1) / 400
}

proof fn lemma_leaps_step(year: int)
    ensures
        leaps_before(year + 1) == leaps_before(year) + if leap(year) {
            1int
        } else {
            0
        },
{
    lemma_div_step(year, 4);
    lemma_div_step(year, 100);
    lemma_div_step(year, 400);
    assert(year % 400 == 0 ==> year % 100 == 0);
    assert(year % 100 == 0 ==> year % 4 == 0);
}

proof fn lemma_div_step(n: int, d: int)
    requires
        d == 4 || d == 100 || d == 400,
    ensures
        n / d == (n - 1) / d + if n % d == 0 {
            1int
        } else {
            0
        },
{
    if d == 4 {
    } else if d == 100 {
    } else {
    }
}

proof fn lemma_year_start(year: int)
    ensures
        year_start(year) == 365 * (year - 1970) + leaps_before(year) - 477,
    decreases
            if year >= 1970 {
                year - 1970
            } else {
                1970 - year
            },
{
    if year == 1970 {
        assert(leaps_before(1970) == 477);
    } else if year > 1970 {
        lemma_year_start(year - 1);
        lemma_leaps_step(year - 1);
    } else {
        lemma_year_start(year + 1);
        lemma_leaps_step(year);
    }
}

/// Days from the first of March of a year to the start of 1970, with the year
/// given by its place in a period of 400 years.
proof fn lemma_march(era: int, yoe: int)
    requires
        0 <= yoe < 400,
    ensures
        ({
            let y = yoe + 400 * era;
            year_start(y) + 59 + (if leap(y) {
                1int
            } else {
                0
            }) == era * 146_097 + 365 * yoe + yoe / 4 - yoe / 100 - 719_468
        }),
{
    let y = yoe + 400 * era;
    lemma_year_start(y);
    lemma_leaps_step(y);
    assert(leaps_before(y + 1) == y / 4 - y / 100 + y / 400);
    assert(y / 4 == yoe / 4 + 100 * era);
    assert(y / 100 == yoe / 100 + 4 * era);
    assert(y / 400 == era);
}

/// The year of a day in a century.
proof fn lemma_year_of_century(c: int, r: int)
    requires
        0 <= c <= 3,
        0 <= r < 36524,
    ensures
        ({
            let v = (r - (24 * c + r) / 1460) / 365;
            let doy = r - 365 * v - v / 4;
            &&& 0 <= v < 100
            &&& 0 <= doy <= 365
            &&& doy == 365 ==> (v + 1) % 4 == 0 && v + 1 < 100
        }),
{
    let u = (24 * c + r) / 1460;
    let v = (r - u) / 365;
    let b = v / 4;
    let k = v % 4;
    assert(1460 * u <= 24 * c + r < 1460 * u + 1460);
    assert(365 * v <= r - u < 365 * v + 365);
    assert(v == 4 * b + k);
}

/// The year of a day in a period of 400 years that starts on the first of
/// March.
proof fn lemma_year_of_era(doe: int)
    requires
        0 <= doe < 146_097,
    ensures
        ({
            let yoe = (doe - doe / 1460 + doe / 36524 - doe / 146_096) / 365;
            let doy = doe - (365 * yoe + yoe / 4 - yoe / 100);
            &&& 0 <= yoe < 400
            &&& 0 <= doy <= 365
            &&& doy == 365 ==> (yoe + 1) % 4 == 0 && ((yoe + 1) % 100 != 0 || (yoe + 1) % 400 == 0)
        }),
{
    if doe == 146_096 {
        assert(doe / 1460 == 100);
        assert(doe / 36524 == 4);
        assert(doe / 146_096 == 1);
    } else {
        let c = doe / 36524;
        let r = doe - 36524 * c;
        assert(0 <= c <= 3);
        lemma_year_of_century(c, r);
        let u = (24 * c + r) / 1460;
        let v = (r - u) / 365;
        assert(doe / 1460 == 25 * c + u);
        assert(doe / 146_096 == 0);
        let yoe = (doe - doe / 1460 + doe / 36524 - doe / 146_096) / 365;
        assert(doe - doe / 1460 + doe / 36524 == 36500 * c + r - u);
        assert(yoe == 100 * c + v);
        assert(yoe / 4 == 25 * c + v / 4);
        assert(yoe / 100 == c);
    }
}

proof fn lemma_month_starts(year: int)
    ensures
        ({
            let extra = if leap(year) {
                1int
            } else {
                0
            };
            &&& month_start(year, 1) == 0
            &&& month_start(year, 2) == 31
            &&& month_start(year, 3) == 59 + extra
            &&& month_start(year, 4) == 90 + extra
            &&& month_start(year, 5) == 120 + extra
            &&& month_start(year, 6) == 151 + extra
            &&& month_start(year, 7) == 181 + extra
            &&& month_start(year, 8) == 212 + extra
            &&& month_start(year, 9) == 243 + extra
            &&& month_start(year, 10) == 273 + extra
            &&& month_start(year, 11) == 304 + extra
            &&& month_start(year, 12) == 334 + extra
            &&& month_start(year, 13) == 365 + extra
        }),
{
    reveal_with_fuel(month_start, 14);
}

/// The month and day of the `doy`-th day from the first of March of the year
/// `y` on.
proof fn lemma_month_of_year(y: int, doy: int)
    requires
        0 <= doy <= 365,
        doy == 365 ==> leap(y + 1),
    ensures
        ({
            let mp = (5 * doy + 2) / 153;
            let d = doy - (153 * mp + 2) / 5 + 1;
            let m = if mp < 10 {
                mp + 3
            } else {
                mp - 9
            };
            let year = if m <= 2 {
                y + 1
            } else {
                y
            };
            &&& valid_date(year, m, d)
            &&& day_number(year, m, d) == year_start(y) + 59 + (if leap(y) {
                1int
            } else {
                0
            }) + doy
        }),
{
    let mp = (5 * doy + 2) / 153;
    lemma_month_starts(y);
    lemma_month_starts(y + 1);
    lemma_year_start(y);
    lemma_year_start(y + 1);
    lemma_leaps_step(y);
    assert(0 <= mp <= 11);
    if mp == 0 {
    } else if mp == 1 {
    } else if mp == 2 {
    } else if mp == 3 {
    } else if mp == 4 {
    } else if mp == 5 {
    } else if mp == 6 {
    } else if mp == 7 {
    } else if mp == 8 {
    } else if mp == 9 {
    } else if mp == 10 {
    } else {
    }
}

/// Digits with zeros in front, up to a width.
pub open spec fn padded(s: Seq<char>, width: int) -> Seq<char>
    decreases width - s.len(),
{
    if s.len() >= width {
        s
    } else {
        padded(seq!['0'] + s, width)
    }
}

/// A number with zeros in front, up to a width.
pub fn pad(n: u64, width: usize) -> (s: String)
    ensures
        s@ == padded(decimal(n as nat), width as int),
{
    let mut s = decimal_of(n);
    let mut count = crate::text::chars_of(s.as_str()).len();
    while count < width
        invariant
            count == s@.len(),
            padded(s@, width as int) == padded(decimal(n as nat), width as int),
        decreases width - count,
    {
        s = "0".to_owned().concat(s.as_str());
        proof {
            reveal_strlit("0");
            assert("0"@ =~= seq!['0']);
        }
        count += 1;
    }
    s
}

/// A year in four digits at least; a sign takes the place of one.
pub open spec fn year_text(year: int) -> Seq<char> {
    if year >= 0 {
        padded(decimal(year as nat), 4)
    } else {
        "-"@ + padded(decimal((-year) as nat), 3)
    }
}

/// A number in two digits at least.
pub open spec fn two_digits(n: int) -> Seq<char> {
    padded(decimal(n as nat), 2)
}

/// A point in time as text.
pub open spec fn time_text(year: int, month: int, day: int, hour: int, minute: int) -> Seq<char> {
    year_text(year) + "-"@ + two_digits(month) + "-"@ + two_digits(day) + " "@ + two_digits(hour)
        + ":"@ + two_digits(minute)
}

/// A point in time, by the calendar and the clock.
#[derive(Debug, Clone, Copy, PartialEq, Eq, Structural)]
pub struct ClockTime {
    pub year: i64,
    pub month: u32,
    pub day: u32,
    pub hour: u32,
    pub minute: u32,
}

/// A point in time as text.
pub fn format_time(t: &ClockTime) -> (s: String)
    requires
        t.year > i64::MIN,
    ensures
        s@ == time_text(
            t.year as int,
            t.month as int,
            t.day as int,
            t.hour as int,
            t.minute as int,
        ),
{
    let mut s = if t.year >= 0 {
        pad(t.year as u64, 4)
    } else {
        let digits = pad((-t.year) as u64, 3);
        "-".to_owned().concat(digits.as_str())
    };
    let month = pad(t.month as u64, 2);
    let day = pad(t.day as u64, 2);
    let hour = pad(t.hour as u64, 2);
    let minute = pad(t.minute as u64, 2);
    s.append("-");
    s.append(month.as_str());
    s.append("-");
    s.append(day.as_str());
    s.append(" ");
    s.append(hour.as_str());
    s.append(":");
    s.append(minute.as_str());
    s
}

/// Milliseconds of a day.
pub const DAY_MS: i64 = 86_400_000;

/// The day, hour and minute of a point in time in milliseconds since the start
/// of 1970.
pub open spec fn shows_time(ms: int, t: ClockTime) -> bool {
    &&& valid_date(t.year as int, t.month as int, t.day as int)
    &&& day_number(t.year as int, t.month as int, t.day as int) == ms / 86_400_000
    &&& t.hour == ms % 86_400_000 / 3_600_000
    &&& t.minute == ms % 3_600_000 / 60_000
}

/// Whole days, and the milliseconds that are left.
fn split_days(ms: i64) -> (r: (i64, i64))
    ensures
        r.0 == ms as int / 86_400_000,
        r.1 == ms as int % 86_400_000,
{
    let days: i64 = ms / DAY_MS;
    let rest: i64 = ms % DAY_MS;
    if rest < 0 {
        (days - 1, rest + DAY_MS)
    } else {
        (days, rest)
    }
}

/// Whole periods of 400 years, and the days that are left.
fn split_eras(z: i64) -> (r: (i64, i64))
    ensures
        z == r.0 * 146_097 + r.1,
        0 <= r.1 < 146_097,
{
    let era: i64 = z / 146_097;
    let doe: i64 = z % 146_097;
    if doe < 0 {
        (era - 1, doe + 146_097)
    } else {
        (era, doe)
    }
}

proof fn lemma_leap_in_era(era: int, yoe: int)
    requires
        (yoe + 1) % 4 == 0,
        (yoe + 1) % 100 != 0 || (yoe + 1) % 400 == 0,
    ensures
        leap(yoe + 400 * era + 1),
{
    let y = yoe + 400 * era + 1;
    lemma_mod_multiples_vanish(100 * era, yoe + 1, 4);
    lemma_mod_multiples_vanish(4 * era, yoe + 1, 100);
    lemma_mod_multiples_vanish(era, yoe + 1, 400);
    assert(y == 4 * (100 * era) + (yoe + 1));
    assert(y == 100 * (4 * era) + (yoe + 1));
    assert(y == 400 * era + (yoe + 1));
}

/// The date of the `doe`-th day of a period of 400 years that starts on the
/// first of March.
fn date_in_era(era: i64, doe: i64) -> (r: (i64, u32, u32))
    requires
        -1_000_000 < era < 1_000_000,
        0 <= doe < 146_097,
    ensures
        valid_date(r.0 as int, r.1 as int, r.2 as int),
        day_number(r.0 as int, r.1 as int, r.2 as int) == era * 146_097 + doe - 719_468,
        -400_000_000 < r.0 <= 400_000_000,
{
    let yoe: i64 = (doe - doe / 1460 + doe / 36524 - doe / 146_096) / 365;
    proof {
        lemma_year_of_era(doe as int);
    }
    let y: i64 = yoe + era * 400;
    let doy: i64 = doe - (365 * yoe + yoe / 4 - yoe / 100);
    proof {
        if doy == 365 {
            lemma_leap_in_era(era as int, yoe as int);
        }
        lemma_march(era as int, yoe as int);
        lemma_month_of_year(y as int, doy as int);
    }
    let mp: i64 = (5 * doy + 2) / 153;
    let d: i64 = doy - (153 * mp + 2) / 5 + 1;
    let m: i64 = if mp < 10 {
        mp + 3
    } else {
        mp - 9
    };
    let year: i64 = if m <= 2 {
        y + 1
    } else {
        y
    };
    (year, m as u32, d as u32)
}

/// The day of the calendar and the time of the clock in the zone without an
/// offset.
pub fn civil_clock(ms: i64) -> (t: ClockTime)
    ensures
        shows_time(ms as int, t),
        -400_000_000 < t.year <= 400_000_000,
{
    let (days, rest) = split_days(ms);
    let (era, doe) = split_eras(days + 719_468);
    let (year, month, day) = date_in_era(era, doe);
    ClockTime {
        year,
        month,
        day,
        hour: (rest / 3_600_000) as u32,
        minute: (rest % 3_600_000 / 60_000) as u32,
    }
}

/// A point in time as text, in the zone without an offset.
pub fn civil_time(ms: i64) -> (s: String)
    ensures
        exists|t: ClockTime|
            #[trigger] shows_time(ms as int, t) && s@ == time_text(
                t.year as int,
                t.month as int,
                t.day as int,
                t.hour as int,
                t.minute as int,
            ),
{
    let t = civil_clock(ms);
    format_time(&t)
}

/// A point in time as text: in the local zone where that is known, otherwise
/// eight hours ahead of the zone without an offset.
pub fn format_local_time(ms: i64, local: Option<ClockTime>) -> (s: String)
    requires
        local is None ==> ms + 28_800_000 <= i64::MAX,
        local is Some ==> (local->0).year > i64::MIN,
    ensures
        match local {
            Some(t) => s@ == time_text(
                t.year as int,
                t.month as int,
                t.day as int,
                t.hour as int,
                t.minute as int,
            ),
            None => exists|t: ClockTime|
                #[trigger] shows_time(ms + 28_800_000, t) && s@ == time_text(
                    t.year as int,
                    t.month as int,
                    t.day as int,
                    t.hour as int,
                    t.minute as int,
                ),
        },
{
    match local {
        Some(t) => format_time(&t),
        None => civil_time(ms + 28_800_000),
    }
}

proof fn lemma_years_apart(a: int, b: int)
    requires
        a < b,
    ensures
        year_start(a) + year_days(a) <= year_start(b),
    decreases b - a,
{
    lemma_year_start(a);
    lemma_year_start(a + 1);
    lemma_leaps_step(a);
    if a + 1 < b {
        lemma_years_apart(a + 1, b);
    }
}

/// A day has one date only, so a point in time is shown as one text only.
pub proof fn law_dates_are_unique(y1: int, m1: int, d1: int, y2: int, m2: int, d2: int)
    requires
        valid_date(y1, m1, d1),
        valid_date(y2, m2, d2),
        day_number(y1, m1, d1) == day_number(y2, m2, d2),
    ensures
        y1 == y2,
        m1 == m2,
        d1 == d2,
{
    lemma_month_starts(y1);
    lemma_month_starts(y2);
    if y1 < y2 {
        lemma_years_apart(y1, y2);
        lemma_day_in_year(y1, m1, d1);
        lemma_day_in_year(y2, m2, d2);
    } else if y2 < y1 {
        lemma_years_apart(y2, y1);
        lemma_day_in_year(y1, m1, d1);
        lemma_day_in_year(y2, m2, d2);
    } else if m1 < m2 {
        lemma_months_apart(y1, m1, m2);
    } else if m2 < m1 {
        lemma_months_apart(y1, m2, m1);
    }
}

proof fn lemma_months_apart(year: int, a: int, b: int)
    requires
        1 <= a < b <= 13,
    ensures
        month_start(year, a) + month_days(year, a) <= month_start(year, b),
    decreases b - a,
{
    if a + 1 < b {
        lemma_months_apart(year, a, b - 1);
    }
}

proof fn lemma_day_in_year(year: int, month: int, day: int)
    requires
        valid_date(year, month, day),
    ensures
        0 <= month_start(year, month) + day - 1 < year_days(year),
{
    lemma_month_starts(year);
    lemma_months_apart(year, month, 13);
    if month > 1 {
        lemma_months_apart(year, 1, month);
    }
}

/// Later days have later dates.
pub proof fn law_day_numbers_follow_the_calendar(year: int, month: int, day: int)
    requires
        valid_date(year, month, day),
    ensures
        day < month_days(year, month) ==> day_number(year, month, day + 1) == day_number(
            year,
            month,
            day,
        ) + 1,
        day == month_days(year, month) && month < 12 ==> day_number(year, month + 1, 1)
            == day_number(year, month, day) + 1,
        day == month_days(year, month) && month == 12 ==> day_number(year + 1, 1, 1) == day_number(
            year,
            month,
            day,
        ) + 1,
{
    lemma_month_starts(year);
    lemma_month_starts(year + 1);
    lemma_year_start(year);
    lemma_year_start(year + 1);
    lemma_leaps_step(year);
}

} // verus!
