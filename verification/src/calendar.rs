//! The proleptic Gregorian calendar, counted in days from 1970-01-01.

use vstd::prelude::*;

verus! {

/// A calendar date.
pub struct Civil {
    pub year: int,
    pub month: int,
    pub day: int,
}

/// Whether `y` is a leap year.
pub open spec fn is_leap(y: int) -> bool {
    y % 4 == 0 && (y % 100 != 0 || y % 400 == 0)
}

/// How many days the year `y` has.
pub open spec fn year_days(y: int) -> int {
    if is_leap(y) {
        366
    } else {
        365
    }
}

/// How many days the month `m` of the year `y` has.
pub open spec fn month_days(y: int, m: int) -> int {
    if m == 2 {
        if is_leap(y) {
            29
        } else {
            28
        }
    } else if m == 4 || m == 6 || m == 9 || m == 11 {
        30
    } else {
        31
    }
}

/// How many leap years lie in the years 1 to `y - 1`.
pub open spec fn leaps_before(y: int) -> int {
    (y - 1) / 4 - (y - 1) / 100 + (y - 1) / 400
}

/// The day on which the year `y` begins, counted from 1970-01-01.
pub open spec fn year_start(y: int) -> int {
    365 * (y - 1970) + leaps_before(y) - leaps_before(1970)
}

/// How many days of the year `y` lie before its month `m`.
pub open spec fn month_start(y: int, m: int) -> int {
    let leap_day: int = if m > 2 && is_leap(y) {
        1
    } else {
        0
    };
    leap_day + (if m == 1 {
        0int
    } else if m == 2 {
        31
    } else if m == 3 {
        59
    } else if m == 4 {
        90
    } else if m == 5 {
        120
    } else if m == 6 {
        151
    } else if m == 7 {
        181
    } else if m == 8 {
        212
    } else if m == 9 {
        243
    } else if m == 10 {
        273
    } else if m == 11 {
        304
    } else {
        334
    })
}

/// The day that `c` is, counted from 1970-01-01.
pub open spec fn day_number(c: Civil) -> int {
    year_start(c.year) + month_start(c.year, c.month) + c.day - 1
}

/// Whether `c` exists in the calendar, from 1970 on.
pub open spec fn is_date(c: Civil) -> bool {
    &&& c.year >= 1970
    &&& 1 <= c.month <= 12
    &&& 1 <= c.day <= month_days(c.year, c.month)
}

/// The date that the day `n` is.
pub open spec fn date_of(n: int) -> Civil {
    choose|c: Civil| is_date(c) && #[trigger] day_number(c) == n
}

/// A year begins when the one before it ends.
pub proof fn lemma_year_start(y: int)
    ensures
        year_start(1970) == 0,
        year_start(y + 1) == year_start(y) + year_days(y),
{
    assert(y / 4 - (y - 1) / 4 == if y % 4 == 0 { 1int } else { 0int });
    assert(y / 100 - (y - 1) / 100 == if y % 100 == 0 { 1int } else { 0int });
    assert(y / 400 - (y - 1) / 400 == if y % 400 == 0 { 1int } else { 0int });
}

/// A month begins when the one before it ends, and the twelfth ends with the year.
pub proof fn law_months_fill_the_year(y: int, m: int)
    requires
        1 <= m <= 12,
    ensures
        month_start(y, 1) == 0,
        m < 12 ==> month_start(y, m + 1) == month_start(y, m) + month_days(y, m),
        m == 12 ==> month_start(y, m) + month_days(y, m) == year_days(y),
{
}

/// Years begin in order.
pub proof fn lemma_year_start_grows(a: int, b: int)
    requires
        1970 <= a <= b,
    ensures
        year_start(a) + 365 * (b - a) <= year_start(b),
    decreases b - a,
{
    if a < b {
        lemma_year_start_grows(a, b - 1);
        lemma_year_start(b - 1);
    }
}

/// A day of a year comes before the next year begins.
pub proof fn lemma_day_in_year(c: Civil)
    requires
        is_date(c),
    ensures
        year_start(c.year) <= day_number(c) < year_start(c.year + 1),
        0 <= month_start(c.year, c.month),
{
    lemma_year_start(c.year);
}

/// Whether `a` comes before `b`, by year, then month, then day.
pub open spec fn earlier(a: Civil, b: Civil) -> bool {
    a.year < b.year || (a.year == b.year && (a.month < b.month || (a.month == b.month && a.day
        < b.day)))
}

/// Dates are numbered in the order of the calendar.
pub proof fn lemma_day_number_grows(a: Civil, b: Civil)
    requires
        is_date(a),
        is_date(b),
        earlier(a, b),
    ensures
        day_number(a) < day_number(b),
{
    lemma_day_in_year(a);
    lemma_day_in_year(b);
    if a.year < b.year {
        lemma_year_start_grows(a.year + 1, b.year);
    }
}

/// The date of the day that `c` is, is `c`.
pub proof fn lemma_date_of(c: Civil)
    requires
        is_date(c),
    ensures
        date_of(day_number(c)) == c,
{
    let d = date_of(day_number(c));
    assert(is_date(d) && day_number(d) == day_number(c));
    if earlier(d, c) {
        lemma_day_number_grows(d, c);
    } else if earlier(c, d) {
        lemma_day_number_grows(c, d);
    }
}

/// The year of the era that the day `doe` of a 400-year era lies in, counted from
/// March 1st.
proof fn lemma_year_of_era(doe: int)
    requires
        0 <= doe < 146097,
    ensures
        ({
            let yoe = (doe - doe / 1460 + doe / 36524 - doe / 146096) / 365;
            let doy = doe - (365 * yoe + yoe / 4 - yoe / 100);
            &&& 0 <= yoe < 400
            &&& 0 <= doy <= 365
            &&& doy == 365 ==> is_leap(yoe + 1)
        }),
{
}

/// The days of whole eras and years before the March-based year `y`, era by era.
proof fn lemma_era(era: int, yoe: int)
    requires
        0 <= yoe < 400,
    ensures
        ({
            let y = era * 400 + yoe;
            &&& era * 146097 + 365 * yoe + yoe / 4 - yoe / 100 == 365 * y + y / 4 - y / 100 + y
                / 400
            &&& is_leap(yoe + 1) == is_leap(y + 1)
        }),
{
    let y = era * 400 + yoe;
    assert(y / 4 == era * 100 + yoe / 4);
    assert(y / 100 == era * 4 + yoe / 100);
    assert(y / 400 == era);
}

/// The day of the March-based year `y` on which its month `mp` begins.
proof fn lemma_march_month(y: int, mp: int)
    requires
        0 <= mp < 12,
    ensures
        ({
            let m = if mp < 10 {
                mp + 3
            } else {
                mp - 9
            };
            let year = if m <= 2 {
                y + 1
            } else {
                y
            };
            365 * y + y / 4 - y / 100 + y / 400 + (153 * mp + 2) / 5 - 719468 == year_start(year)
                + month_start(year, m)
        }),
{
    assert(leaps_before(1970) == 477);
    assert(year_start(y + 1) == 365 * y + y / 4 - y / 100 + y / 400 + 306 - 719468);
    if mp < 10 {
        lemma_year_start(y);
        assert(year_start(y) == year_start(y + 1) - year_days(y));
        assert(mp == 0 || mp == 1 || mp == 2 || mp == 3 || mp == 4 || mp == 5 || mp == 6 || mp == 7
            || mp == 8 || mp == 9);
    }
}

/// The month and day of the day `doy` of a March-based year.
proof fn lemma_day_of_month(doy: int)
    requires
        0 <= doy <= 365,
    ensures
        ({
            let mp = (5 * doy + 2) / 153;
            let d = doy - (153 * mp + 2) / 5 + 1;
            &&& 0 <= mp < 12
            &&& 1 <= d <= 31
            &&& (mp == 1 || mp == 3 || mp == 6 || mp == 8) ==> d <= 30
            &&& mp == 11 ==> d <= 29
            &&& mp == 11 && d == 29 ==> doy == 365
        }),
{
}

/// Every day from 1970-01-01 on is a date.
pub proof fn lemma_every_day(n: int)
    requires
        n >= 0,
    ensures
        is_date(date_of(n)),
        day_number(date_of(n)) == n,
{
    let z = n + 719468;
    let era = z / 146097;
    let doe = z - era * 146097;
    lemma_year_of_era(doe);
    let yoe = (doe - doe / 1460 + doe / 36524 - doe / 146096) / 365;
    let doy = doe - (365 * yoe + yoe / 4 - yoe / 100);
    lemma_civil(n, era, yoe, doy);
}

/// The date that the parts of a day's era come to.
proof fn lemma_civil(n: int, era: int, yoe: int, doy: int)
    requires
        n >= 0,
        era >= 0,
        0 <= yoe < 400,
        0 <= doy <= 365,
        doy == 365 ==> is_leap(yoe + 1),
        n + 719468 == era * 146097 + 365 * yoe + yoe / 4 - yoe / 100 + doy,
    ensures
        ({
            let y = yoe + era * 400;
            let mp = (5 * doy + 2) / 153;
            let d = doy - (153 * mp + 2) / 5 + 1;
            let m = if mp < 10 {
                mp + 3
            } else {
                mp - 9
            };
            let c = Civil {
                year: if m <= 2 {
                    y + 1
                } else {
                    y
                },
                month: m,
                day: d,
            };
            &&& 0 <= mp < 12
            &&& (153 * mp + 2) / 5 <= doy
            &&& is_date(c)
            &&& day_number(c) == n
            &&& date_of(n) == c
        }),
{
    let y = yoe + era * 400;
    let mp = (5 * doy + 2) / 153;
    let d = doy - (153 * mp + 2) / 5 + 1;
    let m = if mp < 10 {
        mp + 3
    } else {
        mp - 9
    };
    let c = Civil {
        year: if m <= 2 {
            y + 1
        } else {
            y
        },
        month: m,
        day: d,
    };
    lemma_day_of_month(doy);
    lemma_era(era, yoe);
    lemma_march_month(y, mp);
    assert(day_number(c) == n);
    lemma_from_1970(c);
    assert(is_date(c));
    lemma_date_of(c);
}

/// Days since 1970-01-01 to year, month and day.
pub fn civil_from_days(days: i64) -> (r: (i64, u32, u32))
    requires
        0 <= days <= 0x1000_0000_0000,
    ensures
        is_date((Civil { year: r.0 as int, month: r.1 as int, day: r.2 as int })),
        date_of(days as int) == (Civil { year: r.0 as int, month: r.1 as int, day: r.2 as int }),
{
    let z: i64 = days + 719_468;
    let era: i64 = z / 146_097;
    let doe: u64 = (z - era * 146_097) as u64;
    proof {
        lemma_year_of_era(doe as int);
    }
    let yoe: u64 = (doe - doe / 1460 + doe / 36_524 - doe / 146_096) / 365;
    let y: i64 = yoe as i64 + era * 400;
    let doy: u64 = doe - (365 * yoe + yoe / 4 - yoe / 100);
    proof {
        lemma_civil(days as int, era as int, yoe as int, doy as int);
    }
    let mp: u64 = (5 * doy + 2) / 153;
    let d: u32 = (doy - (153 * mp + 2) / 5 + 1) as u32;
    let m: u32 = if mp < 10 {
        (mp + 3) as u32
    } else {
        (mp - 9) as u32
    };
    (if m <= 2 {
        y + 1
    } else {
        y
    }, m, d)
}

/// A day from 1970-01-01 on lies in a year from 1970 on.
proof fn lemma_from_1970(c: Civil)
    requires
        1 <= c.month <= 12,
        1 <= c.day <= 31,
        c.year >= 0,
    ensures
        c.year < 1970 <==> day_number(c) < 0,
{
    if c.year < 1970 {
        assert(year_start(c.year) <= -year_days(c.year)) by {
            lemma_before_1970(c.year);
        }
    } else {
        lemma_year_start_grows(1970, c.year);
    }
}

/// A year before 1970 ends by the time 1970 begins.
proof fn lemma_before_1970(y: int)
    requires
        0 <= y < 1970,
    ensures
        year_start(y) + year_days(y) <= 0,
    decreases 1970 - y,
{
    lemma_year_start(y);
    if y < 1969 {
        lemma_before_1970(y + 1);
    }
}

/// Year, month and day to days since 1970-01-01; a negative number for a day
/// before that.
pub fn days_from_civil(y: i64, m: u32, d: u32) -> (r: i64)
    requires
        0 <= y <= 9999,
        1 <= m <= 12,
        1 <= d <= 31,
    ensures
        r == day_number((Civil { year: y as int, month: m as int, day: d as int })),
        r < 0 <==> y < 1970,
        r < 4_000_000,
{
    let ghost c = Civil { year: y as int, month: m as int, day: d as int };
    let y: i64 = if m <= 2 {
        y - 1
    } else {
        y
    };
    let era: i64 = if y >= 0 {
        y / 400
    } else {
        -1
    };
    let yoe: u64 = (y - era * 400) as u64;
    let mp: u64 = if m > 2 {
        (m - 3) as u64
    } else {
        (m + 9) as u64
    };
    let doy: u64 = (153 * mp + 2) / 5 + d as u64 - 1;
    let doe: u64 = yoe * 365 + yoe / 4 - yoe / 100 + doy;
    proof {
        lemma_era(era as int, yoe as int);
        lemma_march_month(y as int, mp as int);
        lemma_from_1970(c);
    }
    era * 146_097 + doe as i64 - 719_468
}

/// Days follow on each other: the day after one is the next of its month, or the first of
/// the next month, or the first of the next year; and the first of all is that of 1970.
pub proof fn law_days_follow_on_each_other(c: Civil)
    requires
        is_date(c),
    ensures
        day_number(Civil { year: 1970, month: 1, day: 1 }) == 0,
        c.day < month_days(c.year, c.month) ==> day_number(Civil { day: c.day + 1, ..c })
            == day_number(c) + 1,
        c.day == month_days(c.year, c.month) && c.month < 12 ==> day_number(
            Civil { month: c.month + 1, day: 1, ..c },
        ) == day_number(c) + 1,
        c.day == month_days(c.year, c.month) && c.month == 12 ==> day_number(
            Civil { year: c.year + 1, month: 1, day: 1 },
        ) == day_number(c) + 1,
{
    lemma_year_start(c.year);
    law_months_fill_the_year(c.year, c.month);
}

/// How long the months are, by the rule of leap years: every fourth, but of the hundredth
/// ones only every fourth.
pub proof fn law_month_lengths(y: int, m: int)
    requires
        1 <= m <= 12,
    ensures
        m == 2 ==> month_days(y, m) == (if (y % 4 == 0 && y % 100 != 0) || y % 400 == 0 {
            29int
        } else {
            28
        }),
        m == 4 || m == 6 || m == 9 || m == 11 ==> month_days(y, m) == 30,
        m == 1 || m == 3 || m == 5 || m == 7 || m == 8 || m == 10 || m == 12 ==> month_days(y, m)
            == 31,
{
}

} // verus!
