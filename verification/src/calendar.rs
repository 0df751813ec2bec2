//! The proleptic Gregorian calendar: year and month lengths, and the day number
//! of a date.
use vstd::prelude::*;

verus! {

/// A year divisible by 4 is a leap year, but of the centuries only every fourth.
pub open spec fn is_leap(y: int) -> bool {
    y % 4 == 0 && (y % 100 != 0 || y % 400 == 0)
}

pub open spec fn year_len(y: int) -> int {
    if is_leap(y) {
        366
    } else {
        365
    }
}

pub open spec fn month_len(y: int, mo: int) -> int {
    if mo == 2 {
        if is_leap(y) {
            29
        } else {
            28
        }
    } else if mo == 4 || mo == 6 || mo == 9 || mo == 11 {
        30
    } else {
        31
    }
}

/// Days from 0000-01-01 to the first day of year `y`.
pub open spec fn days_before_year(y: nat) -> int
    decreases y,
{
    if y == 0 {
        0
    } else {
        days_before_year((y - 1) as nat) + year_len(y - 1)
    }
}

/// Days from the first day of year `y` to the first day of its month `mo`.
pub open spec fn days_before_month(y: int, mo: nat) -> int
    decreases mo,
{
    if mo <= 1 {
        0
    } else {
        days_before_month(y, (mo - 1) as nat) + month_len(y, mo - 1)
    }
}

/// Is this a date of the calendar, in a year from 0 on?
pub open spec fn valid_date(y: int, mo: int, d: int) -> bool {
    0 <= y && 1 <= mo <= 12 && 1 <= d <= month_len(y, mo)
}

/// The number of days from 1970-01-01 to the given date.
pub open spec fn day_number(y: int, mo: int, d: int) -> int {
    days_before_year(y as nat) + days_before_month(y, mo as nat) + d - 1 - 719_528
}

/// The leap days before a year, counted in closed form.
pub proof fn days_before_year_closed(y: nat)
    ensures
        days_before_year(y) == 365 * y + (y - 1) / 4 - (y - 1) / 100 + (y - 1) / 400 + 1,
    decreases y,
{
    if y > 0 {
        days_before_year_closed((y - 1) as nat);
        if y > 1 {
            leap_step(y - 1);
        }
    }
}

/// A year adds a leap day to the count exactly when it is a leap year.
proof fn leap_step(y: int)
    requires
        y >= 1,
    ensures
        y / 4 - y / 100 + y / 400 == (y - 1) / 4 - (y - 1) / 100 + (y - 1) / 400 + if is_leap(y) {
            1int
        } else {
            0int
        },
{
    assert(y / 4 == (y - 1) / 4 + if y % 4 == 0 { 1int } else { 0int });
    assert(y / 100 == (y - 1) / 100 + if y % 100 == 0 { 1int } else { 0int });
    assert(y / 400 == (y - 1) / 400 + if y % 400 == 0 { 1int } else { 0int });
}

/// The month starts of a year, spelled out.
pub proof fn month_starts(y: int)
    ensures
        days_before_month(y, 1) == 0,
        days_before_month(y, 2) == 31,
        days_before_month(y, 3) == 59 + (year_len(y) - 365),
        days_before_month(y, 4) == 90 + (year_len(y) - 365),
        days_before_month(y, 5) == 120 + (year_len(y) - 365),
        days_before_month(y, 6) == 151 + (year_len(y) - 365),
        days_before_month(y, 7) == 181 + (year_len(y) - 365),
        days_before_month(y, 8) == 212 + (year_len(y) - 365),
        days_before_month(y, 9) == 243 + (year_len(y) - 365),
        days_before_month(y, 10) == 273 + (year_len(y) - 365),
        days_before_month(y, 11) == 304 + (year_len(y) - 365),
        days_before_month(y, 12) == 334 + (year_len(y) - 365),
        days_before_month(y, 13) == year_len(y),
{
    reveal_with_fuel(days_before_month, 14);
}

/// Where the years of a 400-year cycle begin, counted from a first of March.
pub open spec fn cycle_year_start(yoe: int) -> int {
    365 * yoe + yoe / 4 - yoe / 100
}

/// The year of a 400-year cycle that day `doe` of the cycle falls in.
pub open spec fn cycle_year(doe: int) -> int {
    (doe - doe / 1_460 + doe / 36_524 - doe / 146_096) / 365
}

/// `cycle_year` finds the year: the day lies in it, and day 365 of a year that
/// begins in March is the leap day of the next calendar year.
pub proof fn cycle_year_correct(doe: int)
    requires
        0 <= doe <= 146_096,
    ensures
        0 <= cycle_year(doe) <= 399,
        0 <= doe - cycle_year_start(cycle_year(doe)) <= 365,
        doe - cycle_year_start(cycle_year(doe)) == 365 ==> is_leap(cycle_year(doe) + 1),
{
    let c = doe / 36_524;
    assert(0 <= c <= 4);
    if c == 0 {
        cycle_year_in_century(doe, 0);
    } else if c == 1 {
        cycle_year_in_century(doe, 1);
    } else if c == 2 {
        cycle_year_in_century(doe, 2);
    } else if c == 3 {
        cycle_year_in_century(doe, 3);
    }
}

proof fn cycle_year_in_century(doe: int, c: int)
    requires
        0 <= c <= 3,
        36_524 * c <= doe < 36_524 * (c + 1),
    ensures
        100 * c <= cycle_year(doe) <= 100 * c + 99,
        0 <= doe - cycle_year_start(cycle_year(doe)) <= 365,
        doe - cycle_year_start(cycle_year(doe)) == 365 ==> is_leap(cycle_year(doe) + 1),
{
    let a = doe / 1_460;
    let t = doe - a + c;
    let y = t / 365;
    let q = y / 4;
    assert(doe / 36_524 == c);
    assert(doe / 146_096 == 0);
    assert(cycle_year(doe) == y);
    assert(y / 100 == c);
}

/// The day of a date within its year.
pub proof fn day_of_year_bounds(y: int, mo: int, d: int)
    requires
        valid_date(y, mo, d),
    ensures
        0 <= days_before_month(y, mo as nat) + d - 1 < year_len(y),
        days_before_month(y, (mo + 1) as nat) == days_before_month(y, mo as nat) + month_len(y, mo),
{
    month_starts(y);
}

proof fn days_before_year_monotone(a: nat, b: nat)
    requires
        a < b,
    ensures
        days_before_year(a) + year_len(a as int) <= days_before_year(b),
    decreases b,
{
    if b > a + 1 {
        days_before_year_monotone(a, (b - 1) as nat);
    }
}

proof fn days_before_month_monotone(y: int, a: nat, b: nat)
    requires
        1 <= a < b,
    ensures
        days_before_month(y, a) + month_len(y, a as int) <= days_before_month(y, b),
    decreases b,
{
    if b > a + 1 {
        days_before_month_monotone(y, a, (b - 1) as nat);
    }
}

/// A day number belongs to one date only.
pub proof fn day_number_injective(y: int, mo: int, d: int, y2: int, mo2: int, d2: int)
    requires
        valid_date(y, mo, d),
        valid_date(y2, mo2, d2),
        day_number(y, mo, d) == day_number(y2, mo2, d2),
    ensures
        y == y2,
        mo == mo2,
        d == d2,
{
    day_of_year_bounds(y, mo, d);
    day_of_year_bounds(y2, mo2, d2);
    if y < y2 {
        days_before_year_monotone(y as nat, y2 as nat);
    } else if y2 < y {
        days_before_year_monotone(y2 as nat, y as nat);
    } else if mo < mo2 {
        days_before_month_monotone(y, mo as nat, mo2 as nat);
    } else if mo2 < mo {
        days_before_month_monotone(y, mo2 as nat, mo as nat);
    }
}

/// The date that follows a date.
pub open spec fn next_date(y: int, mo: int, d: int) -> (int, int, int) {
    if d < month_len(y, mo) {
        (y, mo, d + 1)
    } else if mo < 12 {
        (y, mo + 1, 1)
    } else {
        (y + 1, 1, 1)
    }
}

/// Day numbers count the dates one by one: the date after a date has the next
/// day number.
pub proof fn day_number_counts_dates(y: int, mo: int, d: int)
    requires
        valid_date(y, mo, d),
    ensures
        ({
            let (y2, mo2, d2) = next_date(y, mo, d);
            valid_date(y2, mo2, d2) && day_number(y2, mo2, d2) == day_number(y, mo, d) + 1
        }),
{
    day_of_year_bounds(y, mo, d);
    month_starts(y);
    month_starts(y + 1);
}

/// The first and the last day of the years 0 to 9999, and the epoch.
pub proof fn day_number_anchors()
    ensures
        day_number(0, 1, 1) == -719_528,
        day_number(1970, 1, 1) == 0,
        day_number(9999, 12, 31) == 2_932_896,
{
    days_before_year_closed(0);
    days_before_year_closed(1970);
    days_before_year_closed(9999);
    month_starts(0);
    month_starts(1970);
    month_starts(9999);
}

/// The month of a day counted from the first of March, where March is month 0.
pub open spec fn march_month(doy: int) -> int {
    (5 * doy + 2) / 153
}

/// The day of the month of a day counted from the first of March.
pub open spec fn march_day(doy: int) -> int {
    doy - (153 * march_month(doy) + 2) / 5 + 1
}

/// The calendar month of a month counted from March.
pub open spec fn calendar_month(mp: int) -> int {
    if mp < 10 {
        mp + 3
    } else {
        mp - 9
    }
}

/// Day `doy` of a year that begins in March is the date that `march_month` and
/// `march_day` give, in calendar year `y` up to December and `y + 1` from January
/// on.
proof fn march_date(y: int, doy: int)
    requires
        0 <= doy <= 365,
        doy == 365 ==> is_leap(y + 1),
    ensures
        0 <= march_month(doy) <= 11,
        ({
            let mo = calendar_month(march_month(doy));
            let d = march_day(doy);
            let cy = if mo <= 2 { y + 1 } else { y };
            &&& 1 <= mo <= 12
            &&& 1 <= d <= month_len(cy, mo)
            &&& mo > 2 ==> days_before_month(y, mo as nat) + d - 1 == doy + 59 + (year_len(y) - 365)
            &&& mo <= 2 ==> days_before_month(y + 1, mo as nat) + d - 1 == doy - 306
        }),
{
    let mp = march_month(doy);
    month_starts(y);
    month_starts(y + 1);
    assert(mp == 0 || mp == 1 || mp == 2 || mp == 3 || mp == 4 || mp == 5 || mp == 6 || mp == 7 || mp
        == 8 || mp == 9 || mp == 10 || mp == 11);
}

/// The date with day number `era * 146_097 + cycle_year_start(yoe) + doy - 719_468`.
pub proof fn cycle_date(era: int, yoe: int, doy: int)
    requires
        era >= -1,
        0 <= yoe <= 399,
        0 <= doy <= 365,
        doy == 365 ==> is_leap(yoe + 1),
        era * 146_097 + cycle_year_start(yoe) + doy >= -60,
    ensures
        0 <= march_month(doy) <= 11,
        ({
            let mo = calendar_month(march_month(doy));
            let d = march_day(doy);
            let y = yoe + era * 400 + if mo <= 2 { 1int } else { 0int };
            &&& valid_date(y, mo, d)
            &&& day_number(y, mo, d) == era * 146_097 + cycle_year_start(yoe) + doy - 719_468
        }),
{
    let my = yoe + era * 400;
    assert(my / 4 == yoe / 4 + era * 100);
    assert(my / 100 == yoe / 100 + era * 4);
    assert(my / 400 == era);
    assert(is_leap(my + 1) == is_leap(yoe + 1)) by {
        assert((my + 1) % 4 == (yoe + 1) % 4);
        assert((my + 1) % 100 == (yoe + 1) % 100);
        assert((my + 1) % 400 == (yoe + 1) % 400);
    }
    march_date(my, doy);
    if era == -1 {
        assert(yoe == 399);
        assert(doy >= 306);
    }
    let mo = calendar_month(march_month(doy));
    if mo <= 2 {
        days_before_year_closed((my + 1) as nat);
    } else {
        days_before_year_closed(my as nat);
        days_before_year_closed((my + 1) as nat);
    }
}

/// The day numbers of the years 0 to 9999 are those from the first day of year 0
/// to the last of year 9999.
pub proof fn year_in_range(y: int, mo: int, d: int)
    requires
        valid_date(y, mo, d),
    ensures
        -719_528 <= day_number(y, mo, d),
        day_number(y, mo, d) <= 2_932_896 <==> y <= 9999,
{
    day_number_anchors();
    day_of_year_bounds(y, mo, d);
    month_starts(9999);
    if y > 9999 {
        days_before_year_monotone(9999, y as nat);
    } else if y < 9999 {
        days_before_year_monotone(y as nat, 9999);
    }
    if y > 0 {
        days_before_year_monotone(0, y as nat);
    }
}

} // verus!
