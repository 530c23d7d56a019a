use vstd::prelude::*;

verus! {

/// Days from 0001-01-01 to 1970-01-01 in the proleptic Gregorian calendar.
pub const DAYS_TO_UNIX_EPOCH: i64 = 719_162;

pub const MICROS_PER_SECOND: i64 = 1_000_000;

pub const MICROS_PER_DAY: i64 = 86_400_000_000;

/// First year that has no four-digit form.
pub const YEAR_LIMIT: i64 = 10_000;

pub open spec fn is_leap_year(year: int) -> bool {
    year % 4 == 0 && (year % 100 != 0 || year % 400 == 0)
}

/// Days of `year` that lie before the first day of `month`; `month` 13
/// stands for the start of the next year.
pub open spec fn days_before_month(year: int, month: int) -> int {
    let leap: int = if is_leap_year(year) && month > 2 { 1 } else { 0 };
    let base: int = if month <= 1 {
        0
    } else if month == 2 {
        31
    } else if month == 3 {
        59
    } else if month == 4 {
        90
    } else if month == 5 {
        120
    } else if month == 6 {
        151
    } else if month == 7 {
        181
    } else if month == 8 {
        212
    } else if month == 9 {
        243
    } else if month == 10 {
        273
    } else if month == 11 {
        304
    } else if month == 12 {
        334
    } else {
        365
    };
    base + leap
}

pub open spec fn days_in_month(year: int, month: int) -> int {
    days_before_month(year, month + 1) - days_before_month(year, month)
}

/// Leap years among the years `1 ..= year - 1`.
pub open spec fn leap_years_before(year: int) -> int {
    (year - 1) / 4 - (year - 1) / 100 + (year - 1) / 400
}

/// Days from 0001-01-01 to the first day of `year`.
pub open spec fn days_before_year(year: int) -> int {
    365 * (year - 1) + leap_years_before(year)
}

pub open spec fn is_date(year: int, month: int, day: int) -> bool {
    &&& 1 <= year < YEAR_LIMIT
    &&& 1 <= month <= 12
    &&& 1 <= day <= days_in_month(year, month)
}

/// Days from 1970-01-01 to the given date; negative before it.
pub open spec fn days_from_civil(year: int, month: int, day: int) -> int {
    days_before_year(year) + days_before_month(year, month) + (day - 1) - DAYS_TO_UNIX_EPOCH
}

/// The year in which the day `days` (counted from 1970-01-01) falls.
pub open spec fn year_of_day(days: int) -> int {
    choose|year: int|
        1 <= year && #[trigger] days_before_year(year) <= days + DAYS_TO_UNIX_EPOCH && days
            + DAYS_TO_UNIX_EPOCH < days_before_year(year + 1)
}

/// The month in which the day `days` falls.
pub open spec fn month_of_day(days: int) -> int {
    let year = year_of_day(days);
    let in_year = days + DAYS_TO_UNIX_EPOCH - days_before_year(year);
    if in_year < days_before_month(year, 2) {
        1
    } else if in_year < days_before_month(year, 3) {
        2
    } else if in_year < days_before_month(year, 4) {
        3
    } else if in_year < days_before_month(year, 5) {
        4
    } else if in_year < days_before_month(year, 6) {
        5
    } else if in_year < days_before_month(year, 7) {
        6
    } else if in_year < days_before_month(year, 8) {
        7
    } else if in_year < days_before_month(year, 9) {
        8
    } else if in_year < days_before_month(year, 10) {
        9
    } else if in_year < days_before_month(year, 11) {
        10
    } else if in_year < days_before_month(year, 12) {
        11
    } else {
        12
    }
}

/// The day of the month on which the day `days` falls.
pub open spec fn day_of_month(days: int) -> int {
    let year = year_of_day(days);
    days + DAYS_TO_UNIX_EPOCH - days_before_year(year) - days_before_month(
        year,
        month_of_day(days),
    ) + 1
}

/// From one number to the next the quotient by 4, 100 or 400 grows by one
/// where the next is a multiple, and stays else.
proof fn lemma_quotient_step(n: int)
    requires
        1 <= n,
    ensures
        n / 4 - (n - 1) / 4 == if n % 4 == 0 {
            1int
        } else {
            0int
        },
        n / 100 - (n - 1) / 100 == if n % 100 == 0 {
            1int
        } else {
            0int
        },
        n / 400 - (n - 1) / 400 == if n % 400 == 0 {
            1int
        } else {
            0int
        },
{
    assert(n / 4 - (n - 1) / 4 == if n % 4 == 0 { 1int } else { 0int }) by {
        vstd::arithmetic::div_mod::lemma_fundamental_div_mod(n, 4);
        vstd::arithmetic::div_mod::lemma_fundamental_div_mod(n - 1, 4);
    }
    assert(n / 100 - (n - 1) / 100 == if n % 100 == 0 { 1int } else { 0int }) by {
        vstd::arithmetic::div_mod::lemma_fundamental_div_mod(n, 100);
        vstd::arithmetic::div_mod::lemma_fundamental_div_mod(n - 1, 100);
    }
    assert(n / 400 - (n - 1) / 400 == if n % 400 == 0 { 1int } else { 0int }) by {
        vstd::arithmetic::div_mod::lemma_fundamental_div_mod(n, 400);
        vstd::arithmetic::div_mod::lemma_fundamental_div_mod(n - 1, 400);
    }
}

/// A year has 365 or 366 days.
pub proof fn lemma_year_length(year: int)
    requires
        1 <= year,
    ensures
        days_before_year(year + 1) - days_before_year(year) == if is_leap_year(year) {
            366int
        } else {
            365int
        },
{
    lemma_quotient_step(year);
    assert(year % 400 == 0 ==> year % 100 == 0) by {
        vstd::arithmetic::div_mod::lemma_fundamental_div_mod(year, 400);
        vstd::arithmetic::div_mod::lemma_fundamental_div_mod(year, 100);
    }
    assert(year % 100 == 0 ==> year % 4 == 0) by {
        vstd::arithmetic::div_mod::lemma_fundamental_div_mod(year, 100);
        vstd::arithmetic::div_mod::lemma_fundamental_div_mod(year, 4);
    }
}

/// The first day of a later year is not before the end of an earlier one.
pub proof fn lemma_years_ordered(a: int, b: int)
    requires
        1 <= a < b,
    ensures
        days_before_year(a + 1) <= days_before_year(b),
    decreases b - a,
{
    if a + 1 < b {
        lemma_years_ordered(a, b - 1);
        lemma_year_length(b - 1);
    }
}

/// At most one year holds a given day.
pub proof fn lemma_year_of_day_unique(days: int, year: int)
    requires
        1 <= year,
        days_before_year(year) <= days + DAYS_TO_UNIX_EPOCH < days_before_year(year + 1),
    ensures
        year_of_day(days) == year,
{
    let chosen = year_of_day(days);
    if chosen < year {
        lemma_years_ordered(chosen, year);
    } else if year < chosen {
        lemma_years_ordered(year, chosen);
    }
}

/// A date is found again from its day number.
pub proof fn lemma_civil_of_days_from_civil(year: int, month: int, day: int)
    requires
        is_date(year, month, day),
    ensures
        year_of_day(days_from_civil(year, month, day)) == year,
        month_of_day(days_from_civil(year, month, day)) == month,
        day_of_month(days_from_civil(year, month, day)) == day,
{
    lemma_year_length(year);
    lemma_year_of_day_unique(days_from_civil(year, month, day), year);
}

fn leap_year(year: i64) -> (r: bool)
    requires
        1 <= year <= YEAR_LIMIT,
    ensures
        r == is_leap_year(year as int),
{
    year % 4 == 0 && (year % 100 != 0 || year % 400 == 0)
}

pub(crate) fn month_start(year: i64, month: i64) -> (r: i64)
    requires
        1 <= year <= YEAR_LIMIT,
        1 <= month <= 13,
    ensures
        r == days_before_month(year as int, month as int),
{
    let leap: i64 = if month > 2 && leap_year(year) {
        1
    } else {
        0
    };
    let base: i64 = if month == 1 {
        0
    } else if month == 2 {
        31
    } else if month == 3 {
        59
    } else if month == 4 {
        90
    } else if month == 5 {
        120
    } else if month == 6 {
        151
    } else if month == 7 {
        181
    } else if month == 8 {
        212
    } else if month == 9 {
        243
    } else if month == 10 {
        273
    } else if month == 11 {
        304
    } else if month == 12 {
        334
    } else {
        365
    };
    base + leap
}

pub(crate) fn year_start(year: i64) -> (r: i64)
    requires
        1 <= year <= YEAR_LIMIT,
    ensures
        r == days_before_year(year as int),
        0 <= r <= 3_652_059,
{
    let k: i64 = year - 1;
    365 * k + (k / 4 - k / 100 + k / 400)
}

/// The day number of a date, or `None` where the three numbers name no
/// date of the years 1 to 9999.
pub fn civil_to_days(year: i64, month: i64, day: i64) -> (r: Option<i64>)
    ensures
        r is Some <==> is_date(year as int, month as int, day as int),
        r matches Some(days) ==> days == days_from_civil(year as int, month as int, day as int),
{
    if year < 1 || year >= YEAR_LIMIT || month < 1 || month > 12 || day < 1 {
        return None;
    }
    let start: i64 = month_start(year, month);
    let next: i64 = month_start(year, month + 1);
    if day > next - start {
        return None;
    }
    Some(year_start(year) + start + (day - 1) - DAYS_TO_UNIX_EPOCH)
}

/// Year, month and day of a day number within the years 1 to 9999.
pub fn days_to_civil(days: i64) -> (r: (i64, i64, i64))
    requires
        0 <= days + DAYS_TO_UNIX_EPOCH < days_before_year(YEAR_LIMIT as int),
    ensures
        r.0 == year_of_day(days as int),
        r.1 == month_of_day(days as int),
        r.2 == day_of_month(days as int),
        is_date(r.0 as int, r.1 as int, r.2 as int),
        days_from_civil(r.0 as int, r.1 as int, r.2 as int) == days,
{
    let n: i64 = days + DAYS_TO_UNIX_EPOCH;
    let mut year: i64 = n / 365 + 1;
    if year > YEAR_LIMIT {
        year = YEAR_LIMIT;
    }
    while year_start(year) > n
        invariant
            1 <= year <= YEAR_LIMIT,
            0 <= n,
            n < days_before_year(year as int + 1) || year == YEAR_LIMIT,
            n < days_before_year(YEAR_LIMIT as int),
        decreases year,
    {
        year = year - 1;
    }
    proof {
        lemma_year_of_day_unique(days as int, year as int);
        lemma_year_length(year as int);
    }
    let in_year: i64 = n - year_start(year);
    let mut month: i64 = 1;
    while month < 12 && in_year >= month_start(year, month + 1)
        invariant
            1 <= year < YEAR_LIMIT,
            1 <= month <= 12,
            0 <= in_year < 366,
            in_year >= days_before_month(year as int, month as int),
            in_year == n - days_before_year(year as int),
            month_of_day(days as int) >= month,
            year == year_of_day(days as int),
            n == days + DAYS_TO_UNIX_EPOCH,
        decreases 12 - month,
    {
        month = month + 1;
    }
    let day: i64 = in_year - month_start(year, month) + 1;
    (year, month, day)
}

} // verus!
