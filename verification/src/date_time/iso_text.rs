use vstd::prelude::*;
use crate::date_time::calendar::{
    civil_to_days, day_of_month, days_before_year, days_from_civil, days_to_civil, is_date,
    lemma_year_length, lemma_years_ordered, month_of_day, year_of_day, DAYS_TO_UNIX_EPOCH,
    MICROS_PER_DAY, MICROS_PER_SECOND, YEAR_LIMIT,
};

verus! {

/// Width of `YYYY-MM-DDTHH:MM:SS`.
pub const SECONDS_TEXT_LEN: usize = 19;

/// Width of `YYYY-MM-DDTHH:MM:SS.ffffff`.
pub const MICROS_TEXT_LEN: usize = 26;

pub open spec fn is_digit(b: u8) -> bool {
    48 <= b <= 57
}

pub open spec fn digit_value(b: u8) -> int {
    b - 48
}

pub open spec fn digit_byte(value: int) -> u8 {
    (48 + value) as u8
}

pub open spec fn number2(s: Seq<u8>, at: int) -> int {
    digit_value(s[at]) * 10 + digit_value(s[at + 1])
}

pub open spec fn number4(s: Seq<u8>, at: int) -> int {
    number2(s, at) * 100 + number2(s, at + 2)
}

pub open spec fn all_digits(s: Seq<u8>, from: int, to: int) -> bool {
    forall|i: int| from <= i < to ==> is_digit(#[trigger] s[i])
}

/// Where the digits of the text end: before a closing `Z`, else at the end.
pub open spec fn body_end(s: Seq<u8>) -> int {
    if s.len() > SECONDS_TEXT_LEN && s[s.len() - 1] == 90 {
        s.len() - 1
    } else {
        s.len() as int
    }
}

/// The `j`-th digit behind the decimal point, 0 where the text has none.
pub open spec fn fraction_digit(s: Seq<u8>, j: int) -> int {
    if 20 + j < body_end(s) {
        digit_value(s[20 + j])
    } else {
        0
    }
}

/// The fraction of a second in microseconds; digits behind the sixth are cut.
pub open spec fn fraction_micros(s: Seq<u8>) -> int {
    fraction_digit(s, 0) * 100_000 + fraction_digit(s, 1) * 10_000 + fraction_digit(s, 2) * 1_000
        + fraction_digit(s, 3) * 100 + fraction_digit(s, 4) * 10 + fraction_digit(s, 5)
}

/// `YYYY-MM-DDTHH:MM:SS`, then an optional `.` with at least one digit, then
/// an optional `Z`.
pub open spec fn has_iso_shape(s: Seq<u8>) -> bool {
    &&& s.len() >= SECONDS_TEXT_LEN
    &&& all_digits(s, 0, 4)
    &&& s[4] == 45
    &&& all_digits(s, 5, 7)
    &&& s[7] == 45
    &&& all_digits(s, 8, 10)
    &&& s[10] == 84
    &&& all_digits(s, 11, 13)
    &&& s[13] == 58
    &&& all_digits(s, 14, 16)
    &&& s[16] == 58
    &&& all_digits(s, 17, 19)
    &&& (body_end(s) == SECONDS_TEXT_LEN || (s[19] == 46 && body_end(s) >= 21 && all_digits(
        s,
        20,
        body_end(s),
    )))
}

pub open spec fn is_time_of_day(hour: int, minute: int, second: int) -> bool {
    0 <= hour < 24 && 0 <= minute < 60 && 0 <= second < 60
}

pub open spec fn instant_of(
    year: int,
    month: int,
    day: int,
    hour: int,
    minute: int,
    second: int,
    micros: int,
) -> int {
    days_from_civil(year, month, day) * MICROS_PER_DAY + (hour * 3600 + minute * 60 + second)
        * MICROS_PER_SECOND + micros
}

/// The instant that an ISO-8601 text names, in microseconds since
/// 1970-01-01T00:00:00Z; `None` where the text has another shape or names
/// no date or time of day.
pub open spec fn iso_instant(s: Seq<u8>) -> Option<int> {
    if has_iso_shape(s) && is_date(number4(s, 0), number2(s, 5), number2(s, 8)) && is_time_of_day(
        number2(s, 11),
        number2(s, 14),
        number2(s, 17),
    ) {
        Some(
            instant_of(
                number4(s, 0),
                number2(s, 5),
                number2(s, 8),
                number2(s, 11),
                number2(s, 14),
                number2(s, 17),
                fraction_micros(s),
            ),
        )
    } else {
        None
    }
}

/// The instants that have a text with a four-digit year.
pub open spec fn has_iso_text(instant: int) -> bool {
    -DAYS_TO_UNIX_EPOCH * MICROS_PER_DAY <= instant < (days_before_year(YEAR_LIMIT as int)
        - DAYS_TO_UNIX_EPOCH) * MICROS_PER_DAY
}

pub open spec fn day_of_instant(instant: int) -> int {
    instant / (MICROS_PER_DAY as int)
}

pub open spec fn second_of_day(instant: int) -> int {
    instant % (MICROS_PER_DAY as int) / (MICROS_PER_SECOND as int)
}

/// The text `YYYY-MM-DD`.
pub open spec fn date_text(year: int, month: int, day: int) -> Seq<u8> {
    seq![
        digit_byte(year / 10 / 10 / 10 % 10),
        digit_byte(year / 10 / 10 % 10),
        digit_byte(year / 10 % 10),
        digit_byte(year % 10),
        45u8,
        digit_byte(month / 10 % 10),
        digit_byte(month % 10),
        45u8,
        digit_byte(day / 10 % 10),
        digit_byte(day % 10),
    ]
}

/// The text `THH:MM:SS`.
pub open spec fn time_text(hour: int, minute: int, second: int) -> Seq<u8> {
    seq![
        84u8,
        digit_byte(hour / 10 % 10),
        digit_byte(hour % 10),
        58u8,
        digit_byte(minute / 10 % 10),
        digit_byte(minute % 10),
        58u8,
        digit_byte(second / 10 % 10),
        digit_byte(second % 10),
    ]
}

/// The text `.ffffff`.
pub open spec fn fraction_text(micros: int) -> Seq<u8> {
    seq![
        46u8,
        digit_byte(micros / 10 / 10 / 10 / 10 / 10 % 10),
        digit_byte(micros / 10 / 10 / 10 / 10 % 10),
        digit_byte(micros / 10 / 10 / 10 % 10),
        digit_byte(micros / 10 / 10 % 10),
        digit_byte(micros / 10 % 10),
        digit_byte(micros % 10),
    ]
}

/// The text `YYYY-MM-DDTHH:MM:SS.ffffff` of the seven numbers.
pub open spec fn text_of_fields(
    year: int,
    month: int,
    day: int,
    hour: int,
    minute: int,
    second: int,
    micros: int,
) -> Seq<u8> {
    date_text(year, month, day) + time_text(hour, minute, second) + fraction_text(micros)
}

/// The text `YYYY-MM-DDTHH:MM:SS.ffffff` of an instant.
pub open spec fn iso_text(instant: int) -> Seq<u8> {
    let days = day_of_instant(instant);
    let seconds = second_of_day(instant);
    text_of_fields(
        year_of_day(days),
        month_of_day(days),
        day_of_month(days),
        seconds / 3600,
        seconds / 60 % 60,
        seconds % 60,
        instant % (MICROS_PER_SECOND as int),
    )
}

proof fn lemma_two_digits_read(s: Seq<u8>, at: int, value: int)
    requires
        0 <= value < 100,
        0 <= at,
        at + 1 < s.len(),
        s[at] == digit_byte(value / 10 % 10),
        s[at + 1] == digit_byte(value % 10),
    ensures
        number2(s, at) == value,
        is_digit(s[at]),
        is_digit(s[at + 1]),
{
}

proof fn lemma_six_digits_read(s: Seq<u8>, value: int)
    requires
        0 <= value < 1_000_000,
        s.len() >= 26,
        body_end(s) == 26,
        s[20] == digit_byte(value / 10 / 10 / 10 / 10 / 10 % 10),
        s[21] == digit_byte(value / 10 / 10 / 10 / 10 % 10),
        s[22] == digit_byte(value / 10 / 10 / 10 % 10),
        s[23] == digit_byte(value / 10 / 10 % 10),
        s[24] == digit_byte(value / 10 % 10),
        s[25] == digit_byte(value % 10),
    ensures
        fraction_micros(s) == value,
        all_digits(s, 20, 26),
{
    let v1 = value / 10;
    let v2 = v1 / 10;
    let v3 = v2 / 10;
    let v4 = v3 / 10;
    let v5 = v4 / 10;
    assert(value == v1 * 10 + value % 10);
    assert(v1 == v2 * 10 + v1 % 10);
    assert(v2 == v3 * 10 + v2 % 10);
    assert(v3 == v4 * 10 + v3 % 10);
    assert(v4 == v5 * 10 + v4 % 10);
    assert(0 <= v5 < 10);
    assert(fraction_digit(s, 0) == v5 % 10);
    assert(fraction_digit(s, 1) == v4 % 10);
    assert(fraction_digit(s, 2) == v3 % 10);
    assert(fraction_digit(s, 3) == v2 % 10);
    assert(fraction_digit(s, 4) == v1 % 10);
    assert(fraction_digit(s, 5) == value % 10);
}

proof fn lemma_four_digits_read(s: Seq<u8>, value: int)
    requires
        0 <= value < 10_000,
        s.len() >= 4,
        s[0] == digit_byte(value / 10 / 10 / 10 % 10),
        s[1] == digit_byte(value / 10 / 10 % 10),
        s[2] == digit_byte(value / 10 % 10),
        s[3] == digit_byte(value % 10),
    ensures
        number4(s, 0) == value,
        all_digits(s, 0, 4),
{
    let v1 = value / 10;
    let v2 = v1 / 10;
    let v3 = v2 / 10;
    assert(value == v1 * 10 + value % 10);
    assert(v1 == v2 * 10 + v1 % 10);
    assert(v2 == v3 * 10 + v2 % 10);
    assert(0 <= v3 < 10);
}

/// What reading finds in a text that starts with the text of seven numbers
/// and holds at most a `Z` behind it.
proof fn lemma_fields_read(
    s: Seq<u8>,
    year: int,
    month: int,
    day: int,
    hour: int,
    minute: int,
    second: int,
    micros: int,
)
    requires
        is_date(year, month, day),
        is_time_of_day(hour, minute, second),
        0 <= micros < 1_000_000,
        s == text_of_fields(year, month, day, hour, minute, second, micros) || s
            == text_of_fields(year, month, day, hour, minute, second, micros).push(90u8),
    ensures
        iso_instant(s) == Some(instant_of(year, month, day, hour, minute, second, micros)),
{
    let t = text_of_fields(year, month, day, hour, minute, second, micros);
    let date = date_text(year, month, day);
    let time = time_text(hour, minute, second);
    let fraction = fraction_text(micros);
    assert(date.len() == 10 && time.len() == 9 && fraction.len() == 7);
    assert(t.len() == 26);
    assert(forall|i: int| 0 <= i < 10 ==> t[i] == date[i]);
    assert(forall|i: int| 10 <= i < 19 ==> t[i] == time[i - 10]);
    assert(forall|i: int| 19 <= i < 26 ==> t[i] == fraction[i - 19]);
    assert(forall|i: int| 0 <= i < 26 ==> s[i] == t[i]);
    assert(body_end(s) == 26) by {
        assert(t[25] == digit_byte(micros % 10));
    }
    lemma_four_digits_read(s, year);
    lemma_two_digits_read(s, 5, month);
    lemma_two_digits_read(s, 8, day);
    lemma_two_digits_read(s, 11, hour);
    lemma_two_digits_read(s, 14, minute);
    lemma_two_digits_read(s, 17, second);
    lemma_six_digits_read(s, micros);
    assert(all_digits(s, 5, 7));
    assert(all_digits(s, 8, 10));
    assert(all_digits(s, 11, 13));
    assert(all_digits(s, 14, 16));
    assert(all_digits(s, 17, 19));
    assert(s[4] == 45 && s[7] == 45 && s[10] == 84 && s[13] == 58 && s[16] == 58 && s[19] == 46);
}

proof fn lemma_day_split(instant: int)
    requires
        -62_135_596_800_000_000 <= instant < 253_402_300_800_000_000,
    ensures
        -719_162 <= instant / 86_400_000_000 < 2_932_897,
        0 <= instant % 86_400_000_000 < 86_400_000_000,
        instant == (instant / 86_400_000_000) * 86_400_000_000 + instant % 86_400_000_000,
        instant % 86_400_000_000 % 1_000_000 == instant % 1_000_000,
{
    vstd::arithmetic::div_mod::lemma_fundamental_div_mod(instant, 86_400_000_000);
    let in_day = instant % 86_400_000_000;
    vstd::arithmetic::div_mod::lemma_fundamental_div_mod(in_day, 1_000_000);
    vstd::arithmetic::div_mod::lemma_fundamental_div_mod_converse(
        instant,
        1_000_000,
        (instant / 86_400_000_000) * 86_400 + in_day / 1_000_000,
        in_day % 1_000_000,
    );
}

proof fn lemma_second_split(seconds: int)
    requires
        0 <= seconds < 86_400,
    ensures
        is_time_of_day(seconds / 3600, seconds / 60 % 60, seconds % 60),
        seconds == seconds / 3600 * 3600 + seconds / 60 % 60 * 60 + seconds % 60,
{
    let minutes = seconds / 60;
    assert(seconds == minutes * 60 + seconds % 60);
    assert(minutes == minutes / 60 * 60 + minutes % 60);
    assert(minutes / 60 == seconds / 3600);
}

/// An instant is made of its day, its time of day and its microseconds.
pub proof fn lemma_instant_split(instant: int)
    requires
        has_iso_text(instant),
    ensures
        -62_135_596_800_000_000 <= instant < 253_402_300_800_000_000,
        0 <= day_of_instant(instant) + DAYS_TO_UNIX_EPOCH < days_before_year(YEAR_LIMIT as int),
        0 <= second_of_day(instant) < 86_400,
        is_time_of_day(
            second_of_day(instant) / 3600,
            second_of_day(instant) / 60 % 60,
            second_of_day(instant) % 60,
        ),
        0 <= instant % 1_000_000 < 1_000_000,
        instant == day_of_instant(instant) * MICROS_PER_DAY + (second_of_day(instant) / 3600 * 3600
            + second_of_day(instant) / 60 % 60 * 60 + second_of_day(instant) % 60)
            * MICROS_PER_SECOND + instant % 1_000_000,
{
    assert(days_before_year(10_000) == 3_652_059);
    lemma_day_split(instant);
    let in_day = instant % 86_400_000_000;
    let seconds = in_day / 1_000_000;
    assert(in_day == seconds * 1_000_000 + in_day % 1_000_000);
    lemma_second_split(seconds);
}

/// Reading the text of an instant gives the instant back, with or without
/// a closing `Z`.
pub proof fn lemma_iso_text_round_trip(instant: int)
    requires
        has_iso_text(instant),
    ensures
        iso_text(instant).len() == MICROS_TEXT_LEN,
        iso_instant(iso_text(instant)) == Some(instant),
        iso_instant(iso_text(instant).push(90u8)) == Some(instant),
{
    let days = day_of_instant(instant);
    let seconds = second_of_day(instant);
    let year = year_of_day(days);
    let month = month_of_day(days);
    let day = day_of_month(days);
    let hour = seconds / 3600;
    let minute = seconds / 60 % 60;
    let second = seconds % 60;
    let micros = instant % 1_000_000;
    lemma_instant_split(instant);
    lemma_civil_of_day(days);
    let text = text_of_fields(year, month, day, hour, minute, second, micros);
    assert(iso_text(instant) == text);
    assert(text.len() == 26);
    assert(instant_of(year, month, day, hour, minute, second, micros) == instant);
    lemma_fields_read(text, year, month, day, hour, minute, second, micros);
    lemma_fields_read(text.push(90u8), year, month, day, hour, minute, second, micros);
}

/// The byte of a digit is one of `0` to `9`.
proof fn lemma_digit_byte(value: int)
    ensures
        48 <= digit_byte(value % 10) <= 57,
{
}

proof fn lemma_date_text_bytes(year: int, month: int, day: int)
    ensures
        date_text(year, month, day).len() == 10,
        forall|i: int|
            0 <= i < 10 ==> 45 <= #[trigger] date_text(year, month, day)[i] <= 84,
{
    let text = date_text(year, month, day);
    lemma_digit_byte(year / 10 / 10 / 10);
    lemma_digit_byte(year / 10 / 10);
    lemma_digit_byte(year / 10);
    lemma_digit_byte(year);
    lemma_digit_byte(month / 10);
    lemma_digit_byte(month);
    lemma_digit_byte(day / 10);
    lemma_digit_byte(day);
    assert(45 <= text[0] <= 84);
    assert(45 <= text[1] <= 84);
    assert(45 <= text[2] <= 84);
    assert(45 <= text[3] <= 84);
    assert(45 <= text[4] <= 84);
    assert(45 <= text[5] <= 84);
    assert(45 <= text[6] <= 84);
    assert(45 <= text[7] <= 84);
    assert(45 <= text[8] <= 84);
    assert(45 <= text[9] <= 84);
}

proof fn lemma_time_text_bytes(hour: int, minute: int, second: int)
    ensures
        time_text(hour, minute, second).len() == 9,
        forall|i: int|
            0 <= i < 9 ==> 45 <= #[trigger] time_text(hour, minute, second)[i] <= 84,
{
    let text = time_text(hour, minute, second);
    lemma_digit_byte(hour / 10);
    lemma_digit_byte(hour);
    lemma_digit_byte(minute / 10);
    lemma_digit_byte(minute);
    lemma_digit_byte(second / 10);
    lemma_digit_byte(second);
    assert(45 <= text[0] <= 84);
    assert(45 <= text[1] <= 84);
    assert(45 <= text[2] <= 84);
    assert(45 <= text[3] <= 84);
    assert(45 <= text[4] <= 84);
    assert(45 <= text[5] <= 84);
    assert(45 <= text[6] <= 84);
    assert(45 <= text[7] <= 84);
    assert(45 <= text[8] <= 84);
}

proof fn lemma_fraction_text_bytes(micros: int)
    ensures
        fraction_text(micros).len() == 7,
        forall|i: int| 0 <= i < 7 ==> 45 <= #[trigger] fraction_text(micros)[i] <= 84,
{
    let text = fraction_text(micros);
    lemma_digit_byte(micros / 10 / 10 / 10 / 10 / 10);
    lemma_digit_byte(micros / 10 / 10 / 10 / 10);
    lemma_digit_byte(micros / 10 / 10 / 10);
    lemma_digit_byte(micros / 10 / 10);
    lemma_digit_byte(micros / 10);
    lemma_digit_byte(micros);
    assert(45 <= text[0] <= 84);
    assert(45 <= text[1] <= 84);
    assert(45 <= text[2] <= 84);
    assert(45 <= text[3] <= 84);
    assert(45 <= text[4] <= 84);
    assert(45 <= text[5] <= 84);
    assert(45 <= text[6] <= 84);
}

/// The text of an instant holds digits, `-`, `T`, `:` and `.` only.
pub proof fn lemma_iso_text_bytes(instant: int)
    ensures
        iso_text(instant).len() == MICROS_TEXT_LEN,
        forall|i: int|
            0 <= i < iso_text(instant).len() ==> 45 <= #[trigger] iso_text(instant)[i] <= 84,
{
    let days = day_of_instant(instant);
    let seconds = second_of_day(instant);
    let date = date_text(year_of_day(days), month_of_day(days), day_of_month(days));
    let time = time_text(seconds / 3600, seconds / 60 % 60, seconds % 60);
    let fraction = fraction_text(instant % 1_000_000);
    let text = iso_text(instant);
    lemma_date_text_bytes(year_of_day(days), month_of_day(days), day_of_month(days));
    lemma_time_text_bytes(seconds / 3600, seconds / 60 % 60, seconds % 60);
    lemma_fraction_text_bytes(instant % 1_000_000);
    assert(text == date + time + fraction);
    assert forall|i: int| 0 <= i < text.len() implies 45 <= #[trigger] text[i] <= 84 by {
        if i < 10 {
            assert(text[i] == date[i]);
        } else if i < 19 {
            assert(text[i] == time[i - 10]);
        } else {
            assert(text[i] == fraction[i - 19]);
        }
    }
}

/// The date of a day number within the years 1 to 9999 is a date, and has
/// that day number.
pub proof fn lemma_civil_of_day(days: int)
    requires
        0 <= days + DAYS_TO_UNIX_EPOCH < days_before_year(YEAR_LIMIT as int),
    ensures
        is_date(year_of_day(days), month_of_day(days), day_of_month(days)),
        days_from_civil(year_of_day(days), month_of_day(days), day_of_month(days)) == days,
{
    let n = days + DAYS_TO_UNIX_EPOCH;
    lemma_year_exists(n, YEAR_LIMIT as int);
    let year = year_of_day(days);
    lemma_year_length(year);
    if year >= YEAR_LIMIT {
        lemma_years_ordered(YEAR_LIMIT - 1, year);
    }
}

/// Every day from 0001-01-01 on lies in some year.
pub proof fn lemma_year_exists(n: int, bound: int)
    requires
        1 <= bound,
        0 <= n < days_before_year(bound),
    ensures
        exists|year: int|
            1 <= year && #[trigger] days_before_year(year) <= n && n < days_before_year(year + 1),
    decreases bound,
{
    if bound == 1 {
    } else if days_before_year(bound - 1) <= n {
        assert(days_before_year(bound - 1) <= n && n < days_before_year(bound - 1 + 1));
    } else {
        lemma_year_exists(n, bound - 1);
    }
}

fn read_digit(s: &[u8], at: usize) -> (r: Option<i64>)
    requires
        at < s.len(),
    ensures
        r is Some <==> is_digit(s@[at as int]),
        r matches Some(v) ==> v == digit_value(s@[at as int]),
{
    let b: u8 = s[at];
    if 48 <= b && b <= 57 {
        Some((b - 48) as i64)
    } else {
        None
    }
}

fn read_two_digits(s: &[u8], at: usize) -> (r: Option<i64>)
    requires
        at + 1 < s.len(),
    ensures
        r is Some <==> all_digits(s@, at as int, at + 2),
        r matches Some(v) ==> v == number2(s@, at as int) && 0 <= v < 100,
{
    match (read_digit(s, at), read_digit(s, at + 1)) {
        (Some(high), Some(low)) => {
            assert(all_digits(s@, at as int, at + 2));
            Some(high * 10 + low)
        },
        _ => {
            assert(!is_digit(s@[at as int]) || !is_digit(s@[at + 1]));
            None
        },
    }
}

fn read_fraction_digit(s: &[u8], end: usize, j: usize) -> (r: i64)
    requires
        end <= s.len(),
        end == body_end(s@),
        j < 6,
        all_digits(s@, 20, end as int),
    ensures
        r == fraction_digit(s@, j as int),
        0 <= r < 10,
{
    if 20 + j < end {
        match read_digit(s, 20 + j) {
            Some(v) => v,
            None => 0,
        }
    } else {
        0
    }
}

fn digits_only(s: &[u8], from: usize, to: usize) -> (r: bool)
    requires
        from <= to <= s.len(),
    ensures
        r == all_digits(s@, from as int, to as int),
{
    let mut i: usize = from;
    while i < to
        invariant
            from <= i <= to <= s.len(),
            all_digits(s@, from as int, i as int),
        decreases to - i,
    {
        if read_digit(s, i).is_none() {
            return false;
        }
        i = i + 1;
    }
    true
}

/// Reads an ISO-8601 text: `YYYY-MM-DDTHH:MM:SS`, an optional fraction of a
/// second and an optional closing `Z`. Gives the microseconds since
/// 1970-01-01T00:00:00Z, or `None` for any other text.
pub fn parse_iso_micros(s: &[u8]) -> (r: Option<i64>)
    ensures
        r is Some <==> iso_instant(s@) is Some,
        r matches Some(t) ==> iso_instant(s@) == Some(t as int),
{
    let n: usize = s.len();
    if n < SECONDS_TEXT_LEN {
        return None;
    }
    if s[4] != 45 || s[7] != 45 || s[10] != 84 || s[13] != 58 || s[16] != 58 {
        return None;
    }
    let end: usize = if n > SECONDS_TEXT_LEN && s[n - 1] == 90 {
        n - 1
    } else {
        n
    };
    if end != SECONDS_TEXT_LEN {
        if s[19] != 46 || end < 21 || !digits_only(s, 20, end) {
            return None;
        }
    }
    let (century, year_low, month, day, hour, minute, second) = match (
        read_two_digits(s, 0),
        read_two_digits(s, 2),
        read_two_digits(s, 5),
        read_two_digits(s, 8),
        read_two_digits(s, 11),
        read_two_digits(s, 14),
        read_two_digits(s, 17),
    ) {
        (Some(a), Some(b), Some(c), Some(d), Some(e), Some(f), Some(g)) => (a, b, c, d, e, f, g),
        _ => {
            assert(!has_iso_shape(s@)) by {
                if has_iso_shape(s@) {
                    assert(all_digits(s@, 0, 2));
                    assert(all_digits(s@, 2, 4));
                }
            }
            return None;
        },
    };
    assert(all_digits(s@, 0, 4));
    let year: i64 = century * 100 + year_low;
    let days: i64 = match civil_to_days(year, month, day) {
        Some(days) => days,
        None => {
            return None;
        },
    };
    if hour >= 24 || minute >= 60 || second >= 60 {
        return None;
    }
    let micros: i64 = if end == SECONDS_TEXT_LEN {
        0
    } else {
        read_fraction_digit(s, end, 0) * 100_000 + read_fraction_digit(s, end, 1) * 10_000
            + read_fraction_digit(s, end, 2) * 1_000 + read_fraction_digit(s, end, 3) * 100
            + read_fraction_digit(s, end, 4) * 10 + read_fraction_digit(s, end, 5)
    };
    assert(has_iso_shape(s@));
    assert(-DAYS_TO_UNIX_EPOCH <= days < 3_652_059) by {
        lemma_year_length(year as int);
    }
    Some(days * MICROS_PER_DAY + (hour * 3600 + minute * 60 + second) * MICROS_PER_SECOND + micros)
}

fn digit_of(value: i64) -> (r: u8)
    requires
        0 <= value,
    ensures
        r == digit_byte(value as int % 10),
{
    (48 + value % 10) as u8
}

/// Day number, second of the day and microsecond of the second.
fn split_instant(instant: i64) -> (r: (i64, i64, i64))
    requires
        -62_135_596_800_000_000 <= instant < 253_402_300_800_000_000,
    ensures
        r.0 == day_of_instant(instant as int),
        r.1 == second_of_day(instant as int),
        r.2 == instant as int % 1_000_000,
        0 <= r.1 < 86_400,
        0 <= r.2 < 1_000_000,
{
    let whole_days: i64 = if instant >= 0 {
        instant / MICROS_PER_DAY
    } else {
        -((-(instant + 1)) / MICROS_PER_DAY) - 1
    };
    let in_day: i64 = instant - whole_days * MICROS_PER_DAY;
    proof {
        vstd::arithmetic::div_mod::lemma_fundamental_div_mod_converse(
            instant as int,
            86_400_000_000,
            whole_days as int,
            in_day as int,
        );
        vstd::arithmetic::div_mod::lemma_fundamental_div_mod_converse(
            instant as int,
            1_000_000,
            whole_days * 86_400 + in_day / 1_000_000,
            in_day as int % 1_000_000,
        );
    }
    (whole_days, in_day / MICROS_PER_SECOND, in_day % MICROS_PER_SECOND)
}

fn write_date(out: &mut Vec<u8>, year: i64, month: i64, day: i64)
    requires
        0 <= year,
        0 <= month,
        0 <= day,
    ensures
        final(out)@ == old(out)@ + date_text(year as int, month as int, day as int),
{
    let ghost before = out@;
    out.push(digit_of(year / 10 / 10 / 10));
    out.push(digit_of(year / 10 / 10));
    out.push(digit_of(year / 10));
    out.push(digit_of(year));
    out.push(45);
    out.push(digit_of(month / 10));
    out.push(digit_of(month));
    out.push(45);
    out.push(digit_of(day / 10));
    out.push(digit_of(day));
    assert(out@ =~= before + date_text(year as int, month as int, day as int));
}

fn write_time(out: &mut Vec<u8>, hour: i64, minute: i64, second: i64)
    requires
        0 <= hour,
        0 <= minute,
        0 <= second,
    ensures
        final(out)@ == old(out)@ + time_text(hour as int, minute as int, second as int),
{
    let ghost before = out@;
    out.push(84);
    out.push(digit_of(hour / 10));
    out.push(digit_of(hour));
    out.push(58);
    out.push(digit_of(minute / 10));
    out.push(digit_of(minute));
    out.push(58);
    out.push(digit_of(second / 10));
    out.push(digit_of(second));
    assert(out@ =~= before + time_text(hour as int, minute as int, second as int));
}

fn write_fraction(out: &mut Vec<u8>, micros: i64)
    requires
        0 <= micros,
    ensures
        final(out)@ == old(out)@ + fraction_text(micros as int),
{
    let ghost before = out@;
    out.push(46);
    out.push(digit_of(micros / 10 / 10 / 10 / 10 / 10));
    out.push(digit_of(micros / 10 / 10 / 10 / 10));
    out.push(digit_of(micros / 10 / 10 / 10));
    out.push(digit_of(micros / 10 / 10));
    out.push(digit_of(micros / 10));
    out.push(digit_of(micros));
    assert(out@ =~= before + fraction_text(micros as int));
}

fn write_fields(
    year: i64,
    month: i64,
    day: i64,
    hour: i64,
    minute: i64,
    second: i64,
    micros: i64,
) -> (r: Vec<u8>)
    requires
        0 <= year,
        0 <= month,
        0 <= day,
        0 <= hour,
        0 <= minute,
        0 <= second,
        0 <= micros,
    ensures
        r@ == text_of_fields(
            year as int,
            month as int,
            day as int,
            hour as int,
            minute as int,
            second as int,
            micros as int,
        ),
{
    let mut out: Vec<u8> = Vec::with_capacity(MICROS_TEXT_LEN);
    write_date(&mut out, year, month, day);
    write_time(&mut out, hour, minute, second);
    write_fraction(&mut out, micros);
    assert(out@ =~= text_of_fields(
        year as int,
        month as int,
        day as int,
        hour as int,
        minute as int,
        second as int,
        micros as int,
    ));
    out
}

/// Writes an instant as `YYYY-MM-DDTHH:MM:SS.ffffff`.
#[verifier::rlimit(30)]
pub fn iso_text_of(instant: i64) -> (r: Vec<u8>)
    requires
        has_iso_text(instant as int),
    ensures
        r@ == iso_text(instant as int),
        r@.len() == MICROS_TEXT_LEN,
{
    proof {
        lemma_instant_split(instant as int);
    }
    let (whole_days, seconds, micros) = split_instant(instant);
    assert(0 <= whole_days + DAYS_TO_UNIX_EPOCH < days_before_year(YEAR_LIMIT as int));
    let (year, month, day) = days_to_civil(whole_days);
    let hour: i64 = seconds / 3600;
    let minute: i64 = seconds / 60 % 60;
    let second: i64 = seconds % 60;
    assert(0 <= hour && 0 <= minute && 0 <= second && 0 <= year && 0 <= month && 0 <= day);
    let text = write_fields(year, month, day, hour, minute, second, micros);
    assert(text@.len() == MICROS_TEXT_LEN) by {
        assert(date_text(year as int, month as int, day as int).len() == 10);
        assert(time_text(hour as int, minute as int, second as int).len() == 9);
        assert(fraction_text(micros as int).len() == 7);
    }
    text
}

} // verus!
