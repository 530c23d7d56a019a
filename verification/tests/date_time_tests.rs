use my_no_sql_core::date_time::calendar::{civil_to_days, days_to_civil};
use my_no_sql_core::date_time::iso_text::{iso_text_of, parse_iso_micros};
use my_no_sql_core::date_time::{AtomicDateTimeAsMicroseconds, DateTimeAsMicroseconds};
use my_no_sql_core::db_json_entity::JsonTimeStamp;

#[test]
fn iso_text_without_fraction_is_read() {
    let moment = DateTimeAsMicroseconds::from_str("2019-01-01T00:00:00").unwrap();
    assert_eq!(moment.unix_microseconds, 1_546_300_800_000_000);
}

#[test]
fn iso_text_with_fraction_and_z_is_read() {
    let moment = DateTimeAsMicroseconds::from_str("2022-03-17T13:28:29.6537478Z").unwrap();
    assert_eq!(moment.unix_microseconds, 1_647_523_709_653_747);
}

#[test]
fn iso_text_with_short_fraction_is_padded() {
    let moment = DateTimeAsMicroseconds::from_str("1970-01-01T00:00:01.5").unwrap();
    assert_eq!(moment.unix_microseconds, 1_500_000);
    let moment = DateTimeAsMicroseconds::from_str("1970-01-01T00:00:00.000002Z").unwrap();
    assert_eq!(moment.unix_microseconds, 2);
}

#[test]
fn iso_text_before_the_epoch_is_negative() {
    let moment = DateTimeAsMicroseconds::from_str("1969-12-31T23:59:59").unwrap();
    assert_eq!(moment.unix_microseconds, -1_000_000);
    let first = DateTimeAsMicroseconds::from_str("0001-01-01T00:00:00").unwrap();
    assert_eq!(first.unix_microseconds, -62_135_596_800_000_000);
    let last = DateTimeAsMicroseconds::from_str("9999-12-31T23:59:59.999999").unwrap();
    assert_eq!(last.unix_microseconds, 253_402_300_799_999_999);
}

#[test]
fn other_texts_name_no_instant() {
    let refused = [
        "",
        "2019-01-01",
        "2019-01-01 00:00:00",
        "2019-13-01T00:00:00",
        "2019-00-10T00:00:00",
        "2019-02-29T00:00:00",
        "2019-04-31T00:00:00",
        "2019-01-01T24:00:00",
        "2019-01-01T00:60:00",
        "2019-01-01T00:00:60",
        "2019-01-01T00:00:00.",
        "2019-01-01T00:00:00.Z",
        "2019-01-01T00:00:00.12a",
        "2019-01-01T00:00:00+00:00",
        "0000-01-01T00:00:00",
        "2019/01/01T00:00:00",
        "20x9-01-01T00:00:00",
    ];
    for text in refused {
        assert!(
            DateTimeAsMicroseconds::from_str(text).is_none(),
            "{} should name no instant",
            text
        );
    }
}

#[test]
fn leap_days_are_dates() {
    assert!(DateTimeAsMicroseconds::from_str("2020-02-29T00:00:00").is_some());
    assert!(DateTimeAsMicroseconds::from_str("2000-02-29T00:00:00").is_some());
    assert!(DateTimeAsMicroseconds::from_str("1900-02-29T00:00:00").is_none());
    assert!(DateTimeAsMicroseconds::from_str("2100-02-29T00:00:00").is_none());
}

#[test]
fn day_numbers_of_dates() {
    assert_eq!(civil_to_days(1970, 1, 1), Some(0));
    assert_eq!(civil_to_days(1970, 1, 2), Some(1));
    assert_eq!(civil_to_days(1969, 12, 31), Some(-1));
    assert_eq!(civil_to_days(2000, 3, 1), Some(11_017));
    assert_eq!(civil_to_days(1, 1, 1), Some(-719_162));
    assert_eq!(civil_to_days(2019, 2, 29), None);
    assert_eq!(civil_to_days(10_000, 1, 1), None);
    assert_eq!(days_to_civil(0), (1970, 1, 1));
    assert_eq!(days_to_civil(-1), (1969, 12, 31));
    assert_eq!(days_to_civil(11_016), (2000, 2, 29));
    assert_eq!(days_to_civil(11_017), (2000, 3, 1));
    assert_eq!(days_to_civil(-719_162), (1, 1, 1));
    assert_eq!(days_to_civil(2_932_896), (9999, 12, 31));
}

#[test]
fn every_day_number_is_found_again() {
    let mut days: i64 = -719_162;
    while days <= 2_932_896 {
        let (year, month, day) = days_to_civil(days);
        assert_eq!(civil_to_days(year, month, day), Some(days));
        days += 97;
    }
}

#[test]
fn instants_are_written_with_microseconds() {
    assert_eq!(
        DateTimeAsMicroseconds::new(2).to_rfc3339(),
        "1970-01-01T00:00:00.000002Z"
    );
    assert_eq!(
        DateTimeAsMicroseconds::new(1_546_300_800_000_000).to_rfc3339(),
        "2019-01-01T00:00:00.000000Z"
    );
    assert_eq!(
        DateTimeAsMicroseconds::new(-1).to_rfc3339(),
        "1969-12-31T23:59:59.999999Z"
    );
    assert_eq!(
        std::str::from_utf8(&iso_text_of(1_647_523_709_653_747)).unwrap(),
        "2022-03-17T13:28:29.653747"
    );
    assert_eq!(
        std::str::from_utf8(&DateTimeAsMicroseconds::new(0).to_iso_bytes()).unwrap(),
        "1970-01-01T00:00:00.000000"
    );
}

#[test]
fn the_text_of_an_instant_names_the_instant() {
    let samples: [i64; 9] = [
        -62_135_596_800_000_000,
        -1,
        0,
        1,
        999_999,
        86_399_999_999,
        1_546_300_800_000_000,
        1_647_523_709_653_747,
        253_402_300_799_999_999,
    ];
    for instant in samples {
        let text = iso_text_of(instant);
        assert_eq!(text.len(), 26);
        assert_eq!(parse_iso_micros(&text), Some(instant));
        let mut with_z = text.clone();
        with_z.push(b'Z');
        assert_eq!(parse_iso_micros(&with_z), Some(instant));
    }
}

#[test]
fn seconds_are_added() {
    let mut moment = DateTimeAsMicroseconds::new(5);
    moment.add_seconds(3);
    assert_eq!(moment.unix_microseconds, 3_000_005);
    moment.add_seconds(-4);
    assert_eq!(moment.unix_microseconds, -999_995);
}

#[test]
fn the_clock_shows_a_recent_instant() {
    let now = DateTimeAsMicroseconds::now();
    // later than 2020-01-01 and earlier than 2200-01-01
    assert!(now.unix_microseconds > 1_577_836_800_000_000);
    assert!(now.unix_microseconds < 7_258_118_400_000_000);
    let stamp = JsonTimeStamp::now();
    assert_eq!(stamp.as_str().len(), 26);
    assert_eq!(
        DateTimeAsMicroseconds::from_str(stamp.as_str()).unwrap().unix_microseconds,
        stamp.date_time.unix_microseconds
    );
}

#[test]
fn atomic_instant_keeps_what_was_put() {
    let moment = AtomicDateTimeAsMicroseconds::new(7);
    assert_eq!(moment.get_unix_microseconds(), 7);
    moment.update(DateTimeAsMicroseconds::new(11));
    assert_eq!(moment.get_unix_microseconds(), 11);
    assert_eq!(moment.as_date_time().unix_microseconds, 11);
}

#[test]
fn time_stamp_of_an_instant() {
    let stamp = JsonTimeStamp::from_date_time(DateTimeAsMicroseconds::new(1_546_300_800_000_001));
    assert_eq!(stamp.as_str(), "2019-01-01T00:00:00.000001");
    assert_eq!(stamp.as_slice(), "2019-01-01T00:00:00.000001".as_bytes());
    assert_eq!(stamp.date_time.unix_microseconds, 1_546_300_800_000_001);
}

#[test]
fn time_stamp_of_an_instant_without_text_takes_the_nearest() {
    let late = JsonTimeStamp::from_date_time(DateTimeAsMicroseconds::new(i64::MAX));
    assert_eq!(late.as_str(), "9999-12-31T23:59:59.999999");
    assert_eq!(late.date_time.unix_microseconds, 253_402_300_799_999_999);
    let early = JsonTimeStamp::from_date_time(DateTimeAsMicroseconds::new(i64::MIN));
    assert_eq!(early.as_str(), "0001-01-01T00:00:00.000000");
    assert_eq!(early.date_time.unix_microseconds, -62_135_596_800_000_000);
}

#[test]
fn time_stamp_is_read_or_taken_from_the_clock() {
    let read = JsonTimeStamp::parse_or_now("2022-03-17T09:28:27.5923");
    assert_eq!(read.as_str(), "2022-03-17T09:28:27.592300");
    let taken = JsonTimeStamp::parse_or_now("yesterday");
    assert!(taken.date_time.unix_microseconds > 1_577_836_800_000_000);
}

#[test]
fn the_instant_of_a_clock_reading() {
    assert_eq!(DateTimeAsMicroseconds::from_clock(Some(5)).unix_microseconds, 5);
    assert_eq!(DateTimeAsMicroseconds::from_clock(Some(0)).unix_microseconds, 0);
    assert_eq!(DateTimeAsMicroseconds::from_clock(None).unix_microseconds, 0);
    assert_eq!(
        DateTimeAsMicroseconds::from_clock(Some(9_223_372_036_854_775_807)).unix_microseconds,
        i64::MAX
    );
    assert_eq!(
        DateTimeAsMicroseconds::from_clock(Some(9_223_372_036_854_775_808)).unix_microseconds,
        i64::MAX
    );
    assert_eq!(
        DateTimeAsMicroseconds::from_clock(Some(u128::MAX)).unix_microseconds,
        i64::MAX
    );
}

#[test]
fn the_clock_does_not_stand_before_the_epoch() {
    assert!(DateTimeAsMicroseconds::now().unix_microseconds > 1_500_000_000_000_000);
    assert!(JsonTimeStamp::now().date_time.unix_microseconds > 1_500_000_000_000_000);
}
