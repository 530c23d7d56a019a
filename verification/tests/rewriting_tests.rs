use my_no_sql_core::date_time::DateTimeAsMicroseconds;
use my_no_sql_core::db::DbRow;
use my_no_sql_core::db_json_entity::date_time_injector::{inject, replace_timestamp_value};
use my_no_sql_core::db_json_entity::db_json_entity::compile_row_content;
use my_no_sql_core::db_json_entity::{
    compile_data_with_new_expires, remove_expiration_time, DbJsonEntity, JsonKeyValuePosition,
    JsonTimeStamp,
};

fn stamp_at_zero() -> JsonTimeStamp {
    JsonTimeStamp::from_date_time(DateTimeAsMicroseconds::new(0))
}

fn row_of(json: &str) -> DbRow {
    DbJsonEntity::parse(json.as_bytes())
        .unwrap()
        .restore_db_row()
}

fn text_of(data: &[u8]) -> &str {
    std::str::from_utf8(data).unwrap()
}

fn check_reads_back(row: &DbRow) {
    let entity = DbJsonEntity::parse(&row.data).unwrap();
    assert_eq!(entity.partition_key, row.partition_key);
    assert_eq!(entity.row_key, row.row_key);
    assert_eq!(entity.expires, row.expires);
    assert_eq!(entity.expires_value_position, row.expires_json_position);
    if let Some(position) = &row.expires_json_position {
        assert_eq!(
            &row.data[position.key_start..position.key_end],
            b"\"Expires\""
        );
    }
}

#[test]
fn time_stamp_is_put_in_front() {
    let raw = br#" {"PartitionKey":"p","RowKey":"r"}"#;
    assert_eq!(
        text_of(&inject(raw, &stamp_at_zero())),
        r#" {"TimeStamp":"1970-01-01T00:00:00.000000","PartitionKey":"p","RowKey":"r"}"#
    );
    assert_eq!(
        text_of(&compile_row_content(raw, &None, &stamp_at_zero())),
        r#" {"TimeStamp":"1970-01-01T00:00:00.000000","PartitionKey":"p","RowKey":"r"}"#
    );
}

#[test]
fn time_stamp_is_written_over_the_old_value() {
    let raw = br#"{"PartitionKey":"p","timestamp" :  null,"RowKey":"r"}"#;
    let entity = DbJsonEntity::parse(raw).unwrap();
    let position = entity.timestamp_value_position.unwrap();
    assert_eq!(
        text_of(&replace_timestamp_value(raw, &position, &stamp_at_zero())),
        r#"{"PartitionKey":"p","timestamp" :  "1970-01-01T00:00:00.000000","RowKey":"r"}"#
    );
    assert_eq!(
        text_of(&compile_row_content(raw, &Some(position), &stamp_at_zero())),
        r#"{"PartitionKey":"p","timestamp" :  "1970-01-01T00:00:00.000000","RowKey":"r"}"#
    );
}

#[test]
fn a_new_row_is_read_back_with_its_time_stamp() {
    let cases = [
        r#"{"PartitionKey":"p","RowKey":"r"}"#,
        r#"{"PartitionKey":"p","RowKey":"r","Expires":"2019-01-01T00:00:00"}"#,
        r#"{"Expires":"2019-01-01T00:00:00","TimeStamp":"old","PartitionKey":"p","RowKey":"r"}"#,
        r#"{"TimeStamp":"a much longer time stamp than the new one","Expires":"2019-01-01T00:00:00","PartitionKey":"p","RowKey":"r"}"#,
        r#"{"TimeStamp":12,"PartitionKey":"p","RowKey":"r","Expires":"2019-01-01T00:00:00Z",}"#,
    ];
    for json in cases {
        let entity = DbJsonEntity::parse(json.as_bytes()).unwrap();
        let row = entity.new_db_row(&stamp_at_zero());
        assert_eq!(row.time_stamp, "1970-01-01T00:00:00.000000");
        assert_eq!(row.last_read_access.get_unix_microseconds(), 0);
        check_reads_back(&row);
        let read = DbJsonEntity::parse(&row.data).unwrap();
        assert_eq!(read.time_stamp, Some("1970-01-01T00:00:00.000000"));
        assert_eq!(read.partition_key, "p");
        assert_eq!(read.row_key, "r");
        assert_eq!(read.expires, entity.expires);
    }
}

#[test]
fn a_restored_row_keeps_its_bytes() {
    let json = r#"{"PartitionKey":"p","RowKey":"r","TimeStamp":"2022-03-17T09:28:27.5923","Expires":"2019-01-01T00:00:00"}"#;
    let row = row_of(json);
    assert_eq!(text_of(&row.data), json);
    assert_eq!(row.time_stamp, "2022-03-17T09:28:27.592300");
    assert_eq!(
        row.last_read_access.get_unix_microseconds(),
        1_647_509_307_592_300
    );
    assert_eq!(row.expires.unwrap().unix_microseconds, 1_546_300_800_000_000);
    check_reads_back(&row);
}

#[test]
fn expiration_is_put_in_front() {
    let row = row_of(r#"{"PartitionKey":"p","RowKey":"r"}"#);
    let (data, position) = compile_data_with_new_expires(&row, "2020-01-01T00:00:00");
    assert_eq!(
        text_of(&data),
        r#"{"Expires":"2020-01-01T00:00:00","PartitionKey":"p","RowKey":"r"}"#
    );
    assert_eq!(
        position,
        JsonKeyValuePosition {
            key_start: 1,
            key_end: 10,
            value_start: 11,
            value_end: 32
        }
    );
}

#[test]
fn expiration_is_written_over_the_old_field() {
    let row = row_of(r#"{"PartitionKey":"p", "Expires" :  12345 ,"RowKey":"r"}"#);
    let (data, position) = compile_data_with_new_expires(&row, "2020-01-01T00:00:00");
    assert_eq!(
        text_of(&data),
        r#"{"PartitionKey":"p", "Expires":"2020-01-01T00:00:00" ,"RowKey":"r"}"#
    );
    assert_eq!(
        text_of(&data[position.value_start..position.value_end]),
        "\"2020-01-01T00:00:00\""
    );
    assert_eq!(
        text_of(&data[position.key_start..position.key_end]),
        "\"Expires\""
    );
}

#[test]
fn expiration_is_taken_out_with_the_comma_behind_it() {
    let row = row_of(r#"{"PartitionKey":"p","Expires":"2019-01-01T00:00:00" , "RowKey":"r"}"#);
    assert_eq!(
        text_of(&remove_expiration_time(&row)),
        r#"{"PartitionKey":"p", "RowKey":"r"}"#
    );
}

#[test]
fn expiration_is_taken_out_with_the_comma_before_it() {
    let row = row_of(r#"{"PartitionKey":"p","RowKey":"r" ,  "Expires":"2019-01-01T00:00:00" }"#);
    assert_eq!(
        text_of(&remove_expiration_time(&row)),
        r#"{"PartitionKey":"p","RowKey":"r"  }"#
    );
}

#[test]
fn a_row_without_expiration_keeps_its_bytes() {
    let row = row_of(r#"{"PartitionKey":"p","RowKey":"r"}"#);
    assert_eq!(
        text_of(&remove_expiration_time(&row)),
        r#"{"PartitionKey":"p","RowKey":"r"}"#
    );
}

#[test]
fn a_row_with_a_new_expiration_is_read_back() {
    let cases = [
        r#"{"PartitionKey":"p","RowKey":"r"}"#,
        r#"{"PartitionKey":"p","RowKey":"r","Expires":"2019-01-01T00:00:00"}"#,
        r#"{"Expires":null,"TimeStamp":"t","PartitionKey":"p","RowKey":"r"}"#,
        r#" {  "PartitionKey":"p",  "Expires" : "2019-01-01T00:00:00.5Z"  ,  "RowKey":"r" , }"#,
    ];
    let instants: [i64; 4] = [
        2,
        1_546_300_800_000_000,
        -62_135_596_800_000_000,
        253_402_300_799_999_999,
    ];
    for json in cases {
        for instant in instants {
            let row = row_of(json);
            let moment = DateTimeAsMicroseconds::new(instant);
            let changed = row.create_with_new_expiration_time(Some(moment));
            assert_eq!(changed.expires, Some(moment));
            assert_eq!(changed.partition_key, "p");
            assert_eq!(changed.row_key, "r");
            assert_eq!(changed.time_stamp, row.time_stamp);
            assert_eq!(
                changed.last_read_access.get_unix_microseconds(),
                row.last_read_access.get_unix_microseconds()
            );
            check_reads_back(&changed);
            let read = DbJsonEntity::parse(&changed.data).unwrap();
            let before = DbJsonEntity::parse(&row.data).unwrap();
            assert_eq!(read.time_stamp, before.time_stamp);
        }
    }
}

#[test]
fn a_row_that_loses_its_expiration_is_read_back() {
    let cases = [
        r#"{"PartitionKey":"p","RowKey":"r"}"#,
        r#"{"PartitionKey":"p","RowKey":"r","Expires":"2019-01-01T00:00:00"}"#,
        r#"{"Expires":"2019-01-01T00:00:00"}"#,
        r#"{"Expires":"2019-01-01T00:00:00","PartitionKey":"p","RowKey":"r"}"#,
        r#"{"PartitionKey":"p","Expires":"2019-01-01T00:00:00","RowKey":"r"}"#,
        r#"{"PartitionKey":"p","RowKey":7 , "Expires":"2019-01-01T00:00:00"}"#,
        r#"{"PartitionKey":"p","RowKey":"r","Expires":"2019-01-01T00:00:00",}"#,
    ];
    for json in cases {
        let fields_before = my_no_sql_core::db_json_entity::first_line_reader::scan_fields(
            json.as_bytes(),
        )
        .unwrap()
        .len();
        let keys = r#"{"PartitionKey":"p","RowKey":"r"}"#;
        let mut row = row_of(keys);
        let entity = my_no_sql_core::db_json_entity::first_line_reader::scan_fields(
            json.as_bytes(),
        )
        .unwrap();
        let expires = entity
            .iter()
            .rev()
            .find(|f| &json.as_bytes()[f.key_start..f.key_end] == b"\"Expires\"")
            .cloned();
        row.data = json.as_bytes().to_vec();
        row.expires_json_position = expires;
        let data = remove_expiration_time(&row);
        let fields_after =
            my_no_sql_core::db_json_entity::first_line_reader::scan_fields(&data).unwrap();
        let had = if expires.is_some() { 1 } else { 0 };
        assert_eq!(fields_after.len(), fields_before - had, "{}", json);
        for field in fields_after {
            assert_ne!(&data[field.key_start..field.key_end], b"\"Expires\"");
        }
    }
}

#[test]
fn taking_the_expiration_out_first_changes_nothing_of_what_is_read() {
    let cases = [
        r#"{"PartitionKey":"p","RowKey":"r"}"#,
        r#"{"PartitionKey":"p","RowKey":"r","Expires":"2019-01-01T00:00:00"}"#,
        r#"{"TimeStamp":"t","Expires":"2019-01-01T00:00:00","PartitionKey":"p","RowKey":"r"}"#,
        r#"{"PartitionKey":"p","Expires":"2019-01-01T00:00:00","RowKey":"r","TimeStamp":"t"}"#,
    ];
    let moment = DateTimeAsMicroseconds::new(1_577_836_800_000_000);
    for json in cases {
        let row = row_of(json);
        let direct = row.create_with_new_expiration_time(Some(moment));
        let by_way_of_none = row
            .create_with_new_expiration_time(None)
            .create_with_new_expiration_time(Some(moment));
        check_reads_back(&direct);
        check_reads_back(&by_way_of_none);
        let a = DbJsonEntity::parse(&direct.data).unwrap();
        let b = DbJsonEntity::parse(&by_way_of_none.data).unwrap();
        assert_eq!(a.partition_key, b.partition_key);
        assert_eq!(a.row_key, b.row_key);
        assert_eq!(a.expires, b.expires);
        assert_eq!(a.expires, Some(moment));
        assert_eq!(a.time_stamp, b.time_stamp);
    }
}

#[test]
fn a_row_can_lose_its_expiration() {
    let row = row_of(r#"{"PartitionKey":"p","RowKey":"r","Expires":"2019-01-01T00:00:00"}"#);
    let changed = row.create_with_new_expiration_time(None);
    assert!(changed.expires.is_none());
    assert!(changed.expires_json_position.is_none());
    assert_eq!(text_of(&changed.data), r#"{"PartitionKey":"p","RowKey":"r"}"#);
    check_reads_back(&changed);
}

#[test]
fn last_read_access_is_noted() {
    let row = row_of(r#"{"PartitionKey":"p","RowKey":"r","TimeStamp":"1970-01-01T00:00:00.000005"}"#);
    assert_eq!(row.last_read_access.get_unix_microseconds(), 5);
    row.update_last_read_access(DateTimeAsMicroseconds::new(9));
    assert_eq!(row.last_read_access.get_unix_microseconds(), 9);
}
