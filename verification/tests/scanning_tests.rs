use my_no_sql_core::db_json_entity::array_parser::split_array_json_to_objects;
use my_no_sql_core::db_json_entity::first_line_reader::scan_fields;
use my_no_sql_core::db_json_entity::{
    DbEntityParseFail, DbJsonEntity, JsonKeyValuePosition, JsonParseError, JsonTimeStamp,
};

fn parse_failure(json: &[u8]) -> DbEntityParseFail {
    match DbJsonEntity::parse(json) {
        Ok(_) => panic!("should be refused"),
        Err(fail) => fail,
    }
}

#[test]
fn fields_are_found_with_their_places() {
    let json = br#" { "a" : 1 , "b":"x\"y", "c": {"d": [1, "}"]}, "e":null }"#;
    let fields = scan_fields(json).unwrap();
    assert_eq!(fields.len(), 4);
    let texts: Vec<(&str, &str)> = fields
        .iter()
        .map(|f| {
            (
                std::str::from_utf8(&json[f.key_start..f.key_end]).unwrap(),
                std::str::from_utf8(&json[f.value_start..f.value_end]).unwrap(),
            )
        })
        .collect();
    assert_eq!(
        texts,
        vec![
            ("\"a\"", "1"),
            ("\"b\"", "\"x\\\"y\""),
            ("\"c\"", "{\"d\": [1, \"}\"]}"),
            ("\"e\"", "null"),
        ]
    );
    assert_eq!(
        fields[0],
        JsonKeyValuePosition {
            key_start: 3,
            key_end: 6,
            value_start: 9,
            value_end: 10
        }
    );
}

#[test]
fn empty_object_has_no_fields() {
    assert_eq!(scan_fields(b"{}").unwrap().len(), 0);
    assert_eq!(scan_fields(b"  {  \n }  trailing").unwrap().len(), 0);
}

#[test]
fn a_comma_may_stand_before_the_closing_brace() {
    assert_eq!(scan_fields(br#"{"a":1,}"#).unwrap().len(), 1);
    assert_eq!(scan_fields(br#"{"a":1 , "b" : true ,  }"#).unwrap().len(), 2);
}

#[test]
fn what_is_no_object_is_refused() {
    assert_eq!(scan_fields(b""), Err(JsonParseError::UnexpectedEnd));
    assert_eq!(scan_fields(b"   "), Err(JsonParseError::UnexpectedEnd));
    assert_eq!(scan_fields(b"[1]"), Err(JsonParseError::ObjectExpected));
    assert_eq!(scan_fields(b"{"), Err(JsonParseError::UnexpectedEnd));
    assert_eq!(scan_fields(b"{1:2}"), Err(JsonParseError::NameExpected));
    assert_eq!(scan_fields(br#"{"a"#), Err(JsonParseError::UnexpectedEnd));
    assert_eq!(scan_fields(br#"{"a""#), Err(JsonParseError::UnexpectedEnd));
    assert_eq!(scan_fields(br#"{"a" 1}"#), Err(JsonParseError::ColonExpected));
    assert_eq!(scan_fields(br#"{"a":"#), Err(JsonParseError::UnexpectedEnd));
    assert_eq!(scan_fields(br#"{"a":}"#), Err(JsonParseError::ValueExpected));
    assert_eq!(scan_fields(br#"{"a":,}"#), Err(JsonParseError::ValueExpected));
    assert_eq!(scan_fields(br#"{"a":"x"#), Err(JsonParseError::UnexpectedEnd));
    assert_eq!(scan_fields(br#"{"a":"x\"#), Err(JsonParseError::UnexpectedEnd));
    assert_eq!(scan_fields(br#"{"a":{"b":1}"#), Err(JsonParseError::UnexpectedEnd));
    assert_eq!(scan_fields(br#"{"a":[1,2"#), Err(JsonParseError::UnexpectedEnd));
    assert_eq!(scan_fields(br#"{"a":1"#), Err(JsonParseError::UnexpectedEnd));
    assert_eq!(
        scan_fields(br#"{"a":1 "b":2}"#),
        Err(JsonParseError::SeparatorExpected)
    );
}

#[test]
fn objects_of_an_array_are_found() {
    let json = br#" [ {"a":1} , {"b":[{"c":"]"}]},{} ] "#;
    let objects = split_array_json_to_objects(json).unwrap();
    let texts: Vec<&str> = objects
        .iter()
        .map(|(start, end)| std::str::from_utf8(&json[*start..*end]).unwrap())
        .collect();
    assert_eq!(texts, vec!["{\"a\":1}", "{\"b\":[{\"c\":\"]\"}]}", "{}"]);
    assert_eq!(split_array_json_to_objects(b"[]").unwrap().len(), 0);
    assert_eq!(split_array_json_to_objects(b"[{},]").unwrap().len(), 1);
}

#[test]
fn what_is_no_array_of_objects_is_refused() {
    assert_eq!(
        split_array_json_to_objects(b""),
        Err(JsonParseError::UnexpectedEnd)
    );
    assert_eq!(
        split_array_json_to_objects(b"{}"),
        Err(JsonParseError::ArrayExpected)
    );
    assert_eq!(
        split_array_json_to_objects(b"[1]"),
        Err(JsonParseError::ObjectExpected)
    );
    assert_eq!(
        split_array_json_to_objects(b"[{}"),
        Err(JsonParseError::UnexpectedEnd)
    );
    assert_eq!(
        split_array_json_to_objects(b"[{"),
        Err(JsonParseError::UnexpectedEnd)
    );
    assert_eq!(
        split_array_json_to_objects(b"[{} {}]"),
        Err(JsonParseError::SeparatorExpected)
    );
}

#[test]
fn a_row_is_read() {
    let json = br#"{"PartitionKey":"p","RowKey":"r","Expires":"2019-01-01T00:00:00","TimeStamp":"2020-01-01T00:00:00","more":[1,2]}"#;
    let entity = DbJsonEntity::parse(json).unwrap();
    assert_eq!(entity.partition_key, "p");
    assert_eq!(entity.row_key, "r");
    assert_eq!(entity.expires.unwrap().unix_microseconds, 1_546_300_800_000_000);
    assert_eq!(entity.time_stamp, Some("2020-01-01T00:00:00"));
    assert_eq!(entity.raw, &json[..]);
    let expires = entity.expires_value_position.unwrap();
    assert_eq!(&json[expires.key_start..expires.key_end], b"\"Expires\"");
    assert_eq!(
        &json[expires.value_start..expires.value_end],
        b"\"2019-01-01T00:00:00\""
    );
    let time_stamp = entity.timestamp_value_position.unwrap();
    assert_eq!(
        &json[time_stamp.key_start..time_stamp.key_end],
        b"\"TimeStamp\""
    );
    assert_eq!(
        &json[time_stamp.value_start..time_stamp.value_end],
        b"\"2020-01-01T00:00:00\""
    );
}

#[test]
fn the_last_of_two_fields_of_one_name_counts() {
    let json = br#"{"PartitionKey":"a","RowKey":"r","PartitionKey":"b"}"#;
    let entity = DbJsonEntity::parse(json).unwrap();
    assert_eq!(entity.partition_key, "b");
}

#[test]
fn time_stamp_is_taken_in_any_case() {
    for name in ["TimeStamp", "timestamp", "TIMESTAMP", "Timestamp"] {
        let json = format!(r#"{{"PartitionKey":"p","RowKey":"r","{}":"t"}}"#, name);
        let entity = DbJsonEntity::parse(json.as_bytes()).unwrap();
        assert_eq!(entity.time_stamp, Some("t"));
    }
    let json = br#"{"PartitionKey":"p","RowKey":"r","Time_Stamp":"t","expires":"2019-01-01T00:00:00"}"#;
    let entity = DbJsonEntity::parse(json).unwrap();
    assert!(entity.time_stamp.is_none());
    assert!(entity.expires.is_none());
    assert!(entity.expires_value_position.is_none());
}

#[test]
fn an_expiration_that_names_no_instant_is_none() {
    let json = br#"{"PartitionKey":"p","RowKey":"r","Expires":"soon"}"#;
    let entity = DbJsonEntity::parse(json).unwrap();
    assert!(entity.expires.is_none());
    assert!(entity.expires_value_position.is_some());
    let json = br#"{"PartitionKey":"p","RowKey":"r","Expires":12}"#;
    let entity = DbJsonEntity::parse(json).unwrap();
    assert!(entity.expires.is_none());
    assert!(entity.expires_value_position.is_some());
}

#[test]
fn rows_without_their_keys_are_refused() {
    assert_eq!(
        parse_failure(br#"{"RowKey":"r"}"#),
        DbEntityParseFail::FieldPartitionKeyIsRequired
    );
    assert_eq!(
        parse_failure(br#"{"PartitionKey":null,"RowKey":"r"}"#),
        DbEntityParseFail::FieldPartitionKeyCanNotBeNull
    );
    assert_eq!(
        parse_failure(br#"{"PartitionKey":"p"}"#),
        DbEntityParseFail::FieldRowKeyIsRequired
    );
    assert_eq!(
        parse_failure(br#"{"PartitionKey":"p","RowKey":null}"#),
        DbEntityParseFail::FieldRowKeyCanNotBeNull
    );
    assert_eq!(
        parse_failure(br#"{"PartitionKey":5,"RowKey":"r"}"#),
        DbEntityParseFail::JsonParseError(JsonParseError::StringExpected)
    );
    assert_eq!(
        parse_failure(br#"{"PartitionKey":"p","RowKey":{}}"#),
        DbEntityParseFail::JsonParseError(JsonParseError::StringExpected)
    );
    assert_eq!(
        parse_failure(b"{\"PartitionKey\":\"\xff\",\"RowKey\":\"r\"}"),
        DbEntityParseFail::JsonParseError(JsonParseError::InvalidUtf8)
    );
    assert_eq!(
        parse_failure(br#"{"PartitionKey":"p","RowKey":"r""#),
        DbEntityParseFail::JsonParseError(JsonParseError::UnexpectedEnd)
    );
    assert_eq!(
        parse_failure(b"no json"),
        DbEntityParseFail::JsonParseError(JsonParseError::ObjectExpected)
    );
}

#[test]
fn a_partition_key_of_255_bytes_is_the_longest() {
    let longest = "k".repeat(255);
    let json = format!(r#"{{"PartitionKey":"{}","RowKey":"r"}}"#, longest);
    let entity = DbJsonEntity::parse(json.as_bytes()).unwrap();
    assert_eq!(entity.partition_key, longest);
    let too_long = "k".repeat(256);
    let json = format!(r#"{{"PartitionKey":"{}","RowKey":"r"}}"#, too_long);
    assert_eq!(
        parse_failure(json.as_bytes()),
        DbEntityParseFail::PartitionKeyIsTooLong
    );
    let row_key = "r".repeat(1000);
    let json = format!(r#"{{"PartitionKey":"p","RowKey":"{}"}}"#, row_key);
    assert_eq!(
        DbJsonEntity::parse(json.as_bytes()).unwrap().row_key,
        row_key
    );
}

#[test]
fn keys_keep_letters_of_other_alphabets() {
    let json = "{\"PartitionKey\":\"ключ\",\"RowKey\":\"键\"}";
    let entity = DbJsonEntity::parse(json.as_bytes()).unwrap();
    assert_eq!(entity.partition_key, "ключ");
    assert_eq!(entity.row_key, "键");
}

#[test]
fn rows_of_an_array_are_read() {
    let stamp = JsonTimeStamp::from_date_time(
        my_no_sql_core::date_time::DateTimeAsMicroseconds::new(0),
    );
    let json = br#"[{"PartitionKey":"b","RowKey":"1"},{"PartitionKey":"a","RowKey":"2"},{"PartitionKey":"b","RowKey":"3"}]"#;
    let rows = DbJsonEntity::parse_as_vec(json, &stamp).unwrap();
    let keys: Vec<(&str, &str)> = rows
        .iter()
        .map(|row| (row.partition_key.as_str(), row.row_key.as_str()))
        .collect();
    assert_eq!(keys, vec![("b", "1"), ("a", "2"), ("b", "3")]);
    assert_eq!(
        std::str::from_utf8(&rows[0].data).unwrap(),
        r#"{"TimeStamp":"1970-01-01T00:00:00.000000","PartitionKey":"b","RowKey":"1"}"#
    );

    let restored = DbJsonEntity::restore_as_vec(json).unwrap();
    assert_eq!(restored.len(), 3);
    assert_eq!(
        std::str::from_utf8(&restored[1].data).unwrap(),
        r#"{"PartitionKey":"a","RowKey":"2"}"#
    );

    let by_partition = DbJsonEntity::parse_as_btreemap(json, &stamp).unwrap();
    assert_eq!(by_partition.len(), 2);
    assert_eq!(by_partition.key(0), "a");
    assert_eq!(by_partition.key(1), "b");
    let of_b: Vec<&str> = by_partition
        .get("b")
        .unwrap()
        .iter()
        .map(|row| row.row_key.as_str())
        .collect();
    assert_eq!(of_b, vec!["1", "3"]);
    assert_eq!(by_partition.get("a").unwrap().len(), 1);

    let restored = DbJsonEntity::restore_as_btreemap(json).unwrap();
    assert_eq!(restored.get("b").unwrap().len(), 2);
}

#[test]
fn an_array_with_an_object_that_is_no_row_is_refused() {
    let stamp = JsonTimeStamp::now();
    let json = br#"[{"PartitionKey":"b","RowKey":"1"},{"PartitionKey":"a"}]"#;
    assert!(matches!(
        DbJsonEntity::parse_as_vec(json, &stamp),
        Err(DbEntityParseFail::FieldRowKeyIsRequired)
    ));
    assert!(matches!(
        DbJsonEntity::restore_as_vec(json),
        Err(DbEntityParseFail::FieldRowKeyIsRequired)
    ));
    assert!(matches!(
        DbJsonEntity::parse_as_btreemap(json, &stamp),
        Err(DbEntityParseFail::FieldRowKeyIsRequired)
    ));
    assert!(matches!(
        DbJsonEntity::restore_as_btreemap(b"{}"),
        Err(DbEntityParseFail::JsonParseError(
            JsonParseError::ArrayExpected
        ))
    ));
}
