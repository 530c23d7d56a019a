use my_no_sql_core::db_json_entity::{DbEntityParseFail, DbJsonEntity, JsonTimeStamp};

#[test]
pub fn parse_expires_with_z() {
    let src_json = r#"{"TwoFaMethods": {},
            "PartitionKey": "ff95cdae9f7e4f1a847f6b83ad68b495",
            "RowKey": "6c09c7f0e44d4ef79cfdd4252ebd54ab",
            "TimeStamp": "2022-03-17T09:28:27.5923",
            "Expires": "2022-03-17T13:28:29.6537478Z"
          }"#;

    let entity = DbJsonEntity::parse(src_json.as_bytes()).unwrap();

    let expires = entity.expires.as_ref().unwrap();

    assert_eq!("2022-03-17T13:28:29.653747", &expires.to_rfc3339()[..26]);

    let expires_value_position = entity.expires_value_position.unwrap();

    let expires_key =
        &src_json.as_bytes()[expires_value_position.key_start..expires_value_position.key_end];

    assert_eq!("\"Expires\"", std::str::from_utf8(expires_key).unwrap());

    let expires_value = &src_json.as_bytes()
        [expires_value_position.value_start..expires_value_position.value_end];

    assert_eq!(
        "\"2022-03-17T13:28:29.6537478Z\"",
        std::str::from_utf8(expires_value).unwrap()
    );
}

#[test]
pub fn parse_with_partition_key_is_null() {
    let src_json = r#"{"TwoFaMethods": {},
            "PartitionKey": null,
            "RowKey": "test",
            "TimeStamp": "2022-03-17T09:28:27.5923",
            "Expires": "2022-03-17T13:28:29.6537478Z"
          }"#;

    let result = DbJsonEntity::parse(src_json.as_bytes());

    if let Err(DbEntityParseFail::FieldPartitionKeyCanNotBeNull) = result {
    } else {
        panic!("Should not be here")
    }
}

#[test]
pub fn parse_some_case_from_real_life() {
    let src_json = r#"{"value":{"is_enabled":true,"fee_percent":5.0,"min_balance_usd":100.0,"fee_period_days":30,"inactivity_period_days":90},"PartitionKey":"*","RowKey":"*"}"#;

    let result = DbJsonEntity::parse(src_json.as_bytes()).unwrap();

    let time_stamp = JsonTimeStamp::now();
    let db_row = result.new_db_row(&time_stamp);

    println!("{:?}", std::str::from_utf8(db_row.data.as_slice()).unwrap());
}
