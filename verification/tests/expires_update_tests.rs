use my_no_sql_core::db_json_entity::{
    compile_data_with_new_expires, remove_expiration_time, DbJsonEntity, JsonTimeStamp,
};

#[test]
fn test_replace_existing_expires() {
    let test_json = r#"{
            "PartitionKey": "test",
            "RowKey": "test",
            "Expires": "2019-01-01T00:00:00",
        }"#;

    let db_json_entity = DbJsonEntity::parse(test_json.as_bytes()).unwrap();

    let inject_time_stamp = JsonTimeStamp::now();
    let db_row = db_json_entity.new_db_row(&inject_time_stamp);

    let (new_value, new_json_value) = compile_data_with_new_expires(&db_row, "2020-01-01T00:00:00");

    let db_json_entity = DbJsonEntity::parse(new_value.as_slice()).unwrap();

    let expires_position = db_json_entity.expires_value_position.as_ref().unwrap();

    let value = &new_value[expires_position.value_start..expires_position.value_end];

    assert_eq!(
        "\"2020-01-01T00:00:00\"",
        std::str::from_utf8(value).unwrap()
    );

    assert_eq!(new_json_value.key_start, expires_position.key_start);
    assert_eq!(new_json_value.key_end, expires_position.key_end);

    assert_eq!(new_json_value.value_start, expires_position.value_start);
    assert_eq!(new_json_value.value_end, expires_position.value_end);
}

#[test]
fn test_injecting_expires() {
    let test_json = r#"{
            "PartitionKey": "test",
            "RowKey": "test"
        }"#;

    let db_json_entity = DbJsonEntity::parse(test_json.as_bytes()).unwrap();

    let inject_time_stamp = JsonTimeStamp::now();
    let db_row = db_json_entity.new_db_row(&inject_time_stamp);

    let (new_value, new_json_value) = compile_data_with_new_expires(&db_row, "2020-01-01T00:00:00");

    let db_json_entity = DbJsonEntity::parse(new_value.as_slice()).unwrap();

    let expires_position = db_json_entity.expires_value_position.as_ref().unwrap();

    let value = &new_value[expires_position.value_start..expires_position.value_end];

    assert_eq!(
        "\"2020-01-01T00:00:00\"",
        std::str::from_utf8(value).unwrap()
    );

    assert_eq!(new_json_value.key_start, expires_position.key_start);
    assert_eq!(new_json_value.key_end, expires_position.key_end);

    assert_eq!(new_json_value.value_start, expires_position.value_start);
    assert_eq!(new_json_value.value_end, expires_position.value_end);
}

#[test]
fn test_remove_expiration_time() {
    let test_json = r#"{
            "PartitionKey": "test",
            "RowKey": "test",
            "Expires": "2019-01-01T00:00:00"
        }"#;

    let db_json_entity = DbJsonEntity::parse(test_json.as_bytes()).unwrap();

    let inject_time_stamp = JsonTimeStamp::now();
    let db_row = db_json_entity.new_db_row(&inject_time_stamp);

    let new_value = remove_expiration_time(&db_row);

    println!("{:#}", std::str::from_utf8(&new_value).unwrap());

    let db_json_entity = DbJsonEntity::parse(new_value.as_slice()).unwrap();

    assert!(db_json_entity.expires_value_position.is_none());
}

#[test]
fn test_remove_expiration_time_at_begin() {
    let test_json = r#"{
            "Expires": "2019-01-01T00:00:00"   ,
            "PartitionKey": "test",
            "RowKey": "test",
  
        }"#;

    let db_json_entity = DbJsonEntity::parse(test_json.as_bytes()).unwrap();

    let inject_time_stamp = JsonTimeStamp::now();
    let db_row = db_json_entity.new_db_row(&inject_time_stamp);

    let new_value = remove_expiration_time(&db_row);

    println!("{:#}", std::str::from_utf8(&new_value).unwrap());

    let db_json_entity = DbJsonEntity::parse(new_value.as_slice()).unwrap();

    assert!(db_json_entity.expires_value_position.is_none());
}

#[test]
fn test_remove_expiration_time_at_the_middle() {
    let test_json = r#"{
            "PartitionKey": "test",
            "Expires": "2019-01-01T00:00:00",
            "RowKey": "test",
  
        }"#;

    let db_json_entity = DbJsonEntity::parse(test_json.as_bytes()).unwrap();

    let inject_time_stamp = JsonTimeStamp::now();
    let db_row = db_json_entity.new_db_row(&inject_time_stamp);

    let new_value = remove_expiration_time(&db_row);

    println!("{:#}", std::str::from_utf8(&new_value).unwrap());

    let db_json_entity = DbJsonEntity::parse(new_value.as_slice()).unwrap();

    assert!(db_json_entity.expires_value_position.is_none());
}
