use std::sync::Arc;

use my_no_sql_core::date_time::DateTimeAsMicroseconds;
use my_no_sql_core::db::DbRowsContainer;
use my_no_sql_core::db_json_entity::{DbJsonEntity, JsonTimeStamp};

#[test]
fn test_that_index_appears() {
    let test_json = r#"{
            "PartitionKey": "test",
            "RowKey": "test",
            "Expires": "2019-01-01T00:00:00",
        }"#;

    let db_json_entity = DbJsonEntity::parse(test_json.as_bytes()).unwrap();

    let mut db_rows = DbRowsContainer::new();
    let time_stamp = JsonTimeStamp::now();
    db_rows.insert(Arc::new(db_json_entity.new_db_row(&time_stamp)));

    assert_eq!(1, db_rows.rows_with_expiration_index.len())
}

#[test]
fn test_that_index_does_not_appear_since_we_do_not_have_expiration() {
    let test_json = r#"{
            "PartitionKey": "test",
            "RowKey": "test",
        }"#;

    let db_json_entity = DbJsonEntity::parse(test_json.as_bytes()).unwrap();

    let mut db_rows = DbRowsContainer::new();
    let time_stamp = JsonTimeStamp::now();
    db_rows.insert(Arc::new(db_json_entity.new_db_row(&time_stamp)));

    assert_eq!(0, db_rows.rows_with_expiration_index.len())
}

#[test]
fn test_that_index_dissapears() {
    let test_json = r#"{
            "PartitionKey": "test",
            "RowKey": "test",
            "Expires": "2019-01-01T00:00:00"
        }"#;

    let db_json_entity = DbJsonEntity::parse(test_json.as_bytes()).unwrap();

    let mut db_rows = DbRowsContainer::new();
    let time_stamp = JsonTimeStamp::now();
    db_rows.insert(Arc::new(db_json_entity.new_db_row(&time_stamp)));

    db_rows.remove("test");

    assert_eq!(0, db_rows.rows_with_expiration_index.len())
}

#[test]
fn test_update_expiration_time_from_no_to() {
    let test_json = r#"{
            "PartitionKey": "test",
            "RowKey": "test"
        }"#;

    let db_json_entity = DbJsonEntity::parse(test_json.as_bytes()).unwrap();

    let mut db_rows = DbRowsContainer::new();
    let time_stamp = JsonTimeStamp::now();
    db_rows.insert(Arc::new(db_json_entity.new_db_row(&time_stamp)));

    assert_eq!(0, db_rows.rows_with_expiration_index.len());

    let new_expiration_time = DateTimeAsMicroseconds::new(2);

    db_rows.update_expiration_time("test", Some(new_expiration_time));

    assert_eq!(
        true,
        db_rows
            .rows_with_expiration_index
            .has_data_with_expiration_moment(2)
    );
    assert_eq!(1, db_rows.rows_with_expiration_index.len());
}

#[test]
fn test_update_expiration_time_to_new_expiration_time() {
    let test_json = r#"{
            "PartitionKey": "test",
            "RowKey": "test",
            "Expires": "2019-01-01T00:00:00",
        }"#;

    let db_json_entity = DbJsonEntity::parse(test_json.as_bytes()).unwrap();

    let mut db_rows = DbRowsContainer::new();

    let time_stamp = JsonTimeStamp::now();

    let db_row = Arc::new(db_json_entity.new_db_row(&time_stamp));
    db_rows.insert(db_row.clone());

    let current_expiration = DateTimeAsMicroseconds::from_str("2019-01-01T00:00:00").unwrap();

    assert_eq!(
        true,
        db_rows
            .rows_with_expiration_index
            .has_data_with_expiration_moment(current_expiration.unix_microseconds)
    );
    assert_eq!(1, db_rows.rows_with_expiration_index.len());

    db_rows.update_expiration_time("test", Some(DateTimeAsMicroseconds::new(2)));

    assert_eq!(
        true,
        db_rows
            .rows_with_expiration_index
            .has_data_with_expiration_moment(2)
    );
    assert_eq!(1, db_rows.rows_with_expiration_index.len());
}

#[test]
fn test_update_expiration_time_from_some_to_no() {
    let mut db_rows = DbRowsContainer::new();

    let test_json = r#"{
            "PartitionKey": "test",
            "RowKey": "test",
            "Expires": "2019-01-01T00:00:00",
        }"#;

    let db_json_entity = DbJsonEntity::parse(test_json.as_bytes()).unwrap();

    let now = JsonTimeStamp::now();
    let db_row = Arc::new(db_json_entity.new_db_row(&now));
    db_rows.insert(db_row.clone());

    let current_expiration = DateTimeAsMicroseconds::from_str("2019-01-01T00:00:00").unwrap();

    assert_eq!(
        true,
        db_rows
            .rows_with_expiration_index
            .has_data_with_expiration_moment(current_expiration.unix_microseconds)
    );
    assert_eq!(1, db_rows.rows_with_expiration_index.len());

    db_rows.update_expiration_time("test", None);
    assert_eq!(0, db_rows.rows_with_expiration_index.len());
}

#[test]
fn test_we_do_not_have_db_rows_to_expire() {
    let mut db_rows = DbRowsContainer::new();

    let test_json = r#"{
            "PartitionKey": "test",
            "RowKey": "test",
            "Expires": "2019-01-01T00:00:00",
        }"#;

    let db_json_entity = DbJsonEntity::parse(test_json.as_bytes()).unwrap();

    let now = JsonTimeStamp::now();

    let db_row = Arc::new(db_json_entity.new_db_row(&now));
    db_rows.insert(db_row.clone());

    let mut now = DateTimeAsMicroseconds::from_str("2019-01-01T00:00:00").unwrap();
    now.unix_microseconds -= 1;

    let rows_to_expire = db_rows.rows_with_expiration_index.get_items_to_expire(now);

    assert_eq!(true, rows_to_expire.is_none());
}

#[test]
fn test_we_do_have_db_rows_to_expire() {
    let mut db_rows = DbRowsContainer::new();

    let test_json = r#"{
            "PartitionKey": "test",
            "RowKey": "test",
            "Expires": "2019-01-01T00:00:00",
        }"#;

    let db_json_entity = DbJsonEntity::parse(test_json.as_bytes()).unwrap();

    let now = JsonTimeStamp::now();

    let db_row = Arc::new(db_json_entity.new_db_row(&now));
    db_rows.insert(db_row.clone());

    let now = DateTimeAsMicroseconds::from_str("2019-01-01T00:00:00").unwrap();

    let rows_to_expire = db_rows.rows_with_expiration_index.get_items_to_expire(now);

    assert_eq!(true, rows_to_expire.is_some());
}

#[test]
fn check_gc_max_rows_amount() {
    let mut db_rows = DbRowsContainer::new();

    let mut now = DateTimeAsMicroseconds::now();

    let db_json_entity = DbJsonEntity::parse(
        r#"{
            "PartitionKey": "test",
            "RowKey": "test1",
        }"#
        .as_bytes(),
    )
    .unwrap();

    let db_row = Arc::new(db_json_entity.new_db_row(&JsonTimeStamp::from_date_time(now)));

    db_rows.insert(db_row.clone());

    // Next Item

    now.add_seconds(1);

    let db_json_entity = DbJsonEntity::parse(
        r#"{
            "PartitionKey": "test",
            "RowKey": "test2",
        }"#
        .as_bytes(),
    )
    .unwrap();

    let db_row = Arc::new(db_json_entity.new_db_row(&JsonTimeStamp::from_date_time(now)));

    db_rows.insert(db_row.clone());

    // Next Item

    now.add_seconds(1);

    let db_json_entity = DbJsonEntity::parse(
        r#"{
                    "PartitionKey": "test",
                    "RowKey": "test3",
                }"#
        .as_bytes(),
    )
    .unwrap();

    let db_row = Arc::new(db_json_entity.new_db_row(&JsonTimeStamp::from_date_time(now)));

    db_rows.insert(db_row.clone());

    // Next Item

    now.add_seconds(1);

    let db_json_entity = DbJsonEntity::parse(
        r#"{
                            "PartitionKey": "test",
                            "RowKey": "test4",
                        }"#
        .as_bytes(),
    )
    .unwrap();

    let db_row = Arc::new(db_json_entity.new_db_row(&JsonTimeStamp::from_date_time(now)));

    db_rows.insert(db_row.clone());

    let db_rows_to_gc = db_rows.get_rows_to_gc_by_max_amount(3).unwrap();

    assert_eq!("test1", &db_rows_to_gc.get(0).unwrap().row_key);
}
