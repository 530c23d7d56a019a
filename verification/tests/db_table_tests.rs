use std::sync::Arc;

use my_no_sql_core::db::{DbTable, DbTableAttributes};
use my_no_sql_core::db_json_entity::{DbJsonEntity, JsonTimeStamp};

#[test]
fn test_insert_record() {
    let mut db_table = DbTable::new(
        "test-table".to_string(),
        DbTableAttributes::create_default(),
    );

    let now = JsonTimeStamp::now();

    let test_json = r#"{
            "PartitionKey": "test",
            "RowKey": "test",
        }"#;

    let db_json_entity = DbJsonEntity::parse(test_json.as_bytes()).unwrap();

    let db_row = db_json_entity.new_db_row(&now);

    let db_row = Arc::new(db_row);

    db_table.insert_row(&db_row, None);

    assert_eq!(db_table.get_table_size(), db_row.data.len());
    assert_eq!(db_table.get_partitions_amount(), 1);
}

#[test]
fn test_insert_and_insert_or_replace() {
    let mut db_table = DbTable::new(
        "test-table".to_string(),
        DbTableAttributes::create_default(),
    );

    let now = JsonTimeStamp::now();

    let test_json = r#"{
            "PartitionKey": "test",
            "RowKey": "test",
        }"#;

    let db_json_entity = DbJsonEntity::parse(test_json.as_bytes()).unwrap();

    let db_row = db_json_entity.new_db_row(&now);

    let db_row = Arc::new(db_row);

    db_table.insert_row(&db_row, None);

    let test_json = r#"{
            "PartitionKey": "test",
            "RowKey": "test",
            "AAA": "111"
        }"#;

    let db_json_entity = DbJsonEntity::parse(test_json.as_bytes()).unwrap();

    let db_row2 = db_json_entity.new_db_row(&now);

    let db_row2 = Arc::new(db_row2);

    db_table.insert_or_replace_row(&db_row2, None);

    assert_eq!(db_table.get_table_size(), db_row2.data.len());
    assert_eq!(db_table.get_partitions_amount(), 1);
}
