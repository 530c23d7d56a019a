use std::sync::Arc;

use my_no_sql_core::date_time::DateTimeAsMicroseconds;
use my_no_sql_core::db::db_snapshots::{DbPartitionSnapshot, DbRowsSnapshot, DbTableSnapshot};
use my_no_sql_core::db::{
    DataToGc, DbPartition, DbPartitionsContainer, DbRow, DbRowsContainer, DbTable,
    DbTableAttributes, UpdateExpirationDateTime, UpdateExpirationTimeModel,
    UpdatePartitionReadMoment,
};
use my_no_sql_core::db_json_entity::{DbJsonEntity, JsonTimeStamp};
use my_no_sql_core::sync_to_main::SyncToMainNodeEvent;

fn new_row(partition_key: &str, row_key: &str, expires: Option<&str>, read_at: i64) -> Arc<DbRow> {
    let json = match expires {
        Some(expires) => format!(
            r#"{{"PartitionKey":"{}","RowKey":"{}","Expires":"{}"}}"#,
            partition_key, row_key, expires
        ),
        None => format!(
            r#"{{"PartitionKey":"{}","RowKey":"{}"}}"#,
            partition_key, row_key
        ),
    };
    let stamp = JsonTimeStamp::from_date_time(DateTimeAsMicroseconds::new(read_at));
    Arc::new(
        DbJsonEntity::parse(json.as_bytes())
            .unwrap()
            .new_db_row(&stamp),
    )
}

fn keys_of(rows: &[&Arc<DbRow>]) -> Vec<String> {
    rows.iter().map(|row| row.row_key.clone()).collect()
}

fn new_table(max_partitions: Option<usize>, max_rows: Option<usize>) -> DbTable {
    DbTable::new(
        "table".to_string(),
        DbTableAttributes::new(true, max_partitions, max_rows, DateTimeAsMicroseconds::new(1)),
    )
}

fn moment(instant: i64) -> Option<DateTimeAsMicroseconds> {
    Some(DateTimeAsMicroseconds::new(instant))
}

#[test]
fn insert_then_read() {
    let mut table = new_table(None, None);
    let row = new_row("p", "r", None, 0);
    assert!(table.insert_row(&row, None));
    assert_eq!(table.get_table_size(), row.data.len());
    assert_eq!(table.get_partitions_amount(), 1);
    assert_eq!(table.get_rows_amount(), 1);
    assert_eq!(table.get_expiration_index_rows_amount(), 0);
    let found = table.get_partition("p").unwrap().get_row("r").unwrap();
    assert!(Arc::ptr_eq(found, &row));
    assert!(table.get_partition("q").is_none());
    assert!(table.get_partition("p").unwrap().get_row("x").is_none());
}

#[test]
fn insert_or_replace_grows_then_shrinks() {
    let mut table = new_table(None, None);
    let mut short = DbRow::new(
        &DbJsonEntity::parse(br#"{"PartitionKey":"p","RowKey":"r"}"#).unwrap(),
        vec![b'{', b' ', b'}'],
        &JsonTimeStamp::now(),
    );
    short.expires_json_position = None;
    let mut long = DbRow::new(
        &DbJsonEntity::parse(br#"{"PartitionKey":"p","RowKey":"r"}"#).unwrap(),
        vec![b'{', b' ', b' ', b'}'],
        &JsonTimeStamp::now(),
    );
    long.expires_json_position = None;
    let short = Arc::new(short);
    let long = Arc::new(long);
    assert!(table.insert_row(&short, None));
    assert_eq!(table.get_table_size(), 3);
    let replaced = table.insert_or_replace_row(&long, None).unwrap();
    assert!(Arc::ptr_eq(&replaced, &short));
    assert_eq!(table.get_table_size(), 4);
    assert_eq!(table.get_partitions_amount(), 1);
    assert_eq!(table.get_rows_amount(), 1);
    let replaced = table.insert_or_replace_row(&short, None).unwrap();
    assert!(Arc::ptr_eq(&replaced, &long));
    assert_eq!(table.get_table_size(), 3);
}

#[test]
fn expiration_index_materializes() {
    let mut rows = DbRowsContainer::new();
    rows.insert(new_row("p", "r", Some("2019-01-01T00:00:00"), 0));
    assert_eq!(rows.rows_with_expiration_index_len(), 1);
    assert!(rows
        .rows_with_expiration_index
        .has_data_with_expiration_moment(1_546_300_800_000_000));
    assert!(!rows
        .rows_with_expiration_index
        .has_data_with_expiration_moment(1_546_300_800_000_001));
}

#[test]
fn expiration_from_none_to_some() {
    let mut rows = DbRowsContainer::new();
    let row = new_row("p", "r", None, 0);
    rows.insert(row.clone());
    let old = rows
        .update_expiration_time("r", moment(2))
        .unwrap();
    assert!(Arc::ptr_eq(&old, &row));
    assert!(rows
        .rows_with_expiration_index
        .has_data_with_expiration_moment(2));
    assert_eq!(rows.rows_with_expiration_index_len(), 1);
    let changed = rows.get("r").unwrap();
    assert_eq!(changed.expires, moment(2));
    let text = std::str::from_utf8(&changed.data).unwrap();
    assert!(text.contains(r#""Expires":"1970-01-01T00:00:00.000002""#));
    let read = DbJsonEntity::parse(&changed.data).unwrap();
    assert_eq!(read.expires, moment(2));
    assert_eq!(read.expires_value_position, changed.expires_json_position);
}

#[test]
fn expiration_from_some_to_none() {
    let mut rows = DbRowsContainer::new();
    rows.insert(new_row("p", "r", Some("2019-01-01T00:00:00"), 0));
    assert!(rows.update_expiration_time("r", None).is_some());
    assert_eq!(rows.rows_with_expiration_index_len(), 0);
    let changed = rows.get("r").unwrap();
    assert!(changed.expires.is_none());
    let read = DbJsonEntity::parse(&changed.data).unwrap();
    assert!(read.expires_value_position.is_none());
    assert!(read.expires.is_none());
}

#[test]
fn expiration_that_stays_changes_nothing() {
    let mut rows = DbRowsContainer::new();
    let with = new_row("p", "with", Some("2019-01-01T00:00:00"), 0);
    let without = new_row("p", "without", None, 0);
    rows.insert(with.clone());
    rows.insert(without.clone());
    assert!(rows.update_expiration_time("without", None).is_none());
    assert!(rows
        .update_expiration_time("with", moment(1_546_300_800_000_000))
        .is_none());
    assert!(rows.update_expiration_time("missing", moment(5)).is_none());
    assert!(Arc::ptr_eq(rows.get("with").unwrap(), &with));
    assert!(Arc::ptr_eq(rows.get("without").unwrap(), &without));
    assert_eq!(rows.rows_with_expiration_index_len(), 1);
    assert_eq!(rows.len(), 2);
}

#[test]
fn gc_by_max_rows() {
    let mut rows = DbRowsContainer::new();
    rows.insert(new_row("p", "r1", None, 10));
    rows.insert(new_row("p", "r2", None, 20));
    rows.insert(new_row("p", "r3", None, 30));
    rows.insert(new_row("p", "r4", None, 40));
    assert_eq!(
        keys_of(&rows.get_rows_to_gc_by_max_amount(3).unwrap()),
        vec!["r1"]
    );
    assert!(rows.get_rows_to_gc_by_max_amount(4).is_none());
    assert!(rows.get_rows_to_gc_by_max_amount(5).is_none());
    assert_eq!(
        keys_of(&rows.get_rows_to_gc_by_max_amount(0).unwrap()),
        vec!["r1", "r2", "r3", "r4"]
    );
}

#[test]
fn gc_by_max_rows_takes_the_longest_unread() {
    let mut rows = DbRowsContainer::new();
    rows.insert(new_row("p", "a", None, 40));
    rows.insert(new_row("p", "b", None, 10));
    rows.insert(new_row("p", "c", None, 30));
    rows.insert(new_row("p", "d", None, 10));
    assert_eq!(
        keys_of(&rows.get_rows_to_gc_by_max_amount(1).unwrap()),
        vec!["b", "d", "c"]
    );
    rows.get("b")
        .unwrap()
        .update_last_read_access(DateTimeAsMicroseconds::new(100));
    assert_eq!(
        keys_of(&rows.get_rows_to_gc_by_max_amount(2).unwrap()),
        vec!["d", "c"]
    );
}

#[test]
fn rows_to_expire_come_in_the_order_of_their_instants() {
    let mut rows = DbRowsContainer::new();
    rows.insert(new_row("p", "late", Some("2019-01-03T00:00:00"), 0));
    rows.insert(new_row("p", "early", Some("2019-01-01T00:00:00"), 0));
    rows.insert(new_row("p", "never", None, 0));
    rows.insert(new_row("p", "middle", Some("2019-01-02T00:00:00"), 0));
    let before = DateTimeAsMicroseconds::from_str("2018-12-31T23:59:59.999999").unwrap();
    assert!(rows.get_rows_to_expire(before).is_none());
    let at_first = DateTimeAsMicroseconds::from_str("2019-01-01T00:00:00").unwrap();
    assert_eq!(
        keys_of(&rows.get_rows_to_expire(at_first).unwrap()),
        vec!["early"]
    );
    let at_second = DateTimeAsMicroseconds::from_str("2019-01-02T12:00:00").unwrap();
    assert_eq!(
        keys_of(&rows.get_rows_to_expire(at_second).unwrap()),
        vec!["early", "middle"]
    );
    let later = DateTimeAsMicroseconds::from_str("2020-01-01T00:00:00").unwrap();
    assert_eq!(
        keys_of(&rows.get_rows_to_expire(later).unwrap()),
        vec!["early", "middle", "late"]
    );
}

#[test]
fn rows_are_kept_in_the_order_of_their_keys() {
    let mut rows = DbRowsContainer::new();
    for key in ["m", "b", "z", "a"] {
        assert!(rows.insert(new_row("p", key, None, 0)).is_none());
    }
    assert_eq!(rows.len(), 4);
    assert_eq!(keys_of(&rows.get_all()), vec!["a", "b", "m", "z"]);
    assert!(rows.has_db_row("m"));
    assert!(!rows.has_db_row("n"));
    let upto = |key: &str, limit: Option<usize>| -> Option<Vec<String>> {
        rows.get_highest_row_and_below(&key.to_string(), limit)
            .map(|found| keys_of(&found))
    };
    assert_eq!(upto("m", None).unwrap(), vec!["a", "b", "m"]);
    assert_eq!(upto("n", None).unwrap(), vec!["a", "b", "m"]);
    assert_eq!(upto("zz", None).unwrap(), vec!["a", "b", "m", "z"]);
    assert_eq!(upto("a", None).unwrap(), vec!["a"]);
    assert_eq!(upto("m", Some(2)).unwrap(), vec!["a", "b"]);
    assert_eq!(upto("m", Some(10)).unwrap(), vec!["a", "b", "m"]);
    assert!(upto("m", Some(0)).is_none());
    assert!(upto("", None).is_none());
    assert!(upto("0", None).is_none());
}

#[test]
fn a_replaced_row_leaves_the_index() {
    let mut rows = DbRowsContainer::new();
    let first = new_row("p", "r", Some("2019-01-01T00:00:00"), 0);
    let second = new_row("p", "r", Some("2019-01-01T00:00:00"), 5);
    let third = new_row("p", "r", None, 5);
    rows.insert(first.clone());
    let replaced = rows.insert(second.clone()).unwrap();
    assert!(Arc::ptr_eq(&replaced, &first));
    assert_eq!(rows.rows_with_expiration_index_len(), 1);
    let at = DateTimeAsMicroseconds::from_str("2019-01-01T00:00:00").unwrap();
    let due = rows.get_rows_to_expire(at).unwrap();
    assert!(Arc::ptr_eq(due[0], &second));
    rows.insert(third);
    assert_eq!(rows.rows_with_expiration_index_len(), 0);
    assert_eq!(rows.len(), 1);
    assert!(rows.remove("missing").is_none());
    assert!(rows.remove("r").is_some());
    assert_eq!(rows.len(), 0);
}

#[test]
fn partition_counts_the_bytes_of_its_rows() {
    let mut partition = DbPartition::new();
    assert!(partition.is_empty());
    assert_eq!(partition.get_content_size(), 0);
    let a = new_row("p", "a", None, 0);
    let b = new_row("p", "b", Some("2019-01-01T00:00:00"), 0);
    let longer_a = new_row("p", "a", Some("2019-01-01T00:00:00"), 0);
    assert!(partition.insert_row(a.clone()));
    assert!(!partition.insert_row(longer_a.clone()));
    assert_eq!(partition.get_content_size(), a.data.len());
    assert!(partition.insert_row(b.clone()));
    assert_eq!(partition.get_content_size(), a.data.len() + b.data.len());
    let replaced = partition.insert_or_replace_row(longer_a.clone()).unwrap();
    assert!(Arc::ptr_eq(&replaced, &a));
    assert_eq!(
        partition.get_content_size(),
        longer_a.data.len() + b.data.len()
    );
    assert_eq!(partition.rows_count(), 2);
    assert_eq!(partition.get_rows_amount(), 2);
    assert_eq!(partition.get_expiration_index_rows_amount(), 2);
    assert!(!partition.is_empty());
    assert!(partition.remove_row("missing").is_none());
    assert!(Arc::ptr_eq(&partition.remove_row("a").unwrap(), &longer_a));
    assert_eq!(partition.get_content_size(), b.data.len());
    assert!(Arc::ptr_eq(
        &partition.get_row_and_clone("b").unwrap(),
        &b
    ));
    assert_eq!(Arc::strong_count(&b), 3);
    let cloned = partition.get_all_rows_cloned();
    assert_eq!(cloned.len(), 1);
    assert!(Arc::ptr_eq(&cloned[0], &b));
    assert_eq!(Arc::strong_count(&b), 4);
    assert_eq!(keys_of(&partition.get_all_rows()), vec!["b"]);
    assert!(partition.get_row_and_clone("a").is_none());
}

#[test]
fn partition_takes_rows_in_bulk() {
    let mut partition = DbPartition::new();
    let a = new_row("p", "a", None, 0);
    let b = new_row("p", "b", None, 0);
    let a2 = new_row("p", "a", Some("2019-01-01T00:00:00"), 0);
    let c = new_row("p", "c", None, 0);
    assert!(partition
        .insert_or_replace_rows_bulk(&[a.clone(), b.clone()])
        .is_none());
    let displaced = partition
        .insert_or_replace_rows_bulk(&[a2.clone(), c.clone(), a.clone()])
        .unwrap();
    assert_eq!(displaced.len(), 2);
    assert!(Arc::ptr_eq(&displaced[0], &a));
    assert!(Arc::ptr_eq(&displaced[1], &a2));
    assert_eq!(partition.get_rows_amount(), 3);
    assert_eq!(
        partition.get_content_size(),
        a.data.len() + b.data.len() + c.data.len()
    );
    assert_eq!(partition.get_expiration_index_rows_amount(), 0);
    assert!(partition.insert_or_replace_rows_bulk(&[]).is_none());
    assert!(partition
        .remove_rows_bulk(&["x".to_string(), "y".to_string()])
        .is_none());
    let removed = partition
        .remove_rows_bulk(&["c".to_string(), "x".to_string(), "a".to_string(), "c".to_string()])
        .unwrap();
    assert_eq!(removed.len(), 2);
    assert!(Arc::ptr_eq(&removed[0], &c));
    assert!(Arc::ptr_eq(&removed[1], &a));
    assert_eq!(partition.get_content_size(), b.data.len());
    assert!(partition.remove_rows_bulk(&[]).is_none());
}

#[test]
fn partition_collects_the_longest_unread_rows() {
    let mut partition = DbPartition::new();
    partition.insert_row(new_row("p", "a", None, 6));
    partition.insert_row(new_row("p", "b", None, 5));
    partition.insert_row(new_row("p", "c", None, 5));
    partition.insert_row(new_row("p", "d", None, 100));
    assert!(partition.gc_rows(4).is_none());
    assert!(partition.gc_rows(9).is_none());
    let removed = partition.gc_rows(2).unwrap();
    let keys: Vec<&str> = removed.iter().map(|row| row.row_key.as_str()).collect();
    assert_eq!(keys, vec!["b", "a"]);
    assert_eq!(keys_of(&partition.get_all_rows()), vec!["c", "d"]);
    assert_eq!(
        partition
            .get_row("c")
            .unwrap()
            .last_read_access
            .get_unix_microseconds(),
        7
    );
    let size: usize = partition
        .get_all_rows()
        .iter()
        .map(|row| row.data.len())
        .sum();
    assert_eq!(partition.get_content_size(), size);
    let removed = partition.gc_rows(0).unwrap();
    assert_eq!(removed.len(), 2);
    assert!(partition.is_empty());
    assert_eq!(partition.get_content_size(), 0);
}

#[test]
fn partition_notes_when_it_was_read() {
    let partition = DbPartition::new();
    partition.update_last_read_moment(DateTimeAsMicroseconds::new(5));
    assert_eq!(partition.get_last_read_moment().unix_microseconds, 5);
    partition.update_last_read_moment_by(UpdatePartitionReadMoment::Never);
    assert_eq!(partition.get_last_read_moment().unix_microseconds, 5);
    partition.update_last_read_moment_by(UpdatePartitionReadMoment::OnlyIfFound(
        DateTimeAsMicroseconds::new(6),
        false,
    ));
    assert_eq!(partition.get_last_read_moment().unix_microseconds, 5);
    partition.update_last_read_moment_by(UpdatePartitionReadMoment::OnlyIfFound(
        DateTimeAsMicroseconds::new(7),
        true,
    ));
    assert_eq!(partition.get_last_read_moment().unix_microseconds, 7);
    partition.update_last_read_moment_by(UpdatePartitionReadMoment::Always(
        DateTimeAsMicroseconds::new(8),
    ));
    assert_eq!(partition.get_last_read_moment().unix_microseconds, 8);
    assert_eq!(
        UpdatePartitionReadMoment::Always(DateTimeAsMicroseconds::new(1)).moment_to_note(),
        moment(1)
    );
    assert_eq!(UpdatePartitionReadMoment::Never.moment_to_note(), None);
}

#[test]
fn last_access_is_the_later_of_read_and_write() {
    let mut partition = DbPartition::new();
    partition.last_write_moment = DateTimeAsMicroseconds::new(50);
    partition.update_last_read_moment(DateTimeAsMicroseconds::new(40));
    assert_eq!(partition.get_last_access().unix_microseconds, 50);
    assert_eq!(partition.get_last_write_moment().unix_microseconds, 50);
    partition.update_last_read_moment(DateTimeAsMicroseconds::new(60));
    assert_eq!(partition.get_last_access().unix_microseconds, 60);
}

#[test]
fn partitions_that_expire_stand_in_the_index() {
    let mut partitions = DbPartitionsContainer::new();
    let mut first = DbPartition::new();
    first.expires = moment(20);
    let mut second = DbPartition::new();
    second.expires = moment(10);
    partitions.insert(&"first".to_string(), first);
    partitions.insert(&"second".to_string(), second);
    partitions.insert(&"third".to_string(), DbPartition::new());
    assert_eq!(partitions.len(), 3);
    assert_eq!(partitions.partitions_to_expire_index.len(), 2);
    assert!(partitions
        .get_partitions_to_expire(DateTimeAsMicroseconds::new(9))
        .is_none());
    assert_eq!(
        partitions
            .get_partitions_to_expire(DateTimeAsMicroseconds::new(10))
            .unwrap(),
        vec!["second"]
    );
    assert_eq!(
        partitions
            .get_partitions_to_expire(DateTimeAsMicroseconds::new(20))
            .unwrap(),
        vec!["second", "first"]
    );
    let mut again = DbPartition::new();
    again.expires = moment(30);
    partitions.insert(&"second".to_string(), again);
    assert_eq!(partitions.len(), 3);
    assert_eq!(partitions.partitions_to_expire_index.len(), 2);
    assert_eq!(
        partitions
            .get_partitions_to_expire(DateTimeAsMicroseconds::new(30))
            .unwrap(),
        vec!["first", "second"]
    );
    partitions.insert(&"first".to_string(), DbPartition::new());
    assert_eq!(partitions.partitions_to_expire_index.len(), 1);
    assert!(partitions.has_partition("first"));
    assert!(partitions.get("nowhere").is_none());
    assert!(partitions.remove(&"nowhere".to_string()).is_none());
    assert!(partitions.remove(&"second".to_string()).is_some());
    assert_eq!(partitions.partitions_to_expire_index.len(), 0);
    assert_eq!(partitions.len(), 2);
    assert_eq!(partitions.get_all().len(), 2);
    assert_eq!(partitions.get_partitions().len(), 2);
    assert_eq!(partitions.find("first"), (0, true));
    assert_eq!(partitions.find("second"), (1, false));
    let taken = partitions.clear().unwrap();
    assert_eq!(taken.len(), 2);
    assert_eq!(partitions.len(), 0);
    assert!(partitions.clear().is_none());
}

#[test]
fn partitions_read_longest_ago_go_first() {
    let mut partitions = DbPartitionsContainer::new();
    for (key, read_at) in [("a", 30), ("b", 10), ("c", 20), ("d", 10)] {
        let partition = DbPartition::new();
        partition.update_last_read_moment(DateTimeAsMicroseconds::new(read_at));
        partitions.insert(&key.to_string(), partition);
    }
    assert!(partitions.get_partitions_to_gc_by_max_amount(4).is_none());
    assert_eq!(
        partitions.get_partitions_to_gc_by_max_amount(3).unwrap(),
        vec!["b"]
    );
    assert_eq!(
        partitions.get_partitions_to_gc_by_max_amount(1).unwrap(),
        vec!["b", "d", "c"]
    );
}

#[test]
fn what_is_to_be_collected_is_noted() {
    let mut plan = DataToGc::new();
    assert!(!plan.has_data_to_gc());
    assert!(plan.get_partitions_to_gc().is_none());
    assert!(plan.get_rows_to_gc().is_none());
    assert!(!plan.has_partition_to_gc("p"));
    plan.add_rows_to_expire("q", vec!["1".to_string()]);
    plan.add_partition_to_expire("p");
    plan.add_partition_to_expire("p");
    assert!(plan.has_data_to_gc());
    assert!(plan.has_partition_to_gc("p"));
    assert!(!plan.has_partition_to_gc("q"));
    plan.add_rows_to_expire("p", vec!["1".to_string()]);
    plan.add_rows_to_expire("q", vec!["2".to_string(), "3".to_string()]);
    plan.add_rows_to_expire("a", vec![]);
    assert_eq!(plan.get_partitions_to_gc().unwrap().len(), 1);
    let rows = plan.get_rows_to_gc().unwrap();
    assert_eq!(rows.len(), 2);
    assert!(rows.get("p").is_none());
    assert_eq!(rows.get("q").unwrap(), &vec!["1", "2", "3"]);
    assert_eq!(rows.get("a").unwrap().len(), 0);
    let inner = plan.get_data_to_gc().unwrap();
    assert_eq!(inner.partitions.len(), 1);
    assert_eq!(inner.db_rows.len(), 2);
    assert!(DataToGc::new().get_data_to_gc().is_none());
}

#[test]
fn insert_then_remove_leaves_the_table_as_it_was() {
    let mut table = new_table(None, None);
    table.insert_row(&new_row("p", "kept", Some("2019-01-01T00:00:00"), 0), None);
    let size = table.get_table_size();
    let row = new_row("p", "r", Some("2019-01-01T00:00:00"), 0);
    let other = new_row("q", "r", None, 0);
    assert!(table.insert_row(&row, moment(5)));
    assert!(table.insert_row(&other, moment(6)));
    assert_eq!(table.get_table_size(), size + row.data.len() + other.data.len());
    assert_eq!(table.get_rows_amount(), 3);
    assert_eq!(table.get_partitions_amount(), 2);
    assert_eq!(table.get_expiration_index_rows_amount(), 2);
    let (removed, empty) = table
        .remove_row(&"p".to_string(), "r", true, moment(7))
        .unwrap();
    assert!(Arc::ptr_eq(&removed, &row));
    assert!(!empty);
    let (removed, empty) = table
        .remove_row(&"q".to_string(), "r", true, moment(8))
        .unwrap();
    assert!(Arc::ptr_eq(&removed, &other));
    assert!(empty);
    assert_eq!(table.get_table_size(), size);
    assert_eq!(table.get_rows_amount(), 1);
    assert_eq!(table.get_partitions_amount(), 1);
    assert_eq!(table.get_expiration_index_rows_amount(), 1);
    assert_eq!(table.get_last_write_moment().unix_microseconds, 8);
}

#[test]
fn first_row_makes_one_partition_with_one_row() {
    let mut table = new_table(None, None);
    assert_eq!(table.get_partitions_amount(), 0);
    assert_eq!(table.get_rows_amount(), 0);
    assert_eq!(table.get_table_size(), 0);
    let row = new_row("p", "r", None, 0);
    assert!(table.insert_row(&row, moment(3)));
    assert_eq!(table.get_partitions_amount(), 1);
    assert_eq!(table.get_rows_amount(), 1);
    assert_eq!(table.get_partition("p").unwrap().get_rows_amount(), 1);
    assert_eq!(
        table.get_partition("p").unwrap().get_last_write_moment().unix_microseconds,
        3
    );
    assert!(!table.insert_row(&new_row("p", "r", None, 0), moment(4)));
    assert_eq!(table.get_rows_amount(), 1);
    assert_eq!(table.get_last_write_moment().unix_microseconds, 3);
}

#[test]
fn empty_partition_goes_only_where_asked() {
    let mut table = new_table(None, None);
    table.insert_row(&new_row("p", "a", None, 0), None);
    table.insert_row(&new_row("p", "b", None, 0), None);
    table.insert_row(&new_row("q", "a", None, 0), None);
    assert!(table
        .remove_row(&"nowhere".to_string(), "a", true, None)
        .is_none());
    assert!(table.remove_row(&"p".to_string(), "x", true, None).is_none());
    let (_, empty) = table.remove_row(&"p".to_string(), "a", true, None).unwrap();
    assert!(!empty);
    assert_eq!(table.get_partitions_amount(), 2);
    let (_, empty) = table.remove_row(&"p".to_string(), "b", true, None).unwrap();
    assert!(empty);
    assert_eq!(table.get_partitions_amount(), 1);
    assert!(table.get_partition("p").is_none());
    let (_, empty) = table.remove_row(&"q".to_string(), "a", false, None).unwrap();
    assert!(empty);
    assert_eq!(table.get_partitions_amount(), 1);
    assert!(table.get_partition("q").unwrap().is_empty());
    assert_eq!(table.get_table_size(), 0);
    assert_eq!(table.get_rows_amount(), 0);
}

#[test]
fn table_takes_rows_in_bulk() {
    let mut table = new_table(None, None);
    let a = new_row("p", "a", None, 0);
    let b = new_row("p", "b", None, 0);
    let a2 = new_row("p", "a", Some("2019-01-01T00:00:00"), 0);
    assert!(table
        .bulk_insert_or_replace(&"p".to_string(), &[a.clone(), b.clone()], moment(1))
        .is_none());
    let displaced = table
        .bulk_insert_or_replace(&"p".to_string(), &[a2.clone()], moment(2))
        .unwrap();
    assert_eq!(displaced.len(), 1);
    assert!(Arc::ptr_eq(&displaced[0], &a));
    assert_eq!(table.get_table_size(), a2.data.len() + b.data.len());
    assert_eq!(table.get_rows_amount(), 2);
    assert_eq!(keys_of(&table.get_all_rows()), vec!["a", "b"]);
    assert!(table
        .bulk_remove_rows(&"nowhere".to_string(), &["a".to_string()], true, None)
        .is_none());
    assert!(table
        .bulk_remove_rows(&"p".to_string(), &["x".to_string()], true, moment(3))
        .is_none());
    assert_eq!(table.get_last_write_moment().unix_microseconds, 2);
    let (removed, empty) = table
        .bulk_remove_rows(&"p".to_string(), &["b".to_string(), "x".to_string()], true, moment(4))
        .unwrap();
    assert_eq!(removed.len(), 1);
    assert!(!empty);
    assert_eq!(table.get_last_write_moment().unix_microseconds, 4);
    let (removed, empty) = table
        .bulk_remove_rows(&"p".to_string(), &["a".to_string()], true, None)
        .unwrap();
    assert!(Arc::ptr_eq(&removed[0], &a2));
    assert!(empty);
    assert_eq!(table.get_partitions_amount(), 0);
    assert_eq!(table.get_table_size(), 0);
}

#[test]
fn partitions_are_put_in_and_taken_out_whole() {
    let mut table = new_table(None, None);
    let mut partition = DbPartition::new();
    let a = new_row("p", "a", None, 0);
    partition.insert_row(a.clone());
    partition.expires = moment(9);
    table.init_partition("p".to_string(), partition);
    assert_eq!(table.get_table_size(), a.data.len());
    assert_eq!(table.get_rows_amount(), 1);
    assert_eq!(table.partitions.partitions_to_expire_index.len(), 1);
    table.init_partition("p".to_string(), DbPartition::new());
    assert_eq!(table.get_table_size(), 0);
    assert_eq!(table.partitions.partitions_to_expire_index.len(), 0);
    table.insert_row(&a, None);
    assert!(table.remove_partition(&"q".to_string(), moment(1)).is_none());
    let removed = table.remove_partition(&"p".to_string(), moment(2)).unwrap();
    assert_eq!(removed.get_rows_amount(), 1);
    assert_eq!(table.get_last_write_moment().unix_microseconds, 2);
    assert_eq!(table.get_partitions_amount(), 0);
    assert!(table.clear_table().is_none());
    table.insert_row(&a, None);
    table.insert_row(&new_row("q", "a", None, 0), None);
    assert_eq!(table.clear_table().unwrap().len(), 2);
    assert_eq!(table.get_table_size(), 0);
    assert_eq!(table.get_rows_amount(), 0);
}

#[test]
fn partition_that_is_due_hides_its_rows() {
    let mut table = new_table(None, None);
    let now = DateTimeAsMicroseconds::from_str("2020-01-01T00:00:00").unwrap();
    let mut due = DbPartition::new();
    due.insert_row(new_row("due", "r", Some("2019-01-01T00:00:00"), 0));
    due.expires = Some(DateTimeAsMicroseconds::new(now.unix_microseconds));
    table.init_partition("due".to_string(), due);
    let mut later = DbPartition::new();
    later.insert_row(new_row("later", "old", Some("2019-06-01T00:00:00"), 0));
    later.insert_row(new_row("later", "older", Some("2019-01-01T00:00:00"), 0));
    later.insert_row(new_row("later", "new", Some("2021-01-01T00:00:00"), 0));
    later.expires = Some(DateTimeAsMicroseconds::new(now.unix_microseconds + 1));
    table.init_partition("later".to_string(), later);
    table.insert_row(&new_row("plain", "r", None, 0), None);

    let plan = table.get_data_to_gc(now);
    assert!(plan.has_data_to_gc());
    assert!(plan.has_partition_to_gc("due"));
    assert!(!plan.has_partition_to_gc("later"));
    assert!(!plan.has_partition_to_gc("plain"));
    assert_eq!(plan.get_partitions_to_gc().unwrap().len(), 1);
    let rows = plan.get_rows_to_gc().unwrap();
    assert!(rows.get("due").is_none());
    assert!(rows.get("plain").is_none());
    assert_eq!(rows.get("later").unwrap(), &vec!["older", "old"]);

    let nothing = table.get_data_to_gc(DateTimeAsMicroseconds::new(0));
    assert!(!nothing.has_data_to_gc());
}

#[test]
fn limits_are_kept_by_collecting_the_longest_unread() {
    let mut table = new_table(Some(2), Some(1));
    for (partition_key, read_at) in [("a", 30), ("b", 10), ("c", 20)] {
        table.insert_row(&new_row(partition_key, "x", None, 5), None);
        table.insert_row(&new_row(partition_key, "y", None, 4), None);
        table
            .get_partition(partition_key)
            .unwrap()
            .update_last_read_moment(DateTimeAsMicroseconds::new(read_at));
    }
    let plan = table.get_data_to_gc(DateTimeAsMicroseconds::new(0));
    assert!(plan.has_partition_to_gc("b"));
    assert!(!plan.has_partition_to_gc("a"));
    assert!(!plan.has_partition_to_gc("c"));
    let rows = plan.get_rows_to_gc().unwrap();
    assert_eq!(rows.len(), 2);
    assert_eq!(rows.get("a").unwrap(), &vec!["y"]);
    assert_eq!(rows.get("c").unwrap(), &vec!["y"]);
}

#[test]
fn rows_that_are_due_and_rows_over_the_limit_are_both_named() {
    let mut table = new_table(None, Some(2));
    table.insert_row(&new_row("p", "a", Some("2019-01-01T00:00:00"), 30), None);
    table.insert_row(&new_row("p", "b", None, 10), None);
    table.insert_row(&new_row("p", "c", None, 20), None);
    let now = DateTimeAsMicroseconds::from_str("2019-01-01T00:00:00").unwrap();
    let plan = table.get_data_to_gc(now);
    assert_eq!(
        plan.get_rows_to_gc().unwrap().get("p").unwrap(),
        &vec!["a", "b"]
    );
}

#[test]
fn table_is_written_as_a_json_array() {
    let mut table = new_table(None, None);
    assert_eq!(table.get_table_as_json_array().build(), b"[]");
    let rows = [
        new_row("q", "b", None, 0),
        new_row("p", "z", None, 0),
        new_row("q", "a", None, 0),
    ];
    for row in &rows {
        table.insert_row(row, None);
    }
    let expected = format!(
        "[{},{},{}]",
        std::str::from_utf8(&rows[1].data).unwrap(),
        std::str::from_utf8(&rows[2].data).unwrap(),
        std::str::from_utf8(&rows[0].data).unwrap()
    );
    assert_eq!(
        table.get_table_as_json_array().build(),
        expected.as_bytes()
    );
    let of_q = format!(
        "[{},{}]",
        std::str::from_utf8(&rows[2].data).unwrap(),
        std::str::from_utf8(&rows[0].data).unwrap()
    );
    assert_eq!(
        table.get_partition_as_json_array("q").unwrap().build(),
        of_q.as_bytes()
    );
    assert_eq!(
        table.get_partition_as_json_array("nowhere").unwrap().build(),
        b"[]"
    );
    let mut writer = my_no_sql_core::json_writer::JsonArrayWriter::new();
    table
        .get_partition("p")
        .unwrap()
        .fill_with_json_data(&mut writer);
    assert_eq!(
        writer.build(),
        format!("[{}]", std::str::from_utf8(&rows[1].data).unwrap()).as_bytes()
    );
    let snapshot = table.get_table_snapshot();
    assert_eq!(snapshot.as_json_array().build(), expected.as_bytes());
}

#[test]
fn snapshot_holds_the_table_as_it_stood() {
    let mut table = new_table(Some(5), None);
    table.insert_row(&new_row("q", "b", None, 0), moment(7));
    table.insert_row(&new_row("p", "a", None, 0), moment(9));
    table
        .get_partition("q")
        .unwrap()
        .update_last_read_moment(DateTimeAsMicroseconds::new(3));
    let snapshot = table.get_table_snapshot();
    assert_eq!(snapshot.last_update_time.unix_microseconds, 9);
    assert_eq!(snapshot.attr.max_partitions_amount, Some(5));
    assert!(snapshot.attr.persist);
    assert_eq!(snapshot.by_partition.len(), 2);
    assert_eq!(snapshot.by_partition.key(0), "p");
    let q = snapshot.by_partition.get("q").unwrap();
    assert_eq!(q.last_write_moment.unix_microseconds, 7);
    assert_eq!(q.last_read_moment.unix_microseconds, 3);
    assert_eq!(q.db_rows_snapshot.len(), 1);
    assert_eq!(q.db_rows_snapshot.db_rows[0].row_key, "b");
    assert!(q.has_to_persist(DateTimeAsMicroseconds::new(6)));
    assert!(!q.has_to_persist(DateTimeAsMicroseconds::new(7)));
    assert!(!q.has_to_persist(DateTimeAsMicroseconds::new(8)));
    table.insert_row(&new_row("q", "c", None, 0), moment(10));
    assert_eq!(q.db_rows_snapshot.len(), 1);
    let other = DbTableSnapshot::new(DateTimeAsMicroseconds::new(1), &table);
    assert_eq!(other.last_update_time.unix_microseconds, 1);
    assert_eq!(other.by_partition.get("q").unwrap().db_rows_snapshot.len(), 2);
    let of_p = DbPartitionSnapshot::new(table.get_partition("p").unwrap());
    assert_eq!(of_p.db_rows_snapshot.len(), 1);
    assert_eq!(DbRowsSnapshot::new().as_json_array().build(), b"[]");
    assert_eq!(
        DbRowsSnapshot::new_from_snapshot(vec![new_row("p", "a", None, 0)]).len(),
        1
    );
}

#[test]
fn last_write_moments_by_partition() {
    let mut table = new_table(None, None);
    table.insert_row(&new_row("q", "b", None, 0), moment(7));
    table.insert_row(&new_row("p", "a", None, 0), moment(9));
    table.insert_row(&new_row("q", "c", None, 0), moment(11));
    let moments = table.get_partitions_last_write_moment();
    assert_eq!(moments.len(), 2);
    assert_eq!(moments.get("p").unwrap().unix_microseconds, 9);
    assert_eq!(moments.get("q").unwrap().unix_microseconds, 11);
    assert_eq!(table.get_partitions().len(), 2);
}

#[test]
fn attributes_tell_whether_they_changed() {
    let mut attributes = DbTableAttributes::create_default();
    assert!(attributes.persist);
    assert!(attributes.max_partitions_amount.is_none());
    assert!(attributes.max_rows_per_partition_amount.is_none());
    assert!(attributes.created.unix_microseconds > 1_577_836_800_000_000);
    let created = attributes.created;
    assert!(!attributes.update(true, None, None));
    assert!(attributes.update(false, None, None));
    assert!(attributes.update(false, Some(3), None));
    assert!(attributes.update(false, Some(3), Some(4)));
    assert!(!attributes.update(false, Some(3), Some(4)));
    assert!(attributes.update(false, Some(2), Some(4)));
    assert!(attributes.update(true, None, None));
    assert_eq!(attributes.created, created);
    let fixed = DbTableAttributes::new(false, Some(1), Some(2), DateTimeAsMicroseconds::new(3));
    assert!(!fixed.persist);
    assert_eq!(fixed.max_partitions_amount, Some(1));
    assert_eq!(fixed.max_rows_per_partition_amount, Some(2));
    assert_eq!(fixed.created.unix_microseconds, 3);
}

#[test]
fn events_on_the_way_to_the_main_node() {
    let connection = Arc::new(5u8);
    let events: Vec<SyncToMainNodeEvent<u8>> = vec![
        SyncToMainNodeEvent::Connected(connection.clone()),
        SyncToMainNodeEvent::Disconnected(connection.clone()),
        SyncToMainNodeEvent::PingToDeliver,
        SyncToMainNodeEvent::Delivered(7),
    ];
    assert_eq!(events.len(), 4);
    assert!(matches!(events[3], SyncToMainNodeEvent::Delivered(7)));
    assert_eq!(Arc::strong_count(&connection), 3);
}

#[test]
fn readers_can_give_rows_and_partitions_another_expiration() {
    let mut table = new_table(None, None);
    let a = new_row("p", "a", None, 0);
    let b = new_row("p", "b", Some("2019-01-01T00:00:00"), 0);
    let c = new_row("q", "c", None, 0);
    for row in [&a, &b, &c] {
        table.insert_row(row, moment(1));
    }
    let nothing = UpdateExpirationTimeModel {
        update_db_rows_expiration_time: UpdateExpirationDateTime::No,
        update_db_partition_expiration_time: UpdateExpirationDateTime::No,
    };
    let size = table.get_table_size();
    let found = table
        .get_rows_and_update_expiration_time(
            &"p".to_string(),
            &["b".to_string(), "x".to_string(), "a".to_string()],
            &nothing,
        )
        .unwrap();
    assert_eq!(found.len(), 2);
    assert!(Arc::ptr_eq(&found[0], &b));
    assert!(Arc::ptr_eq(&found[1], &a));
    assert_eq!(table.get_table_size(), size);
    assert!(table
        .get_rows_and_update_expiration_time(&"nowhere".to_string(), &["a".to_string()], &nothing)
        .is_none());
    assert!(table
        .get_rows_and_update_expiration_time(&"p".to_string(), &["x".to_string()], &nothing)
        .is_none());

    let both = UpdateExpirationTimeModel {
        update_db_rows_expiration_time: UpdateExpirationDateTime::Yes(moment(5)),
        update_db_partition_expiration_time: UpdateExpirationDateTime::Yes(moment(7)),
    };
    let found = table
        .get_rows_and_update_expiration_time(
            &"p".to_string(),
            &["a".to_string(), "a".to_string()],
            &both,
        )
        .unwrap();
    assert_eq!(found.len(), 2);
    assert!(Arc::ptr_eq(&found[0], &a));
    assert!(found[0].expires.is_none());
    let partition = table.get_partition("p").unwrap();
    assert_eq!(partition.expires, moment(7));
    assert_eq!(partition.get_row("a").unwrap().expires, moment(5));
    assert!(Arc::ptr_eq(partition.get_row("b").unwrap(), &b));
    assert_eq!(partition.get_expiration_index_rows_amount(), 2);
    assert_eq!(table.partitions.partitions_to_expire_index.len(), 1);
    let bytes: usize = table.get_all_rows().iter().map(|row| row.data.len()).sum();
    assert_eq!(table.get_table_size(), bytes);
    assert_eq!(table.get_rows_amount(), 3);

    let never = UpdateExpirationTimeModel {
        update_db_rows_expiration_time: UpdateExpirationDateTime::Yes(None),
        update_db_partition_expiration_time: UpdateExpirationDateTime::Yes(None),
    };
    let all = table.get_all_rows_and_update_expiration_time(&never);
    assert_eq!(all.len(), 3);
    assert_eq!(all[0].row_key, "a");
    assert_eq!(all[0].expires, moment(5));
    assert!(Arc::ptr_eq(&all[1], &b));
    assert!(Arc::ptr_eq(&all[2], &c));
    assert_eq!(table.get_expiration_index_rows_amount(), 0);
    assert_eq!(table.partitions.partitions_to_expire_index.len(), 0);
    assert!(table.get_partition("p").unwrap().expires.is_none());
    assert!(Arc::ptr_eq(
        table.get_partition("q").unwrap().get_row("c").unwrap(),
        &c
    ));
    let bytes: usize = table.get_all_rows().iter().map(|row| row.data.len()).sum();
    assert_eq!(table.get_table_size(), bytes);
    assert_eq!(
        bytes,
        3 * a.data.len()
    );
    assert_eq!(table.get_last_write_moment().unix_microseconds, 1);
}

#[test]
fn a_partition_can_be_changed_where_it_stands() {
    let mut table = new_table(None, None);
    table.insert_row(&new_row("p", "a", None, 0), moment(1));
    assert!(table.get_partition_mut("q").is_none());
    let partition = table.get_partition_mut("p").unwrap();
    partition.last_write_moment = DateTimeAsMicroseconds::new(9);
    assert_eq!(
        table.get_partition("p").unwrap().get_last_write_moment().unix_microseconds,
        9
    );
    assert!(table.partitions.get_mut("p").is_some());
    assert!(table
        .partitions
        .update_partition_expiration_time(&"p".to_string(), moment(3)));
    assert!(!table
        .partitions
        .update_partition_expiration_time(&"q".to_string(), moment(3)));
    assert_eq!(
        table
            .partitions
            .get_partitions_to_expire(DateTimeAsMicroseconds::new(3))
            .unwrap(),
        vec!["p"]
    );
    let mut partition = DbPartition::new();
    partition.insert_row(new_row("p", "a", None, 0));
    let size = partition.get_content_size();
    assert!(partition.update_expiration_time("x", moment(4)).is_none());
    assert!(partition.update_expiration_time("a", None).is_none());
    assert!(partition.update_expiration_time("a", moment(4)).is_some());
    assert_eq!(partition.get_content_size(), size + 39);
    assert!(partition.update_expiration_time("a", moment(5)).is_some());
    assert_eq!(partition.get_content_size(), size + 39);
    assert!(partition.update_expiration_time("a", None).is_some());
    assert_eq!(partition.get_content_size(), size);
}

#[test]
fn the_later_of_two_instants() {
    let early = DateTimeAsMicroseconds::new(-3);
    let late = DateTimeAsMicroseconds::new(7);
    assert_eq!(DbPartition::later_of(early, late).unix_microseconds, 7);
    assert_eq!(DbPartition::later_of(late, early).unix_microseconds, 7);
    assert_eq!(DbPartition::later_of(late, late).unix_microseconds, 7);
}

#[test]
fn a_stored_row_keeps_the_time_stamp_of_its_field() {
    let raw = br#"{"PartitionKey":"p","RowKey":"r","TimeStamp":"2020-01-02T03:04:05.000006"}"#;
    let row = DbJsonEntity::parse(raw).unwrap().restore_db_row();
    assert_eq!(row.time_stamp, "2020-01-02T03:04:05.000006");
    assert_eq!(row.data.as_slice(), raw.as_slice());

    let raw = br#"{"TimeStamp":"2019-01-01T00:00:00","PartitionKey":"p","RowKey":"r"}"#;
    let row = DbJsonEntity::parse(raw).unwrap().restore_db_row();
    assert_eq!(row.time_stamp, "2019-01-01T00:00:00.000000");
    assert_eq!(row.data.as_slice(), raw.as_slice());
}

#[test]
fn a_row_put_in_and_taken_out_leaves_the_counts_of_an_expiring_partition() {
    let mut table = new_table(None, None);
    table.insert_row(&new_row("p", "a", Some("2019-01-01T00:00:00"), 0), None);
    table.insert_row(&new_row("p", "c", Some("2019-01-01T00:00:00"), 0), None);
    let size = table.get_table_size();
    let row = new_row("p", "b", Some("2019-01-01T00:00:00"), 0);
    assert!(table.insert_row(&row, None));
    assert_eq!(table.get_expiration_index_rows_amount(), 3);
    let (removed, empty) = table.remove_row(&"p".to_string(), "b", true, None).unwrap();
    assert!(Arc::ptr_eq(&removed, &row));
    assert!(!empty);
    assert_eq!(table.get_table_size(), size);
    assert_eq!(table.get_rows_amount(), 2);
    assert_eq!(table.get_partitions_amount(), 1);
    assert_eq!(table.get_expiration_index_rows_amount(), 2);
    let due = table
        .get_partition("p")
        .unwrap()
        .get_rows_to_expire(DateTimeAsMicroseconds::new(1546300800000000))
        .unwrap();
    assert_eq!(keys_of(&due), vec!["a".to_string(), "c".to_string()]);
}
