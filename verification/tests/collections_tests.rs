use my_no_sql_core::date_time::DateTimeAsMicroseconds;
use my_no_sql_core::json_writer::JsonArrayWriter;
use my_no_sql_core::key_order::{compare_bytes, KeyOrder};
use my_no_sql_core::lru::{oldest, set_instants_apart};
use my_no_sql_core::ordered_map::OrderedMap;
use my_no_sql_core::{ExpirationIndex, ExpirationItemsAreSame};

fn at(instant: i64) -> Option<DateTimeAsMicroseconds> {
    Some(DateTimeAsMicroseconds::new(instant))
}

#[test]
fn texts_are_ordered_byte_by_byte() {
    assert_eq!(compare_bytes(b"", b""), KeyOrder::Same);
    assert_eq!(compare_bytes(b"", b"a"), KeyOrder::Before);
    assert_eq!(compare_bytes(b"a", b""), KeyOrder::After);
    assert_eq!(compare_bytes(b"abc", b"abd"), KeyOrder::Before);
    assert_eq!(compare_bytes(b"abd", b"abc"), KeyOrder::After);
    assert_eq!(compare_bytes(b"ab", b"abc"), KeyOrder::Before);
    assert_eq!(compare_bytes(b"abc", b"abc"), KeyOrder::Same);
    assert_eq!(compare_bytes(b"Z", b"a"), KeyOrder::Before);
    assert_eq!(compare_bytes(&[200], &[100, 1]), KeyOrder::After);
}

#[test]
fn ordered_map_keeps_keys_in_order() {
    let mut map: OrderedMap<u32> = OrderedMap::new();
    assert_eq!(map.len(), 0);
    assert_eq!(map.insert("m".to_string(), 1), None);
    assert_eq!(map.insert("a".to_string(), 2), None);
    assert_eq!(map.insert("z".to_string(), 3), None);
    assert_eq!(map.insert("ab".to_string(), 4), None);
    assert_eq!(map.len(), 4);
    let keys: Vec<&str> = (0..map.len()).map(|i| map.key(i).as_str()).collect();
    assert_eq!(keys, vec!["a", "ab", "m", "z"]);
    let values: Vec<u32> = (0..map.len()).map(|i| *map.value(i)).collect();
    assert_eq!(values, vec![2, 4, 1, 3]);
    assert_eq!(map.find("a"), (0, true));
    assert_eq!(map.find("aa"), (1, false));
    assert_eq!(map.find("zz"), (4, false));
    assert_eq!(map.find(""), (0, false));
    assert_eq!(map.get("m"), Some(&1));
    assert_eq!(map.get("n"), None);
    assert!(map.contains_key("z"));
    assert!(!map.contains_key("y"));
}

#[test]
fn ordered_map_replaces_and_removes() {
    let mut map: OrderedMap<u32> = OrderedMap::new();
    map.insert("a".to_string(), 1);
    map.insert("b".to_string(), 2);
    assert_eq!(map.insert("a".to_string(), 10), Some(1));
    assert_eq!(map.len(), 2);
    assert_eq!(map.get("a"), Some(&10));
    *map.value_mut(1) = 20;
    assert_eq!(map.get("b"), Some(&20));
    assert_eq!(map.remove("c"), None);
    assert_eq!(map.remove("a"), Some(10));
    assert_eq!(map.len(), 1);
    assert_eq!(map.key(0), "b");
    assert_eq!(map.remove("b"), Some(20));
    assert_eq!(map.len(), 0);
}

#[test]
fn expiration_index_gives_what_is_due_in_order() {
    let mut index: ExpirationIndex<String> = ExpirationIndex::new();
    assert_eq!(index.len(), 0);
    index.add(at(30), "c".to_string());
    index.add(at(10), "a".to_string());
    index.add(at(20), "b1".to_string());
    index.add(at(20), "b2".to_string());
    index.add(None, "never".to_string());
    assert_eq!(index.len(), 4);
    assert!(index.has_data_with_expiration_moment(20));
    assert!(!index.has_data_with_expiration_moment(25));
    assert!(index
        .get_items_to_expire(DateTimeAsMicroseconds::new(9))
        .is_none());
    let due: Vec<&str> = index
        .get_items_to_expire(DateTimeAsMicroseconds::new(10))
        .unwrap()
        .iter()
        .map(|s| s.as_str())
        .collect();
    assert_eq!(due, vec!["a"]);
    let due: Vec<&str> = index
        .get_items_to_expire(DateTimeAsMicroseconds::new(29))
        .unwrap()
        .iter()
        .map(|s| s.as_str())
        .collect();
    assert_eq!(due, vec!["a", "b1", "b2"]);
    let due = index
        .get_items_to_expire_cloned(DateTimeAsMicroseconds::new(i64::MAX))
        .unwrap();
    assert_eq!(due, vec!["a", "b1", "b2", "c"]);
    assert!(index
        .get_items_to_expire_cloned(DateTimeAsMicroseconds::new(0))
        .is_none());
}

#[test]
fn expiration_index_takes_out_the_first_that_is_the_same() {
    let mut index: ExpirationIndex<String> = ExpirationIndex::new();
    index.add(at(10), "a".to_string());
    index.add(at(10), "b".to_string());
    index.add(at(10), "a".to_string());
    index.add(at(20), "a".to_string());
    index.remove(at(10), &"a".to_string());
    assert_eq!(index.len(), 3);
    let due = index
        .get_items_to_expire_cloned(DateTimeAsMicroseconds::new(10))
        .unwrap();
    assert_eq!(due, vec!["b", "a"]);
    index.remove(at(10), &"missing".to_string());
    index.remove(at(15), &"a".to_string());
    index.remove(None, &"a".to_string());
    assert_eq!(index.len(), 3);
    index.update(at(20), at(5), "a".to_string());
    let due = index
        .get_items_to_expire_cloned(DateTimeAsMicroseconds::new(100))
        .unwrap();
    assert_eq!(due, vec!["a", "b", "a"]);
    assert!(index.has_data_with_expiration_moment(5));
    assert!(!index.has_data_with_expiration_moment(20));
    index.update(at(5), None, "a".to_string());
    assert_eq!(index.len(), 2);
    index.clear();
    assert_eq!(index.len(), 0);
    assert!(!index.has_data_with_expiration_moment(10));
}

#[test]
fn texts_are_the_same_where_they_are_equal() {
    assert!("a".to_string().are_same(&"a".to_string()));
    assert!(!"a".to_string().are_same(&"b".to_string()));
}

#[test]
fn the_oldest_places_come_first() {
    assert_eq!(oldest(&vec![], 0), Vec::<usize>::new());
    assert_eq!(oldest(&vec![5, 3, 9], 0), Vec::<usize>::new());
    assert_eq!(oldest(&vec![5, 3, 9], 1), vec![1]);
    assert_eq!(oldest(&vec![5, 3, 9], 2), vec![1, 0]);
    assert_eq!(oldest(&vec![5, 3, 9], 3), vec![1, 0, 2]);
    assert_eq!(oldest(&vec![7, 7, 7, 1], 3), vec![3, 0, 1]);
    assert_eq!(oldest(&vec![i64::MAX, i64::MIN, 0], 2), vec![1, 2]);
}

#[test]
fn instants_are_set_apart() {
    assert_eq!(set_instants_apart(&vec![]), Vec::<i64>::new());
    assert_eq!(set_instants_apart(&vec![1, 2, 3]), vec![1, 2, 3]);
    assert_eq!(set_instants_apart(&vec![5, 5, 5, 6]), vec![5, 6, 7, 8]);
    assert_eq!(set_instants_apart(&vec![6, 5, 5]), vec![6, 5, 7]);
    assert_eq!(
        set_instants_apart(&vec![i64::MAX, i64::MAX, i64::MAX - 1]),
        vec![i64::MAX, i64::MAX, i64::MAX - 1]
    );
}

#[test]
fn json_array_is_written() {
    assert_eq!(JsonArrayWriter::new().build(), b"[]");
    let mut writer = JsonArrayWriter::new();
    writer.write_raw_element(b"{\"a\":1}");
    assert_eq!(writer.build(), b"[{\"a\":1}]");
    let mut writer = JsonArrayWriter::new();
    writer.write_raw_element(b"");
    writer.write_raw_element(b"1");
    writer.write_raw_element(b"{}");
    assert_eq!(writer.build(), b"[,1,{}]");
}

#[test]
fn expiration_index_orders_instants_before_and_after_the_epoch() {
    let mut index: ExpirationIndex<String> = ExpirationIndex::new();
    index.add(at(i64::MAX), "last".to_string());
    index.add(at(-5), "before".to_string());
    index.add(at(i64::MIN), "first".to_string());
    index.add(at(0), "epoch".to_string());
    index.add(at(-5), "before too".to_string());
    assert_eq!(index.len(), 5);
    let due = index
        .get_items_to_expire_cloned(DateTimeAsMicroseconds::new(-5))
        .unwrap();
    assert_eq!(due, vec!["first", "before", "before too"]);
    let due = index
        .get_items_to_expire_cloned(DateTimeAsMicroseconds::new(i64::MAX))
        .unwrap();
    assert_eq!(due, vec!["first", "before", "before too", "epoch", "last"]);
    index.remove(at(-5), &"before".to_string());
    assert!(index.has_data_with_expiration_moment(-5));
    index.remove(at(-5), &"before too".to_string());
    assert!(!index.has_data_with_expiration_moment(-5));
    assert_eq!(index.len(), 3);
    let due = index
        .get_items_to_expire_cloned(DateTimeAsMicroseconds::new(0))
        .unwrap();
    assert_eq!(due, vec!["first", "epoch"]);
}
