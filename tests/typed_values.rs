use zedis::keys::KeyType;
use zedis::values::{
    expire_at_from_ttl, loader_for, ttl_left, HashValue, ListValue, Loader, RedisValue, SetValue, SortOrder,
    ValueData, ValueError, ValueSlot, ZsetRequest, ZsetValue,
};

fn s(v: &str) -> String {
    v.to_string()
}

fn pairs(n: usize, prefix: &str) -> Vec<(String, String)> {
    (0..n).map(|i| (format!("{prefix}{i}"), format!("v{i}"))).collect()
}

#[test]
fn list_first_load_of_empty_list_is_done() {
    let l = ListValue::first_load(0, vec![]);
    assert_eq!(l.size, 0);
    assert!(l.values.is_empty());
    assert!(l.is_done());
    assert!(l.next_range().is_none());
}

#[test]
fn list_pages_by_offset() {
    let first = ListValue::first_range();
    assert_eq!((first.start, first.stop), (0, 99));
    let mut l = ListValue::first_load(250, (0..100).map(|i| i.to_string()).collect());
    assert!(!l.is_done());
    let r = l.next_range().unwrap();
    assert_eq!((r.start, r.stop), (100, 199));
    l.append_page((100..200).map(|i| i.to_string()).collect());
    assert_eq!(l.values.len(), 200);
    assert_eq!(l.values[150], "150");
    l.append_page((200..250).map(|i| i.to_string()).collect());
    assert!(l.is_done());
    // a buffer longer than the reported size is not done
    l.append_page(vec![s("extra")]);
    assert!(!l.is_done());
}

#[test]
fn list_visible_indexes_ignore_case() {
    let l = ListValue::first_load(4, vec![s("Apple"), s("banana"), s("APRICOT"), s("Äpfel")]);
    assert_eq!(l.visible_indexes("ap"), vec![0, 2]);
    assert_eq!(l.visible_indexes("äp"), vec![3]);
    assert_eq!(l.visible_indexes(""), vec![0, 1, 2, 3]);
}

#[test]
fn hash_filter_auto_continues_below_fifty() {
    let h = HashValue::first_load(5000, 12, pairs(100, "f"));
    let mut h = h.with_filter(s("name"));
    assert_eq!(h.cursor, 0);
    assert!(h.values.is_empty());
    assert_eq!(h.size, 5000);
    let req = h.scan_request();
    assert_eq!(req.pattern, "*name*");
    assert_eq!(req.count, 1000);
    assert_eq!(req.cursor, 0);
    // a 1,000-item batch yields 10 matches and a live cursor: one more call
    assert!(h.apply_page(731, pairs(10, "name")));
    assert_eq!(h.scan_request().cursor, 731);
    // the next batch reaches 50 matches: stop
    assert!(!h.apply_page(998, pairs(40, "name_")));
    assert_eq!(h.values.len(), 50);
    assert!(!h.done);
}

#[test]
fn hash_filter_stops_when_cursor_returns_to_zero() {
    let mut h = HashValue::first_load(10, 0, vec![]).with_filter(s("x"));
    assert!(h.apply_page(5, pairs(3, "x")));
    assert!(!h.apply_page(0, pairs(2, "x")));
    assert!(h.done);
    assert_eq!(h.values.len(), 5);
}

#[test]
fn hash_unfiltered_scan_uses_small_batch() {
    let h = HashValue::first_load(3, 0, pairs(3, "f"));
    assert!(h.done);
    let req = h.scan_request();
    assert_eq!(req.pattern, "*");
    assert_eq!(req.count, 100);
}

#[test]
fn hash_remove_missing_field_changes_nothing() {
    let mut h = HashValue::first_load(3, 0, pairs(3, "f"));
    h.apply_remove("nope", 0);
    assert_eq!(h.size, 3);
    assert_eq!(h.values, pairs(3, "f"));
}

#[test]
fn hash_remove_existing_field() {
    let mut h = HashValue::first_load(3, 0, pairs(3, "f"));
    h.apply_remove("f1", 1);
    assert_eq!(h.size, 2);
    assert_eq!(h.values, vec![(s("f0"), s("v0")), (s("f2"), s("v2"))]);
}

#[test]
fn hash_set_updates_in_place_and_counts_new_fields() {
    let mut h = HashValue::first_load(3, 0, pairs(3, "f"));
    h.apply_set("f1", "new", 0);
    assert_eq!(h.size, 3);
    assert_eq!(h.values[1], (s("f1"), s("new")));
    h.apply_set("g", "x", 1);
    assert_eq!(h.size, 4);
    assert_eq!(h.values.len(), 3);
}

#[test]
fn set_re_adding_member_keeps_cardinality() {
    let mut st = SetValue::first_load(2, 0, vec![s("a"), s("b")]);
    st.apply_add(s("a"), 0);
    assert_eq!(st.size, 2);
    assert_eq!(st.values, vec![s("a"), s("b")]);
    st.apply_add(s("c"), 1);
    assert_eq!(st.size, 3);
    assert_eq!(st.values, vec![s("a"), s("b"), s("c")]);
}

#[test]
fn set_remove_and_pages() {
    let mut st = SetValue::first_load(3, 7, vec![s("a"), s("b")]);
    assert!(!st.done);
    assert!(!st.apply_page(0, vec![s("c")]));
    assert!(st.done);
    st.apply_remove("b", 1);
    assert_eq!(st.size, 2);
    assert_eq!(st.values, vec![s("a"), s("c")]);
    st.apply_remove("zzz", 0);
    assert_eq!(st.size, 2);
}

fn scores(z: &ZsetValue) -> Vec<u64> {
    z.values.iter().map(|p| p.1).collect()
}

#[test]
fn zset_insert_keeps_ascending_order() {
    let mut z = ZsetValue::first_load(4, vec![(s("a"), 1), (s("b"), 3), (s("c"), 5), (s("d"), 7)], SortOrder::Asc);
    assert!(z.apply_add(s("x"), 4, 1));
    assert_eq!(scores(&z), vec![1, 3, 4, 5, 7]);
    assert_eq!(z.values[2].0, "x");
    assert_eq!(z.size, 5);
    // a new member goes right after the entries that come strictly before it
    assert!(z.apply_add(s("y"), 3, 1));
    assert_eq!(scores(&z), vec![1, 3, 3, 4, 5, 7]);
    assert_eq!(z.values[1].0, "y");
    assert_eq!(z.values[2].0, "b");
    // past the loaded end: counted, not inserted
    assert!(!z.apply_add(s("z"), 100, 1));
    assert_eq!(z.values.len(), 6);
    assert_eq!(z.size, 7);
}

#[test]
fn zset_insert_keeps_descending_order() {
    let mut z = ZsetValue::first_load(3, vec![(s("a"), 9), (s("b"), 5), (s("c"), 2)], SortOrder::Desc);
    assert!(z.apply_add(s("x"), 6, 1));
    assert_eq!(scores(&z), vec![9, 6, 5, 2]);
}

#[test]
fn zset_existing_member_is_updated_in_place() {
    let mut z = ZsetValue::first_load(2, vec![(s("a"), 1), (s("b"), 3)], SortOrder::Asc);
    assert!(!z.apply_add(s("b"), 2, 0));
    assert_eq!(z.values, vec![(s("a"), 1), (s("b"), 2)]);
    assert_eq!(z.size, 2);
}

#[test]
fn zset_filtered_add_does_not_insert() {
    let z0 = ZsetValue::first_load(2, vec![(s("a"), 1), (s("b"), 3)], SortOrder::Asc);
    let mut z = z0.with_filter(s("a"));
    assert!(!z.apply_add(s("ab"), 2, 1));
    assert!(z.values.is_empty());
    assert_eq!(z.size, 3);
}

#[test]
fn zset_requests_and_pages() {
    let z = ZsetValue::first_load(300, vec![(s("a"), 1); 100], SortOrder::Asc);
    match z.next_request() {
        ZsetRequest::Range { start, stop } => assert_eq!((start, stop), (100, 199)),
        ZsetRequest::Scan(_) => panic!("unfiltered sorted set pages by rank"),
    }
    let mut f = z.with_filter(s("k"));
    match f.next_request() {
        ZsetRequest::Scan(a) => {
            assert_eq!(a.pattern, "*k*");
            assert_eq!(a.count, 1000);
        }
        ZsetRequest::Range { .. } => panic!("filtered sorted set scans"),
    }
    assert!(f.apply_page(4, vec![(s("k1"), 1)]));
    assert!(!f.apply_page(0, vec![]));
    assert!(f.is_done());
    let cleared = f.with_filter(String::new());
    assert!(cleared.keyword.is_none());
}

#[test]
fn zset_remove() {
    let mut z = ZsetValue::first_load(3, vec![(s("a"), 1), (s("b"), 2), (s("c"), 3)], SortOrder::Asc);
    z.apply_remove("b", 1);
    assert_eq!(z.values, vec![(s("a"), 1), (s("c"), 3)]);
    assert_eq!(z.size, 2);
    z.apply_remove("q", 0);
    assert_eq!(z.size, 2);
}

#[test]
fn ttl_arithmetic() {
    assert_eq!(expire_at_from_ttl(-1, 1000), Some(0));
    assert_eq!(expire_at_from_ttl(-2, 1000), None);
    assert_eq!(expire_at_from_ttl(30, 1000), Some(1030));
    assert_eq!(expire_at_from_ttl(i64::MAX, u64::MAX - 1), Some(u64::MAX));
    assert_eq!(ttl_left(0, 1000), -1);
    assert_eq!(ttl_left(1030, 1000), 30);
    assert_eq!(ttl_left(900, 1000), 0);
}

#[test]
fn unsupported_types_abort_the_open() {
    assert_eq!(loader_for(KeyType::Hash), Ok(Loader::Hash));
    assert_eq!(loader_for(KeyType::SetOf), Ok(Loader::Members));
    assert_eq!(loader_for(KeyType::Stream), Err(ValueError::Unsupported));
    assert_eq!(loader_for(KeyType::Unknown), Err(ValueError::Unsupported));
}

#[test]
fn saved_string_updates_size_in_bytes() {
    let mut v = RedisValue { key_type: KeyType::String, data: None, expire_at: Some(0), size: 0 };
    v.apply_saved(s("héllo"));
    assert_eq!(v.size(), 6);
    assert_eq!(v.string_value(), Some(&s("héllo")));
    assert!(v.list_value().is_none());
    assert_eq!(v.ttl(5), Some(-1));
    assert!(matches!(v.data, Some(ValueData::Text(_))));
}

#[test]
fn late_load_for_another_key_is_dropped() {
    let mut slot = ValueSlot::new();
    assert!(slot.select_key(s("a")));
    assert!(!slot.select_key(s("a")));
    assert!(slot.select_key(s("b")));
    let loaded = RedisValue { key_type: KeyType::String, data: None, expire_at: None, size: 3 };
    assert!(!slot.apply_loaded("a", Some(loaded)));
    assert!(slot.value.is_none());
    let loaded = RedisValue { key_type: KeyType::List, data: None, expire_at: None, size: 1 };
    assert!(slot.apply_loaded("b", Some(loaded)));
    assert_eq!(slot.value.as_ref().map(|v| v.key_type()), Some(KeyType::List));
    // an empty selection starts no load
    assert!(!slot.select_key(String::new()));
    assert_eq!(slot.key.as_deref(), Some(""));
    slot.clear();
    assert!(slot.key.is_none());
    assert!(!slot.select_key(String::new()));
    assert!(slot.key.is_none());
}
