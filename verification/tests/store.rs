use seacoller::key_value_store::{KeyValueError, KeyValueStore};
use seacoller::logger::{get_all_logs_from_start, OperationType};

type Store = KeyValueStore<fn(String)>;

#[test]
fn test_kv_new() {
    let name = "test".to_string();
    let _kv = Store::new(name);
}

#[test]
fn test_kv_non_multi_threaded() {
    let mut kv = Store::new("test".to_string());
    for i in 0..10 {
        kv.insert(format!("key_{}", i), format!("value_{}", i)).expect("cant insert");
    }
    for i in 0..10 {
        let result = kv.search(&format!("key_{}", i)).expect("cant search in kv");
        assert!(result == Some(format!("value_{}", i)));
    }
    for i in 0..10 {
        let result = kv.update(format!("key_{}", i), format!("value_{}", i + 1)).expect("cnat update");
        assert_eq!(result, Some(format!("value_{}", i)));
        let result = kv.search(&format!("key_{}", i)).expect("cant search in kv");
        assert_eq!(result, Some(format!("value_{}", i + 1)));
    }
}

#[test]
fn test_kv_crud() {
    let mut kv = Store::new("test".to_string());
    let mut insert_results = vec![];
    for i in 0..10 {
        insert_results.push(kv.insert(format!("key_{}", i), format!("value_{}", i)));
    }
    insert_results.into_iter().for_each(|x| assert!(x.is_ok()));
    for i in 0..10 {
        assert!(kv.search(&format!("key_{}", i)).unwrap() == Some(format!("value_{}", i)));
    }
    for i in 0..10 {
        assert_eq!(kv.update(format!("key_{}", i), format!("value_{}", i + 1)).unwrap(), Some(format!("value_{}", i)));
    }
    for i in 0..10 {
        assert_eq!(kv.search(&format!("key_{}", i)).unwrap(), Some(format!("value_{}", i + 1)));
    }
    for i in 0..10 {
        kv.delete(&format!("key_{}", i)).unwrap();
    }
    for i in 0..10 {
        assert_eq!(kv.search(&format!("key_{}", i)).unwrap(), None);
    }
}

#[test]
fn test_kv_insert() {
    let mut kv = Store::new("test".to_string());
    let mut results = vec![];
    for i in 0..1000 {
        results.push(kv.insert(format!("key_{}", i), format!("value_{}", i)));
    }
    results.into_iter().for_each(|x| assert!(x.is_ok()));
}

#[test]
fn store_places_values_in_order_written() {
    let mut kv = Store::new("s".to_string());
    assert_eq!(kv.insert("b".to_string(), "2".to_string()).unwrap(), 0);
    assert_eq!(kv.insert("a".to_string(), "1".to_string()).unwrap(), 1);
    assert_eq!(kv.insert("b".to_string(), "3".to_string()).unwrap(), 2);
    assert_eq!(kv.search(&"b".to_string()).unwrap(), Some("3".to_string()));
    assert_eq!(kv.update("zz".to_string(), "x".to_string()).unwrap(), None);
    assert_eq!(kv.search(&"zz".to_string()).unwrap(), None);
}

#[test]
fn store_range_scan_puts_blanks_first() {
    let mut kv = Store::new("s".to_string());
    for k in ["c", "a", "d", "b"] {
        kv.insert(k.to_string(), format!("v{}", k)).unwrap();
    }
    let r = kv.range_scan(&"b".to_string(), &"c".to_string()).unwrap();
    assert_eq!(r, vec!["".to_string(), "".to_string(), "vb".to_string(), "vc".to_string()]);
    assert_eq!(kv.range_scan(&"x".to_string(), &"z".to_string()).unwrap(), Vec::<String>::new());
}

#[test]
fn store_refuses_long_keys() {
    let mut kv = Store::new("s".to_string());
    let long = "k".repeat(5000);
    assert!(matches!(kv.insert(long.clone(), "v".to_string()), Err(KeyValueError::KeyToLarge)));
    assert!(matches!(kv.search(&long), Err(KeyValueError::KeyToLarge)));
    assert!(matches!(kv.delete(&long), Err(KeyValueError::KeyToLarge)));
    assert!(matches!(kv.range_scan(&long, &"a".to_string()), Err(KeyValueError::KeyToLarge)));
}

#[test]
fn store_saves_filter_after_enough_inserts() {
    let mut kv = Store::new("s".to_string());
    assert!(kv.filter_to_save().is_none());
    for i in 0..50 {
        kv.insert(format!("k{}", i), "v".to_string()).unwrap();
    }
    assert!(kv.filter_to_save().is_some());
    assert!(kv.filter_to_save().is_none());
}

#[test]
fn store_logs_each_write_as_completed() {
    let mut kv = Store::new("s".to_string());
    kv.insert("a".to_string(), "1".to_string()).unwrap();
    kv.search(&"a".to_string()).unwrap();
    kv.update("a".to_string(), "2".to_string()).unwrap();
    kv.delete(&"a".to_string()).unwrap();
    let logs = get_all_logs_from_start(kv.operation_log(), 0);
    assert_eq!(logs.len(), 4);
    assert!(logs.iter().all(|l| l.completed));
    assert!(matches!(logs[0].op_type, OperationType::Insert(_, _)));
    assert!(matches!(logs[1].op_type, OperationType::Select(_)));
    assert!(matches!(logs[2].op_type, OperationType::Update(_, _)));
    assert!(matches!(logs[3].op_type, OperationType::Delete(_)));
    assert_eq!(logs[3].id, 3);
    // A key the filter has not seen is neither searched nor logged.
    kv.search(&"zz".to_string()).unwrap();
    assert_eq!(get_all_logs_from_start(kv.operation_log(), 0).len(), 4);
}
