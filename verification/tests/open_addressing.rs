use hashmap::open_addressing::HashMap;

#[test]
fn open_addressing_test_hashmap() {
    let mut map: HashMap<String, String> = HashMap::new(10);
    map.insert("key".to_string(), "value".to_string()).unwrap();
    assert_eq!(
        map.get("key".to_string()).unwrap(),
        Some("value".to_string())
    );
}

#[test]
fn open_addressing_test_resizing() {
    let mut map: HashMap<String, String> = HashMap::new(10);
    for i in 0..100 {
        let key = format!("Key{i}");
        let value = format!("Value{i}");
        map.insert(key, value).unwrap();
    }

    for i in 0..100 {
        let key = format!("Key{i}");
        let value = map.get(key).unwrap();
        assert_eq!(value, Some(format!("Value{i}")));
    }
}

#[test]
fn open_addressing_test_mix_workload() {
    let mut map: HashMap<String, String> = HashMap::new(10);
    for i in 0..100 {
        let key = format!("Key{i}");
        let value = format!("Value{i}");
        map.insert(key.clone(), value.clone()).unwrap();
    }
    //  delete every 5th key
    for i in 0..100 {
        if i % 5 == 0 {
            let key = format!("Key{i}");
            map.delete(key).unwrap();
        }
    }
    //  check if remaining keys exist
    for i in 0..100 {
        if i % 5 == 0 {
            let key = format!("Key{i}");
            assert_eq!(map.get(key).unwrap(), None);
        } else {
            let key = format!("Key{i}");
            assert_eq!(map.get(key).unwrap(), Some(format!("Value{i}")));
        }
    }
}

#[test]
fn open_addressing_upsert_counts_once() {
    let mut map: HashMap<u64, u64> = HashMap::new(16);
    map.insert(7, 1).unwrap();
    map.insert(7, 2).unwrap();
    assert_eq!(map.get(7).unwrap(), Some(2));
    assert_eq!(map.len(), 1);
}

#[test]
fn open_addressing_delete_then_reinsert() {
    // a tombstone left by a delete is reused and never shadows the new value
    let mut map: HashMap<u64, String> = HashMap::new(16);
    for k in 0..12u64 {
        map.insert(k, format!("v{}", k)).unwrap();
    }
    for k in 0..12u64 {
        map.delete(k).unwrap();
    }
    assert_eq!(map.len(), 0);
    for k in 0..12u64 {
        map.insert(k, format!("w{}", k)).unwrap();
    }
    for k in 0..12u64 {
        assert_eq!(map.get(k).unwrap(), Some(format!("w{}", k)));
    }
    assert_eq!(map.len(), 12);
}

#[test]
fn open_addressing_delete_absent_is_noop() {
    let mut map: HashMap<u64, u64> = HashMap::new(16);
    map.insert(1, 10).unwrap();
    map.delete(2).unwrap();
    assert_eq!(map.get(1).unwrap(), Some(10));
    assert_eq!(map.len(), 1);
}
