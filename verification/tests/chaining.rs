use hashmap::chaining::HashMap;

#[test]
fn chaining_test_hashmap() {
    let mut map: HashMap<String, String> = HashMap::new(16);
    map.insert("key".to_string(), "value".to_string()).unwrap();
    let value = map.get("key".to_string());
    assert_eq!(value.unwrap().unwrap(), "value".to_string());
}

#[test]
fn chaining_test_resizing() {
    let mut map: HashMap<String, String> = HashMap::new(16);
    for i in 0..25 {
        let key = format!("key_{}", i);
        let value = format!("value_{}", i);
        map.insert(key, value).unwrap();
    }
    for i in 0..25 {
        let key = format!("key_{}", i);
        let value = format!("value_{}", i);
        let result = map.get(key).unwrap();
        assert_eq!(result.unwrap(), value);
    }
}

#[test]
fn chaining_test_mix_workload() {
    let mut map: HashMap<String, String> = HashMap::new(10);
    for i in 0..100 {
        let key = format!("Key{i}");
        let value = format!("Value{i}");
        map.insert(key.clone(), value.clone()).unwrap();
    }
    //  delete every 5th key
    for i in 0..100 {
        if i % 5 == 0 {
            let key = format!("Key{i}");
            map.delete(key).unwrap();
        }
    }
    //  check if remaining keys exist
    for i in 0..100 {
        if i % 5 == 0 {
            let key = format!("Key{i}");
            assert_eq!(map.get(key).unwrap(), None);
        } else {
            let key = format!("Key{i}");
            assert_eq!(map.get(key).unwrap(), Some(format!("Value{i}")));
        }
    }
}

#[test]
fn chaining_upsert_counts_once() {
    let mut map: HashMap<String, u64> = HashMap::new(16);
    map.insert("k".to_string(), 1).unwrap();
    map.insert("k".to_string(), 2).unwrap();
    assert_eq!(map.get("k".to_string()).unwrap(), Some(2));
    assert_eq!(map.len(), 1);
}

#[test]
fn chaining_len_tracks_live_keys() {
    let mut map: HashMap<String, String> = HashMap::new(10);
    assert_eq!(map.len(), 0);
    for i in 0..100 {
        map.insert(format!("Key{i}"), format!("Value{i}")).unwrap();
    }
    assert_eq!(map.len(), 100);
    for i in 0..100 {
        if i % 5 == 0 {
            map.delete(format!("Key{i}")).unwrap();
        }
    }
    assert_eq!(map.len(), 80);
    // deleting an absent key is a no-op
    map.delete("Key0".to_string()).unwrap();
    assert_eq!(map.len(), 80);
}

#[test]
fn chaining_empty_table_lookups() {
    let map: HashMap<String, String> = HashMap::new(0);
    assert_eq!(map.get("anything".to_string()).unwrap(), None);
}

#[test]
fn chaining_threshold_boundary() {
    // a table that only grows when completely full still serves every key
    let mut map: HashMap<String, u64> = HashMap::with_threshold(16, 100);
    for i in 0..40u64 {
        map.insert(format!("k{}", i), i).unwrap();
    }
    for i in 0..40u64 {
        assert_eq!(map.get(format!("k{}", i)).unwrap(), Some(i));
    }
}
