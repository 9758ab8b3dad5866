use hashmap::open_addressing_compact::HashMap;
use hashmap::open_addressing_compact::DELETED;
use hashmap::open_addressing_compact::EMPTY;
use hashmap::open_addressing_compact::OCCUPIED;

#[test]
fn open_addressing_compact_test_hashmap() {
    let mut map: HashMap<String, String> = HashMap::new(10);
    map.insert("key".to_string(), "value".to_string()).unwrap();
    assert_eq!(
        map.get("key".to_string()).unwrap(),
        Some("value".to_string())
    );
}

#[test]
fn open_addressing_compact_test_resizing() {
    let mut map: HashMap<String, String> = HashMap::new(10);
    for i in 0..100 {
        let key = format!("Key{i}");
        let value = format!("Value{i}");
        map.insert(key.clone(), value).unwrap();
    }

    for i in 0..100 {
        let key = format!("Key{i}");
        let value = map.get(key).unwrap();
        assert_eq!(value, Some(format!("Value{i}")));
    }
}

#[test]
fn open_addressing_compact_test_mix_workload() {
    let mut map: HashMap<String, String> = HashMap::new(10);
    // Insert 100 items
    for i in 0..100 {
        let key = format!("Key{i}");
        let value = format!("Value{i}");
        map.insert(key.clone(), value.clone()).unwrap();
    }
    // Delete every 5th key
    for i in 0..100 {
        if i % 5 == 0 {
            let key = format!("Key{i}");
            map.delete(key).unwrap();
        }
    }
    // Verify remaining keys
    for i in 0..100 {
        let key = format!("Key{i}");
        if i % 5 == 0 {
            assert_eq!(map.get(key).unwrap(), None);
        } else {
            assert_eq!(map.get(key).unwrap(), Some(format!("Value{i}")));
        }
    }
}

#[test]
fn test_status_bits() {
    let mut map: HashMap<u64, u64> = HashMap::new(16);

    // Test initial state
    assert_eq!(map.get_status(0), EMPTY);

    // Test setting and getting status
    map.set_status(0, OCCUPIED);
    assert_eq!(map.get_status(0), OCCUPIED);

    map.set_status(1, DELETED);
    assert_eq!(map.get_status(1), DELETED);

    // Test multiple statuses in same byte
    map.set_status(2, OCCUPIED);
    map.set_status(3, EMPTY);
    assert_eq!(map.get_status(2), OCCUPIED);
    assert_eq!(map.get_status(3), EMPTY);
}

#[test]
fn compact_status_neighbours_unaffected() {
    // writing one slot's two bits never disturbs the others in the byte
    let mut map: HashMap<u64, u64> = HashMap::new(16);
    map.set_status(0, OCCUPIED);
    map.set_status(1, OCCUPIED);
    map.set_status(2, DELETED);
    map.set_status(3, OCCUPIED);
    map.set_status(2, EMPTY);
    assert_eq!(map.get_status(0), OCCUPIED);
    assert_eq!(map.get_status(1), OCCUPIED);
    assert_eq!(map.get_status(2), EMPTY);
    assert_eq!(map.get_status(3), OCCUPIED);
    map.set_status(1, DELETED);
    assert_eq!(map.get_status(0), OCCUPIED);
    assert_eq!(map.get_status(2), EMPTY);
    assert_eq!(map.get_status(3), OCCUPIED);
}

#[test]
fn compact_upsert_counts_once() {
    let mut map: HashMap<u64, u64> = HashMap::new(16);
    map.insert(7, 1).unwrap();
    map.insert(7, 2).unwrap();
    assert_eq!(map.get(7).unwrap(), Some(2));
    assert_eq!(map.len(), 1);
}

#[test]
fn compact_delete_then_reinsert() {
    let mut map: HashMap<u64, String> = HashMap::new(16);
    for k in 0..12u64 {
        map.insert(k, format!("v{}", k)).unwrap();
    }
    for k in 0..12u64 {
        map.delete(k).unwrap();
    }
    assert_eq!(map.len(), 0);
    for k in 0..12u64 {
        map.insert(k, format!("w{}", k)).unwrap();
    }
    for k in 0..12u64 {
        assert_eq!(map.get(k).unwrap(), Some(format!("w{}", k)));
    }
    assert_eq!(map.len(), 12);
}
