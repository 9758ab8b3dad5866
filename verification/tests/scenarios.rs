use hashmap::chaining;
use hashmap::open_addressing;
use hashmap::open_addressing_compact;
use hashmap::open_addressing_compact::OCCUPIED;
use hashmap::workloads::run_key_distribution_workload;
use hashmap::workloads::run_load_factor_workload;
use hashmap::workloads::run_operation_mix_workload;
use hashmap::workloads::KeyDistributionWorkload;
use hashmap::workloads::KeyPattern;
use hashmap::workloads::LoadFactorWorkload;
use hashmap::workloads::OperationMixWorkload;

/// The slot a lone key occupies in a fresh 16-slot compact table: with no
/// collisions it sits on its home slot, which the packed status bits expose.
fn home_slot_at_16(key: &str) -> usize {
    let mut map: open_addressing_compact::HashMap<String, u64> =
        open_addressing_compact::HashMap::new(16);
    map.insert(key.to_string(), 0).unwrap();
    for i in 0..16 {
        if map.get_status(i) == OCCUPIED {
            return i;
        }
    }
    panic!("a stored key must occupy a slot");
}

/// Two distinct keys that hash to the same home slot in a 16-slot table.
fn colliding_pair() -> (String, String) {
    let a = "A".to_string();
    let slot_a = home_slot_at_16(&a);
    for i in 0..100000u64 {
        let cand = format!("B{}", i);
        if home_slot_at_16(&cand) == slot_a {
            return (a, cand);
        }
    }
    panic!("some candidate must share a 4-bit home slot");
}

#[test]
fn scenario_insert_get_delete_chaining() {
    let mut map: chaining::HashMap<String, String> = chaining::HashMap::new(10);
    map.insert("key".to_string(), "value".to_string()).unwrap();
    assert_eq!(map.get("key".to_string()).unwrap(), Some("value".to_string()));
    map.delete("key".to_string()).unwrap();
    assert_eq!(map.get("key".to_string()).unwrap(), None);
}

#[test]
fn scenario_insert_get_delete_open_addressing() {
    let mut map: open_addressing::HashMap<String, String> = open_addressing::HashMap::new(10);
    map.insert("key".to_string(), "value".to_string()).unwrap();
    assert_eq!(map.get("key".to_string()).unwrap(), Some("value".to_string()));
    map.delete("key".to_string()).unwrap();
    assert_eq!(map.get("key".to_string()).unwrap(), None);
}

#[test]
fn scenario_insert_get_delete_compact() {
    let mut map: open_addressing_compact::HashMap<String, String> =
        open_addressing_compact::HashMap::new(10);
    map.insert("key".to_string(), "value".to_string()).unwrap();
    assert_eq!(map.get("key".to_string()).unwrap(), Some("value".to_string()));
    map.delete("key".to_string()).unwrap();
    assert_eq!(map.get("key".to_string()).unwrap(), None);
}

#[test]
fn tombstone_slot_reuse() {
    let (a, b) = colliding_pair();

    // compact engine: B lands on A's cleared slot and both answers are right
    let mut map: open_addressing_compact::HashMap<String, u64> =
        open_addressing_compact::HashMap::new(16);
    let slot_a = {
        map.insert(a.clone(), 1).unwrap();
        let mut found = None;
        for i in 0..16 {
            if map.get_status(i) == OCCUPIED {
                found = Some(i);
            }
        }
        found.expect("A occupies a slot")
    };
    map.delete(a.clone()).unwrap();
    map.insert(b.clone(), 2).unwrap();
    assert_eq!(map.get_status(slot_a), OCCUPIED);
    assert_eq!(map.get(b.clone()).unwrap(), Some(2));
    assert_eq!(map.get(a.clone()).unwrap(), None);

    // plain open addressing: same keys, same probe arithmetic
    let mut map2: open_addressing::HashMap<String, u64> = open_addressing::HashMap::new(16);
    map2.insert(a.clone(), 1).unwrap();
    map2.delete(a.clone()).unwrap();
    map2.insert(b.clone(), 2).unwrap();
    assert_eq!(map2.get(b.clone()).unwrap(), Some(2));
    assert_eq!(map2.get(a.clone()).unwrap(), None);
    assert_eq!(map2.len(), 1);

    // chaining: the pair shares a bucket; the splice leaves B intact
    let mut map3: chaining::HashMap<String, u64> = chaining::HashMap::new(16);
    map3.insert(a.clone(), 1).unwrap();
    map3.insert(b.clone(), 2).unwrap();
    map3.delete(a.clone()).unwrap();
    assert_eq!(map3.get(b.clone()).unwrap(), Some(2));
    assert_eq!(map3.get(a).unwrap(), None);
}

#[test]
fn load_factor_workload_runs_on_every_engine() {
    let workload = LoadFactorWorkload { size: 200, value_size: 32 };
    run_load_factor_workload::<chaining::HashMap<String, String>>(&workload);
    run_load_factor_workload::<open_addressing::HashMap<String, String>>(&workload);
    run_load_factor_workload::<open_addressing_compact::HashMap<String, String>>(&workload);
}

#[test]
fn key_distribution_workload_runs_every_pattern() {
    for pattern in [KeyPattern::Uniform, KeyPattern::Clustered, KeyPattern::Sequential] {
        let workload = KeyDistributionWorkload { size: 50, pattern: pattern.clone() };
        run_key_distribution_workload::<chaining::HashMap<String, String>>(&workload);
        run_key_distribution_workload::<open_addressing::HashMap<String, String>>(&workload);
        run_key_distribution_workload::<open_addressing_compact::HashMap<String, String>>(
            &workload,
        );
    }
}

#[test]
fn operation_mix_workload_runs_on_every_engine() {
    let workload = OperationMixWorkload {
        initial_size: 20,
        operations: 200,
        read_pct: 60,
        write_pct: 30,
    };
    run_operation_mix_workload::<chaining::HashMap<String, String>>(&workload);
    run_operation_mix_workload::<open_addressing::HashMap<String, String>>(&workload);
    run_operation_mix_workload::<open_addressing_compact::HashMap<String, String>>(&workload);
}
