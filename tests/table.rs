use muck::record::HeartBeat;
use muck::table::{MembershipTable, UpsertOutcome};

fn record(id: &str, generation: u64, version: u64) -> HeartBeat {
    HeartBeat {
        id: id.to_string(),
        address: format!("{}:9000", id),
        generation,
        version,
        status: "ok".to_string(),
        timestamp: 100 + version,
    }
}

#[test]
fn upsert_accept_reject_accept_scenario() {
    let mut table = MembershipTable::new();
    let a = "A".to_string();
    assert_eq!(table.upsert(record("A", 1, 5)), UpsertOutcome::Accepted { newly_seen: true });
    assert_eq!(table.get_received_count(&a), 0);
    assert_eq!(table.upsert(record("A", 1, 3)), UpsertOutcome::Rejected);
    assert_eq!(table.get(&a).unwrap().version, 5);
    assert_eq!(table.get_received_count(&a), 1);
    assert_eq!(table.upsert(record("A", 1, 6)), UpsertOutcome::Accepted { newly_seen: false });
    assert_eq!(table.get(&a).unwrap().version, 6);
    assert_eq!(table.get_received_count(&a), 0);
}

#[test]
fn reject_leaves_record_unchanged_and_counts_once() {
    let mut table = MembershipTable::new();
    let a = "A".to_string();
    table.upsert(record("A", 2, 7));
    let mut equal = record("A", 2, 7);
    equal.status = "changed".to_string();
    equal.timestamp = 1;
    assert_eq!(table.upsert(equal), UpsertOutcome::Rejected);
    let stored = table.get(&a).unwrap();
    assert_eq!(stored.status, "ok");
    assert_eq!(stored.timestamp, 107);
    assert_eq!(table.get_received_count(&a), 1);
    assert_eq!(table.upsert(record("A", 1, 100)), UpsertOutcome::Rejected);
    assert_eq!(table.get(&a).unwrap().version, 7);
    assert_eq!(table.get(&a).unwrap().generation, 2);
    assert_eq!(table.get_received_count(&a), 2);
}

#[test]
fn generation_outranks_version() {
    let mut table = MembershipTable::new();
    let a = "A".to_string();
    table.upsert(record("A", 1, 50));
    assert_eq!(table.upsert(record("A", 2, 1)), UpsertOutcome::Accepted { newly_seen: false });
    let stored = table.get(&a).unwrap();
    assert_eq!((stored.generation, stored.version), (2, 1));
}

#[test]
fn stored_pair_is_maximum_in_every_order() {
    let pairs = [(1u64, 3u64), (2, 1), (1, 9), (2, 4), (0, 20), (2, 2)];
    let orders: [[usize; 6]; 4] = [
        [0, 1, 2, 3, 4, 5],
        [5, 4, 3, 2, 1, 0],
        [3, 0, 5, 1, 4, 2],
        [4, 2, 0, 5, 3, 1],
    ];
    for order in orders.iter() {
        let mut table = MembershipTable::new();
        for &i in order.iter() {
            table.upsert(record("N", pairs[i].0, pairs[i].1));
        }
        let stored = table.get(&"N".to_string()).unwrap();
        assert_eq!((stored.generation, stored.version), (2, 4));
    }
}

#[test]
fn distinct_ids_are_all_kept() {
    let mut table = MembershipTable::new();
    for i in 0..50u64 {
        table.upsert(record(&format!("n{}", i), 1, i + 1));
    }
    for i in 0..50u64 {
        let stored = table.get(&format!("n{}", i)).unwrap();
        assert_eq!(stored.id, format!("n{}", i));
        assert_eq!(stored.version, i + 1);
        assert_eq!(stored.address, format!("n{}:9000", i));
    }
}

#[test]
fn unknown_id_has_no_record_and_zero_count() {
    let table = MembershipTable::new();
    assert!(table.get(&"X".to_string()).is_none());
    assert_eq!(table.get_received_count(&"X".to_string()), 0);
    assert!(table.snapshot_addresses().is_empty());
}

#[test]
fn snapshot_lists_each_address_once() {
    let mut table = MembershipTable::new();
    table.upsert(record("A", 1, 1));
    table.upsert(record("B", 1, 1));
    let mut shared = record("C", 1, 1);
    shared.address = "A:9000".to_string();
    table.upsert(shared);
    let mut addresses = table.snapshot_addresses();
    addresses.sort();
    assert_eq!(addresses, vec!["A:9000".to_string(), "B:9000".to_string()]);
}

#[test]
fn seed_makes_address_known_once() {
    let mut table = MembershipTable::new();
    table.seed("10.0.0.1:8001".to_string());
    table.seed("10.0.0.1:8001".to_string());
    assert_eq!(table.snapshot_addresses(), vec!["10.0.0.1:8001".to_string()]);
    assert!(table.get(&"10.0.0.1:8001".to_string()).is_none());
    table.upsert(record("A", 1, 1));
    table.seed("A:9000".to_string());
    let mut addresses = table.snapshot_addresses();
    addresses.sort();
    assert_eq!(addresses, vec!["10.0.0.1:8001".to_string(), "A:9000".to_string()]);
}

#[test]
fn seed_equal_to_an_identity_is_still_known() {
    let mut table = MembershipTable::new();
    table.upsert(record("A", 1, 1));
    table.seed("A".to_string());
    let mut addresses = table.snapshot_addresses();
    addresses.sort();
    assert_eq!(addresses, vec!["A".to_string(), "A:9000".to_string()]);
    assert_eq!(table.get(&"A".to_string()).unwrap().version, 1);
    assert_eq!(table.get_received_count(&"A".to_string()), 0);
}

#[test]
fn is_newer_than_compares_lexicographically() {
    assert!(record("A", 1, 2).is_newer_than(&record("A", 1, 1)));
    assert!(record("A", 2, 0).is_newer_than(&record("A", 1, 9)));
    assert!(!record("A", 1, 1).is_newer_than(&record("A", 1, 1)));
    assert!(!record("A", 1, 9).is_newer_than(&record("A", 2, 0)));
}
