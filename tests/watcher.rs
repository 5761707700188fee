use muck::ooze::OozeError;
use muck::record::HeartBeat;
use muck::registration::{DummyRegistration, Registration, RegistrationError};
use muck::watcher::{Muck, MuckConfig, Watcher};

fn node(id: &str, version: u64) -> HeartBeat {
    HeartBeat {
        id: id.to_string(),
        address: format!("127.0.0.1:{}", 8000 + version),
        generation: 1,
        version,
        status: "ok".to_string(),
        timestamp: 0,
    }
}

#[test]
fn three_ticks_from_version_one_reach_four() {
    let mut watcher = Watcher::new(node("self", 1), Vec::new(), 10, 3);
    for t in 1..=3u64 {
        let (sent, _) = watcher.heartbeat_tick(1000 + t).unwrap();
        assert_eq!(sent.version, 1 + t);
        assert_eq!(sent.timestamp, 1000 + t);
        assert_eq!(sent.id, "self");
    }
    let stored = watcher.table().get(&"self".to_string()).unwrap();
    assert_eq!(stored.version, 4);
    assert_eq!(stored.generation, 1);
}

#[test]
fn tick_resumes_from_table_value() {
    let mut watcher = Watcher::new(node("self", 1), Vec::new(), 10, 3);
    assert!(watcher.gossip_step(node("self", 40), false).is_none());
    let (sent, _) = watcher.heartbeat_tick(5).unwrap();
    assert_eq!(sent.version, 41);
}

#[test]
fn tick_targets_are_known_distinct_addresses() {
    let seeds = vec!["10.0.0.1:1".to_string(), "10.0.0.2:2".to_string(), "10.0.0.3:3".to_string()];
    let mut watcher = Watcher::new(node("self", 1), seeds.clone(), 10, 2);
    let (_, targets) = watcher.heartbeat_tick(7).unwrap();
    assert_eq!(targets.len(), 2);
    assert_ne!(targets[0], targets[1]);
    let known = watcher.table().snapshot_addresses();
    assert!(targets.iter().all(|t| known.contains(t)));
}

#[test]
fn exhausted_version_stops_the_emitter() {
    let mut watcher = Watcher::new(node("self", u64::MAX), Vec::new(), 10, 3);
    assert!(watcher.heartbeat_tick(9).is_none());
    assert_eq!(watcher.table().get(&"self".to_string()).unwrap().version, u64::MAX);
}

#[test]
fn new_knows_seeds_and_keeps_configuration() {
    let seeds = vec!["10.0.0.1:1".to_string(), "10.0.0.1:1".to_string(), "10.0.0.2:2".to_string()];
    let watcher = Watcher::new(node("self", 1), seeds, 30, 4);
    assert_eq!(watcher.gossip_interval(), 30);
    assert_eq!(watcher.gossip_to_n_nodes(), 4);
    assert_eq!(watcher.node().id, "self");
    let mut addresses = watcher.table().snapshot_addresses();
    addresses.sort();
    assert_eq!(
        addresses,
        vec!["10.0.0.1:1".to_string(), "10.0.0.2:2".to_string(), "127.0.0.1:8001".to_string()]
    );
    assert_eq!(watcher.table().get(&"self".to_string()).unwrap().version, 1);
    assert_eq!(watcher.received_count(&"self".to_string()), 0);
}

#[test]
fn seed_equal_to_node_id_is_known() {
    let mut own = node("s", 1);
    own.address = "x".to_string();
    let watcher = Watcher::new(own, vec!["s".to_string()], 10, 3);
    let mut addresses = watcher.table().snapshot_addresses();
    addresses.sort();
    assert_eq!(addresses, vec!["s".to_string(), "x".to_string()]);
}

#[test]
fn novel_record_is_forwarded_when_drawn() {
    let seeds = vec!["10.0.0.1:1".to_string(), "10.0.0.2:2".to_string()];
    let mut watcher = Watcher::new(node("self", 1), seeds, 10, 5);
    let targets = watcher.gossip_step(node("peer", 3), true).unwrap();
    assert_eq!(targets.len(), 4);
    assert_eq!(watcher.table().get(&"peer".to_string()).unwrap().version, 3);
}

#[test]
fn accepted_record_not_forwarded_without_draw() {
    let mut watcher = Watcher::new(node("self", 1), Vec::new(), 10, 5);
    assert!(watcher.gossip_step(node("peer", 3), false).is_none());
    assert_eq!(watcher.table().get(&"peer".to_string()).unwrap().version, 3);
}

#[test]
fn stale_record_is_never_forwarded() {
    let mut watcher = Watcher::new(node("self", 1), Vec::new(), 10, 5);
    watcher.gossip_step(node("peer", 3), true);
    assert!(watcher.gossip_step(node("peer", 3), true).is_none());
    assert!(watcher.gossip_step(node("peer", 2), true).is_none());
    assert_eq!(watcher.received_count(&"peer".to_string()), 2);
    assert!(watcher.gossip_step(node("peer", 4), true).is_some());
    assert_eq!(watcher.received_count(&"peer".to_string()), 0);
}

#[test]
fn update_status_succeeds() {
    assert!(Watcher::update_status().is_ok());
}

#[test]
fn muck_holds_its_watcher() {
    let muck = Muck {
        config: MuckConfig { name: "one".to_string() },
        watcher: Watcher::new(node("self", 1), Vec::new(), 10, 3),
    };
    assert_eq!(muck.config.name, "one");
    assert_eq!(muck.watcher.node().version, 1);
}

#[test]
fn registration_and_error_messages() {
    let registration = DummyRegistration;
    assert!(registration.register().is_ok());
    assert!(registration.deregister().is_ok());
    assert_eq!(RegistrationError::InvalidCredentials.message(), "Invalid credentials provided");
    assert_eq!(OozeError::InitializationError.message(), "Initilization failed");
}
