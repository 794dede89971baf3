use tcp_punchhole::codec::{CodecError, PeerRecord};
use tcp_punchhole::registry::{filter_peers, Registry};

fn record(remote: &str, remote_port: u16, local: &str, local_port: u16) -> PeerRecord {
    PeerRecord {
        local_address: local.to_string(),
        local_port,
        remote_address: remote.to_string(),
        remote_port,
    }
}

#[test]
fn filter_peers_drops_matching_endpoint() {
    let peers = vec![
        record("1.1.1.1", 1, "10.0.0.1", 2),
        record("1.1.1.1", 2, "10.0.0.2", 3),
        record("2.2.2.2", 1, "10.0.0.3", 4),
    ];
    let kept = filter_peers(&peers, &"1.1.1.1".to_string(), 1);
    assert_eq!(kept.len(), 2);
    assert_eq!(kept[0].remote_port, 2);
    assert_eq!(kept[1].remote_address, "2.2.2.2");
}

#[test]
fn snapshot_never_holds_excluded_endpoint() {
    let mut reg = Registry::new();
    reg.register(record("1.1.1.1", 1, "10.0.0.1", 2));
    reg.register(record("2.2.2.2", 2, "10.0.0.2", 3));
    let snap = reg.snapshot_excluding(&"1.1.1.1".to_string(), 1);
    assert_eq!(snap.len(), 1);
    assert!(snap.iter().all(|p| !(p.remote_address == "1.1.1.1" && p.remote_port == 1)));
    assert_eq!(reg.snapshot_excluding(&"9.9.9.9".to_string(), 9).len(), 2);
}

#[test]
fn register_replaces_same_endpoint() {
    let mut reg = Registry::new();
    reg.register(record("1.1.1.1", 1, "10.0.0.1", 2));
    reg.register(record("1.1.1.1", 1, "10.0.0.7", 8));
    assert_eq!(reg.len(), 1);
    let snap = reg.snapshot_excluding(&"0.0.0.0".to_string(), 0);
    assert_eq!(snap[0].local_address, "10.0.0.7");
}

#[test]
fn two_peer_session_exchanges_endpoints() {
    let mut reg = Registry::new();
    let first = reg.on_registration(&"198.51.100.1".to_string(), 40000, "10.0.0.5:5001").unwrap();
    assert!(first.is_empty());
    let second = reg.on_registration(&"198.51.100.2".to_string(), 40001, "10.0.0.9:5002").unwrap();
    assert_eq!(second.len(), 2);
    assert_eq!(second[0].target_key, "198.51.100.1:40000");
    assert_eq!(second[0].payload, "198.51.100.2:40001|10.0.0.9:5002");
    assert_eq!(second[1].target_key, "198.51.100.2:40001");
    assert_eq!(second[1].payload, "198.51.100.1:40000|10.0.0.5:5001");
}

#[test]
fn malformed_registration_leaves_registry() {
    let mut reg = Registry::new();
    reg.register(record("1.1.1.1", 1, "10.0.0.1", 2));
    let r = reg.on_registration(&"2.2.2.2".to_string(), 2, "no-port-here");
    assert_eq!(r.unwrap_err(), CodecError::MalformedEndpoint);
    assert_eq!(reg.len(), 1);
}

#[test]
fn closed_connection_is_unregistered() {
    let mut reg = Registry::new();
    reg.on_registration(&"1.1.1.1".to_string(), 1, "10.0.0.1:2").unwrap();
    reg.on_registration(&"2.2.2.2".to_string(), 2, "10.0.0.2:3").unwrap();
    reg.on_registration(&"3.3.3.3".to_string(), 3, "10.0.0.3:4").unwrap();
    assert!(reg.unregister(&"1.1.1.1".to_string(), 1));
    assert_eq!(reg.len(), 2);
    let relays = reg.relay_messages();
    assert_eq!(relays.len(), 2);
    assert!(relays.iter().all(|m| m.target_key != "1.1.1.1:1"));
    assert!(relays.iter().all(|m| !m.payload.contains("1.1.1.1:1")));
    assert!(!reg.unregister(&"1.1.1.1".to_string(), 1));
}

#[test]
fn lone_peer_gets_no_relay() {
    let mut reg = Registry::new();
    reg.on_registration(&"1.1.1.1".to_string(), 1, "10.0.0.1:2").unwrap();
    reg.on_registration(&"2.2.2.2".to_string(), 2, "10.0.0.2:3").unwrap();
    reg.unregister(&"2.2.2.2".to_string(), 2);
    assert!(reg.relay_messages().is_empty());
}
