use peer_cache::config::{ANNOUNCE_HOST, BROADCAST_HOST, DISCOVERY_PORT};
use peer_cache::discovery::{
    announcement, expire_unreachable, on_datagram, on_datagram_bytes, parse_announcement,
    peer_address, Probe,
};
use peer_cache::peers::PeerRegistry;

#[test]
fn announcement_names_host_and_port() {
    assert_eq!(announcement("127.0.0.1", 8080), "ANNOUNCE 127.0.0.1:8080");
    assert_eq!(announcement(ANNOUNCE_HOST, 65535), "ANNOUNCE 127.0.0.1:65535");
    assert_eq!(announcement("node-a", 0), "ANNOUNCE node-a:0");
}

#[test]
fn peer_address_joins_host_and_port() {
    assert_eq!(peer_address("127.0.0.1", 8081), "127.0.0.1:8081");
    assert_eq!(peer_address(BROADCAST_HOST, DISCOVERY_PORT), "255.255.255.255:9000");
}

#[test]
fn parse_announcement_reads_the_address() {
    assert_eq!(parse_announcement("ANNOUNCE 127.0.0.1:8080"), Some("127.0.0.1:8080".to_string()));
    assert_eq!(parse_announcement("ANNOUNCE  10.0.0.7:9 \n"), Some("10.0.0.7:9".to_string()));
}

#[test]
fn announcement_without_address_announces_nothing() {
    assert_eq!(parse_announcement("ANNOUNCE"), None);
    assert_eq!(parse_announcement("ANNOUNCE "), None);
    assert_eq!(parse_announcement("ANNOUNCE \r\n"), None);
    assert_eq!(parse_announcement("ANNOUNCEMENT 127.0.0.1:8080"), None);
    assert_eq!(parse_announcement("ANNOUNCE127.0.0.1:8080"), None);
    assert_eq!(parse_announcement("ANNOUNCE\t127.0.0.1:8080"), None);
}

#[test]
fn bare_announcement_leaves_the_registry_alone() {
    let mut registry = PeerRegistry::new();
    registry.insert("127.0.0.1:8081".to_string());
    assert_eq!(on_datagram(&mut registry, "ANNOUNCE"), None);
    assert_eq!(on_datagram(&mut registry, "ANNOUNCE   "), None);
    assert_eq!(on_datagram_bytes(&mut registry, b"ANNOUNCE \n"), None);
    assert_eq!(registry.snapshot(), vec!["127.0.0.1:8081".to_string()]);
    assert!(!registry.contains(""));
}

#[test]
fn other_payloads_announce_nothing() {
    assert_eq!(parse_announcement(""), None);
    assert_eq!(parse_announcement("announce 127.0.0.1:8080"), None);
    assert_eq!(parse_announcement("GET k"), None);
    assert_eq!(parse_announcement(" ANNOUNCE 127.0.0.1:8080"), None);
}

#[test]
fn announcement_is_read_back() {
    let datagram = announcement("192.168.1.20", 8082);
    assert_eq!(parse_announcement(&datagram), Some("192.168.1.20:8082".to_string()));
}

#[test]
fn announcement_enters_the_registry_and_calls_for_a_sweep() {
    let mut registry = PeerRegistry::new();
    registry.insert("127.0.0.1:8081".to_string());
    let to_probe = on_datagram(&mut registry, "ANNOUNCE 127.0.0.1:8082");
    assert_eq!(
        to_probe,
        Some(vec!["127.0.0.1:8081".to_string(), "127.0.0.1:8082".to_string()])
    );
    assert!(registry.contains("127.0.0.1:8082"));
    let again = on_datagram(&mut registry, "ANNOUNCE 127.0.0.1:8082");
    assert_eq!(again, Some(vec!["127.0.0.1:8081".to_string(), "127.0.0.1:8082".to_string()]));
    assert_eq!(registry.len(), 2);
}

#[test]
fn other_datagrams_are_ignored() {
    let mut registry = PeerRegistry::new();
    registry.insert("127.0.0.1:8081".to_string());
    assert_eq!(on_datagram(&mut registry, "HELLO 127.0.0.1:8082"), None);
    assert_eq!(on_datagram(&mut registry, ""), None);
    assert_eq!(registry.snapshot(), vec!["127.0.0.1:8081".to_string()]);
}

#[test]
fn two_nodes_learn_of_each_other() {
    let mut first = PeerRegistry::new();
    let mut second = PeerRegistry::new();
    on_datagram(&mut first, &announcement("127.0.0.1", 8082));
    on_datagram(&mut second, &announcement("127.0.0.1", 8081));
    assert!(first.contains("127.0.0.1:8082"));
    assert!(second.contains("127.0.0.1:8081"));
}

#[test]
fn sweep_drops_unreachable_peers() {
    let mut registry = PeerRegistry::new();
    registry.insert("a:1".to_string());
    registry.insert("b:2".to_string());
    registry.insert("c:3".to_string());
    let probes = vec![
        Probe { peer: "a:1".to_string(), reachable: true },
        Probe { peer: "b:2".to_string(), reachable: false },
        Probe { peer: "c:3".to_string(), reachable: true },
    ];
    let removed = expire_unreachable(&mut registry, &probes);
    assert_eq!(removed, vec!["b:2".to_string()]);
    assert_eq!(registry.snapshot(), vec!["a:1".to_string(), "c:3".to_string()]);
}

#[test]
fn sweep_reports_each_removal_once() {
    let mut registry = PeerRegistry::new();
    registry.insert("a:1".to_string());
    let probes = vec![
        Probe { peer: "a:1".to_string(), reachable: false },
        Probe { peer: "a:1".to_string(), reachable: false },
        Probe { peer: "z:9".to_string(), reachable: false },
    ];
    let removed = expire_unreachable(&mut registry, &probes);
    assert_eq!(removed, vec!["a:1".to_string()]);
    assert_eq!(registry.len(), 0);
}

#[test]
fn sweep_without_failures_changes_nothing() {
    let mut registry = PeerRegistry::new();
    registry.insert("a:1".to_string());
    let probes = vec![Probe { peer: "a:1".to_string(), reachable: true }];
    assert!(expire_unreachable(&mut registry, &probes).is_empty());
    assert!(expire_unreachable(&mut registry, &Vec::new()).is_empty());
    assert_eq!(registry.snapshot(), vec!["a:1".to_string()]);
}

#[test]
fn closed_peer_is_removed_after_its_announcement() {
    let mut registry = PeerRegistry::new();
    let targets = on_datagram(&mut registry, "ANNOUNCE 127.0.0.1:8082").unwrap();
    let probes: Vec<Probe> =
        targets.into_iter().map(|peer| Probe { peer, reachable: false }).collect();
    let removed = expire_unreachable(&mut registry, &probes);
    assert_eq!(removed, vec!["127.0.0.1:8082".to_string()]);
    assert!(!registry.contains("127.0.0.1:8082"));
}

#[test]
fn datagram_bytes_are_read_as_text() {
    let mut registry = PeerRegistry::new();
    let to_probe = on_datagram_bytes(&mut registry, b"ANNOUNCE 127.0.0.1:8083");
    assert_eq!(to_probe, Some(vec!["127.0.0.1:8083".to_string()]));
    assert_eq!(on_datagram_bytes(&mut registry, b"\xffANNOUNCE 127.0.0.1:8084"), None);
    assert_eq!(on_datagram_bytes(&mut registry, b""), None);
    assert_eq!(registry.snapshot(), vec!["127.0.0.1:8083".to_string()]);
}
