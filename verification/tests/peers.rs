use peer_cache::peers::PeerRegistry;

#[test]
fn new_registry_is_empty() {
    let registry = PeerRegistry::new();
    assert_eq!(registry.len(), 0);
    assert!(!registry.contains("127.0.0.1:8080"));
    assert!(registry.snapshot().is_empty());
}

#[test]
fn insert_is_idempotent() {
    let mut registry = PeerRegistry::new();
    assert!(registry.insert("127.0.0.1:8080".to_string()));
    assert!(!registry.insert("127.0.0.1:8080".to_string()));
    assert_eq!(registry.len(), 1);
    assert!(registry.contains("127.0.0.1:8080"));
    assert_eq!(registry.snapshot(), vec!["127.0.0.1:8080".to_string()]);
}

#[test]
fn insert_keeps_order_of_discovery() {
    let mut registry = PeerRegistry::new();
    registry.insert("b:2".to_string());
    registry.insert("a:1".to_string());
    registry.insert("b:2".to_string());
    registry.insert("c:3".to_string());
    assert_eq!(registry.snapshot(), vec!["b:2".to_string(), "a:1".to_string(), "c:3".to_string()]);
}

#[test]
fn remove_drops_only_the_address() {
    let mut registry = PeerRegistry::new();
    registry.insert("a:1".to_string());
    registry.insert("b:2".to_string());
    registry.insert("c:3".to_string());
    assert!(registry.remove("b:2"));
    assert_eq!(registry.snapshot(), vec!["a:1".to_string(), "c:3".to_string()]);
    assert!(!registry.contains("b:2"));
    assert!(registry.contains("a:1"));
    assert!(registry.contains("c:3"));
}

#[test]
fn remove_of_unknown_address_changes_nothing() {
    let mut registry = PeerRegistry::new();
    registry.insert("a:1".to_string());
    assert!(!registry.remove("z:9"));
    assert_eq!(registry.snapshot(), vec!["a:1".to_string()]);
}

#[test]
fn registry_snapshot_is_a_copy() {
    let mut registry = PeerRegistry::new();
    registry.insert("a:1".to_string());
    let copy = registry.snapshot();
    registry.remove("a:1");
    registry.insert("b:2".to_string());
    assert_eq!(copy, vec!["a:1".to_string()]);
    assert_eq!(registry.snapshot(), vec!["b:2".to_string()]);
}
