use peer_cache::peers::PeerRegistry;
use peer_cache::protocol::handle_request;
use peer_cache::replication::{broadcast_message, fan_out, Delivery};
use peer_cache::store::{CacheEntry, CacheStore};

#[test]
fn broadcast_message_is_the_wire_text() {
    assert_eq!(broadcast_message("k", "v"), "BROADCAST k=v\n");
    assert_eq!(broadcast_message("", ""), "BROADCAST =\n");
}

#[test]
fn fan_out_plans_one_delivery_per_peer() {
    let peers = vec!["a:1".to_string(), "b:2".to_string()];
    let entry = CacheEntry::new("k".to_string(), "v".to_string());
    let plan = fan_out(&peers, &entry);
    assert_eq!(
        plan,
        vec![
            Delivery { peer: "a:1".to_string(), message: "BROADCAST k=v\n".to_string() },
            Delivery { peer: "b:2".to_string(), message: "BROADCAST k=v\n".to_string() },
        ]
    );
}

#[test]
fn fan_out_to_no_peers_is_empty() {
    let entry = CacheEntry::new("k".to_string(), "v".to_string());
    assert!(fan_out(&Vec::new(), &entry).is_empty());
}

#[test]
fn replicated_write_arrives_and_goes_no_further() {
    let mut local = CacheStore::new();
    let mut remote = CacheStore::new();
    let mut registry = PeerRegistry::new();
    registry.insert("127.0.0.1:8082".to_string());

    let reply = handle_request(&mut local, "SET colour = blue\n");
    let entry = reply.replicate.unwrap();
    let plan = fan_out(&registry.snapshot(), &entry);
    assert_eq!(plan.len(), 1);
    assert_eq!(plan[0].peer, "127.0.0.1:8082");

    let arrived = handle_request(&mut remote, &plan[0].message);
    assert_eq!(arrived.response, "OK: BROADCAST applied");
    assert_eq!(arrived.replicate, None);
    assert_eq!(remote.get("colour"), local.get("colour"));
    assert_eq!(remote.get("colour"), Some(&"blue".to_string()));
}

#[test]
fn fan_out_in_a_full_mesh_stops_after_one_hop() {
    let mut stores = vec![CacheStore::new(), CacheStore::new(), CacheStore::new()];
    let reply = handle_request(&mut stores[0], "SET k=v");
    let entry = reply.replicate.unwrap();
    let peers = vec!["node1".to_string(), "node2".to_string()];
    let plan = fan_out(&peers, &entry);
    let mut further = 0;
    for (i, delivery) in plan.iter().enumerate() {
        let arrived = handle_request(&mut stores[i + 1], &delivery.message);
        if arrived.replicate.is_some() {
            further += 1;
        }
    }
    assert_eq!(further, 0);
    for store in stores.iter() {
        assert_eq!(store.get("k"), Some(&"v".to_string()));
    }
}
