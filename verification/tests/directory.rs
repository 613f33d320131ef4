//! Behavior of the peer directory, the gossip round, and topology
//! derivation on concrete clusters.

use htp_core::discovery::DiscoveryService;
use htp_core::hash_id;
use htp_core::node::NodeRole;

fn worker_directory(id: &str) -> DiscoveryService {
    DiscoveryService::new(id.to_string(), NodeRole::Worker, "127.0.0.1:0".to_string())
}

#[test]
fn purged_peer_leaves_the_gossip_pool_until_it_reregisters() {
    let mut d = worker_directory("local");
    d.register_heartbeat(
        "p1".to_string(),
        "10.0.0.1:5000".to_string(),
        NodeRole::Worker,
        100,
    );
    // sixty-one seconds of silence against a sixty-second TTL
    d.purge_dead_peers(161, 60);
    let (targets, snapshot) = d.generate_gossip(3);
    assert!(targets.is_empty());
    assert!(snapshot.is_empty());
    // re-registering restores eligibility as a brand-new discovery
    d.register_heartbeat(
        "p1".to_string(),
        "10.0.0.1:5000".to_string(),
        NodeRole::Worker,
        161,
    );
    let (targets, snapshot) = d.generate_gossip(3);
    assert_eq!(targets, vec!["10.0.0.1:5000".to_string()]);
    assert_eq!(snapshot.len(), 1);
    assert_eq!(snapshot[0].id, "p1");
    assert_eq!(snapshot[0].last_seen, 161);
}

#[test]
fn peer_exactly_at_ttl_survives_the_purge() {
    let mut d = worker_directory("local");
    d.register_heartbeat("p1".to_string(), "a:1".to_string(), NodeRole::Worker, 100);
    d.purge_dead_peers(160, 60); // age exactly 60 does not exceed the TTL
    let (_, snapshot) = d.generate_gossip(1);
    assert_eq!(snapshot.len(), 1);
}

#[test]
fn gossip_refreshes_known_peers_and_discovers_unknown_ones() {
    let mut d = worker_directory("local");
    d.register_heartbeat("old".to_string(), "a:1".to_string(), NodeRole::Worker, 10);
    let (_, mut incoming) = {
        let mut other = worker_directory("remote");
        other.register_heartbeat("old".to_string(), "a:1".to_string(), NodeRole::Worker, 5);
        other.register_heartbeat("new".to_string(), "b:2".to_string(), NodeRole::ParameterServer, 5);
        other.generate_gossip(0)
    };
    incoming.sort_by(|x, y| x.id.cmp(&y.id));
    d.handle_gossip(incoming, 50);
    let (_, snapshot) = d.generate_gossip(0);
    assert_eq!(snapshot.len(), 2);
    for p in &snapshot {
        // receipt of the gossip itself is the liveness evidence; the
        // sender's own stamps are never copied
        assert_eq!(p.last_seen, 50);
    }
}

#[test]
fn gossip_never_records_the_local_node() {
    let mut d = worker_directory("local");
    let mut other = worker_directory("remote");
    other.register_heartbeat("local".to_string(), "x:9".to_string(), NodeRole::Worker, 5);
    let (_, incoming) = other.generate_gossip(0);
    d.handle_gossip(incoming, 50);
    let (_, snapshot) = d.generate_gossip(0);
    assert!(snapshot.is_empty());
}

#[test]
fn gossip_targets_are_distinct_known_addresses() {
    let mut d = worker_directory("local");
    d.register_heartbeat("a".to_string(), "addr-a".to_string(), NodeRole::Worker, 1);
    d.register_heartbeat("b".to_string(), "addr-b".to_string(), NodeRole::Worker, 1);
    d.register_heartbeat("c".to_string(), "addr-c".to_string(), NodeRole::Worker, 1);
    let (targets, _) = d.generate_gossip(2);
    assert_eq!(targets.len(), 2);
    assert_ne!(targets[0], targets[1]);
    for t in &targets {
        assert!(["addr-a", "addr-b", "addr-c"].contains(&t.as_str()));
    }
    // a fan-out larger than the live set takes everyone once
    let (all, _) = d.generate_gossip(10);
    assert_eq!(all.len(), 3);
}

#[test]
fn byte_sum_hash_of_worker_7() {
    assert_eq!(hash_id("worker-7"), 766);
    assert_eq!(hash_id("worker-7") % 3, 1);
    assert_eq!(hash_id(""), 0);
}

#[test]
fn worker_7_mounts_under_ps_b() {
    let mut d = worker_directory("worker-7");
    d.register_heartbeat("ps-c".to_string(), "c:1".to_string(), NodeRole::ParameterServer, 1);
    d.register_heartbeat("ps-a".to_string(), "a:1".to_string(), NodeRole::ParameterServer, 1);
    d.register_heartbeat("ps-b".to_string(), "b:1".to_string(), NodeRole::ParameterServer, 1);
    d.register_heartbeat("w-9".to_string(), "w:1".to_string(), NodeRole::Worker, 1);
    let topo = d.build_topology();
    assert!(!topo.is_root);
    assert!(topo.children.is_empty());
    // hash("worker-7") mod 3 == 1 selects the middle of [ps-a, ps-b, ps-c]
    assert_eq!(topo.parent.unwrap().id, "ps-b");
}

#[test]
fn identical_snapshots_in_different_table_orders_agree_on_the_parent() {
    let records = [
        ("ps-a", "a:1", NodeRole::ParameterServer),
        ("ps-b", "b:1", NodeRole::ParameterServer),
        ("ps-c", "c:1", NodeRole::ParameterServer),
        ("w-3", "w:3", NodeRole::Worker),
    ];
    let mut d1 = worker_directory("worker-7");
    for (id, addr, role) in records.iter() {
        d1.register_heartbeat(id.to_string(), addr.to_string(), *role, 9);
    }
    let mut d2 = worker_directory("worker-7");
    for (id, addr, role) in records.iter().rev() {
        d2.register_heartbeat(id.to_string(), addr.to_string(), *role, 9);
    }
    let p1 = d1.build_topology().parent.unwrap();
    let p2 = d2.build_topology().parent.unwrap();
    assert_eq!(p1.id, p2.id);
    assert_eq!(p1.address, p2.address);
}

#[test]
fn parameter_server_is_a_root_and_orphan_worker_has_no_parent() {
    let ps = DiscoveryService::new(
        "ps-1".to_string(),
        NodeRole::ParameterServer,
        "p:1".to_string(),
    );
    let topo = ps.build_topology();
    assert!(topo.is_root);
    assert!(topo.parent.is_none());
    assert!(topo.children.is_empty());

    let orphan = worker_directory("alone");
    let topo = orphan.build_topology();
    assert!(!topo.is_root);
    assert!(topo.parent.is_none());
}

#[test]
fn heartbeat_overwrites_the_whole_record() {
    let mut d = worker_directory("local");
    d.register_heartbeat("p".to_string(), "old:1".to_string(), NodeRole::Worker, 10);
    d.register_heartbeat("p".to_string(), "new:2".to_string(), NodeRole::ParameterServer, 20);
    let (_, snapshot) = d.generate_gossip(0);
    assert_eq!(snapshot.len(), 1);
    assert_eq!(snapshot[0].address, "new:2");
    assert_eq!(snapshot[0].role, NodeRole::ParameterServer);
    assert_eq!(snapshot[0].last_seen, 20);
}
