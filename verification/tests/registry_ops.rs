use quilt_mesh::ipam::SimpleIPAM;
use quilt_mesh::registry::{NodeTable, RegistryError, T_DOWN_SECS};

/// Registers a node the way the control plane's handler does:
/// allocate a subnet, then insert the row.
fn register(
    table: &mut NodeTable,
    ipam: &mut SimpleIPAM,
    hostname: &str,
    host_ip: &str,
    now: i64,
) -> (String, String) {
    let subnet = ipam.allocate_subnet().expect("subnet pool exhausted");
    let node_id = table
        .register_node(
            hostname.to_string(),
            host_ip.to_string(),
            subnet.clone(),
            Some(4),
            Some(8192),
            now,
        )
        .expect("registration failed");
    (node_id, subnet)
}

#[test]
fn test_single_node_registration() {
    let mut table = NodeTable::new();
    let mut ipam = SimpleIPAM::new();
    let (node_id, subnet) = register(&mut table, &mut ipam, "node-a", "192.168.1.10", 100);
    assert_eq!(subnet, "10.42.1.0/24");
    assert_eq!(node_id.len(), 36);

    let nodes = table.list_nodes();
    assert_eq!(nodes.len(), 1);
    assert_eq!(nodes[0].node_id, node_id);
    assert_eq!(nodes[0].hostname, "node-a");
    assert_eq!(nodes[0].host_ip, "192.168.1.10");
    assert_eq!(nodes[0].subnet, "10.42.1.0/24");
    assert_eq!(nodes[0].status, "up");
    assert_eq!(nodes[0].registered_at, 100);
    assert_eq!(nodes[0].last_heartbeat, 100);
}

#[test]
fn test_node_registration_and_unique_subnets() {
    let mut table = NodeTable::new();
    let mut ipam = SimpleIPAM::new();
    register(&mut table, &mut ipam, "node-a", "192.168.1.10", 0);
    register(&mut table, &mut ipam, "node-b", "192.168.1.11", 1);

    let nodes = table.list_nodes();
    assert_eq!(nodes.len(), 2, "Expected 2 nodes, got {}", nodes.len());
    assert_ne!(nodes[0].subnet, nodes[1].subnet, "Nodes got the same subnet");
    for n in &nodes {
        assert!(n.subnet.starts_with("10.42."), "Unexpected subnet: {}", n.subnet);
        assert!(n.subnet.ends_with("/24"), "Subnet should be /24: {}", n.subnet);
        assert_eq!(n.status, "up", "Node {} should be up", n.node_id);
    }
}

#[test]
fn test_concurrent_node_registration() {
    // Concurrent registrations are serialized by the allocator's
    // counter; each caller observes a distinct subnet.
    let mut table = NodeTable::new();
    let mut ipam = SimpleIPAM::new();
    let mut ids = std::collections::HashSet::new();
    let mut subnets = std::collections::HashSet::new();
    for i in 0..10 {
        let (id, subnet) = register(
            &mut table,
            &mut ipam,
            &format!("node-{}", i),
            &format!("192.168.1.{}", i),
            i as i64,
        );
        ids.insert(id);
        subnets.insert(subnet);
    }
    assert_eq!(ids.len(), 10, "Expected 10 unique node IDs");
    assert_eq!(subnets.len(), 10, "Expected 10 unique subnets");
    for i in 1..=10 {
        assert!(subnets.contains(&format!("10.42.{}.0/24", i)));
    }
}

#[test]
fn test_control_plane_restart_preserves_state() {
    let mut table = NodeTable::new();
    let mut ipam = SimpleIPAM::new();
    register(&mut table, &mut ipam, "test-node", "192.168.1.10", 0);
    register(&mut table, &mut ipam, "node-b", "192.168.1.20", 1);

    // Restart: the table is the durable store; the allocator is
    // rehydrated from the highest stored subnet index.
    let max_id = table.get_max_subnet_id();
    assert_eq!(max_id, 2);
    let mut ipam2 = SimpleIPAM::init_from_db(max_id);

    assert_eq!(table.list_nodes().len(), 2, "Node should persist after restart");
    let (_, subnet) = register(&mut table, &mut ipam2, "test-node-2", "192.168.1.11", 2);
    assert_eq!(
        subnet, "10.42.3.0/24",
        "Second node should get a different subnet after restart"
    );
}

#[test]
fn test_agent_graceful_shutdown_deregisters() {
    let mut table = NodeTable::new();
    let mut ipam = SimpleIPAM::new();
    let (node_id, _) = register(&mut table, &mut ipam, "node-a", "192.168.1.10", 0);

    table.deregister(&node_id).unwrap();

    let nodes = table.list_nodes();
    assert_eq!(
        nodes[0].status, "down",
        "Node should be 'down' after graceful shutdown, got '{}'",
        nodes[0].status
    );
}

#[test]
fn test_stale_node_marked_down() {
    // Register at t=0 and stop heartbeating; the sweep at t=31 sees
    // the heartbeat outside the liveness window and flips the row.
    let mut table = NodeTable::new();
    let mut ipam = SimpleIPAM::new();
    register(&mut table, &mut ipam, "node-a", "192.168.1.10", 0);

    let flipped = table.mark_stale_nodes(31);
    assert_eq!(flipped, 1);
    assert_eq!(table.list_nodes()[0].status, "down");
}

#[test]
fn test_heartbeat_keeps_node_up() {
    // Heartbeats delivered with a period shorter than the liveness
    // window keep the node up through every sweep.
    let mut table = NodeTable::new();
    let mut ipam = SimpleIPAM::new();
    let (node_id, _) = register(&mut table, &mut ipam, "node-a", "192.168.1.10", 0);

    let mut now: i64 = 0;
    loop {
        now += 10;
        if now > 120 {
            break;
        }
        table.update_heartbeat(&node_id, now).unwrap();
        let flipped = table.mark_stale_nodes(now + 1);
        assert_eq!(flipped, 0);
        assert_eq!(table.list_nodes()[0].status, "up");
    }
}

#[test]
fn test_heartbeat_revives_down_node() {
    let mut table = NodeTable::new();
    let mut ipam = SimpleIPAM::new();
    let (node_id, _) = register(&mut table, &mut ipam, "node-a", "192.168.1.10", 0);
    table.mark_stale_nodes(T_DOWN_SECS + 1);
    assert_eq!(table.list_nodes()[0].status, "down");
    table.update_heartbeat(&node_id, 40).unwrap();
    assert_eq!(table.list_nodes()[0].status, "up");
    assert_eq!(table.list_nodes()[0].last_heartbeat, 40);
}

#[test]
fn test_heartbeat_unknown_node() {
    let mut table = NodeTable::new();
    assert_eq!(
        table.update_heartbeat("no-such-node", 5).unwrap_err(),
        RegistryError::NotFound
    );
    assert_eq!(table.deregister("no-such-node").unwrap_err(), RegistryError::NotFound);
}

#[test]
fn test_duplicate_subnet_rejected() {
    let mut table = NodeTable::new();
    table
        .register_node(
            "a".to_string(),
            "192.168.1.10".to_string(),
            "10.42.1.0/24".to_string(),
            None,
            None,
            0,
        )
        .unwrap();
    let err = table
        .register_node(
            "b".to_string(),
            "192.168.1.11".to_string(),
            "10.42.1.0/24".to_string(),
            None,
            None,
            1,
        )
        .unwrap_err();
    assert_eq!(err, RegistryError::Conflict);
    assert_eq!(table.list_nodes().len(), 1);
}

#[test]
fn test_max_subnet_id_is_numeric() {
    // "10.42.10.0/24" sorts before "10.42.9.0/24" as text; the
    // rehydration maximum is numeric, not lexicographic.
    let mut table = NodeTable::new();
    for i in [9u8, 10u8] {
        table
            .register_node(
                format!("node-{}", i),
                format!("192.168.1.{}", i),
                format!("10.42.{}.0/24", i),
                None,
                None,
                0,
            )
            .unwrap();
    }
    assert_eq!(table.get_max_subnet_id(), 10);
}
