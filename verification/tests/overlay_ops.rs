use quilt_mesh::agent::AgentReconciler;
use quilt_mesh::ipam::SimpleIPAM;
use quilt_mesh::net::Ipv4;
use quilt_mesh::node_ipam::IpamManager;
use quilt_mesh::overlay::{setup_vxlan_plan, SetupAction, VxlanManager, VXLAN_PORT, VXLAN_VNI};
use quilt_mesh::registry::NodeTable;
use quilt_mesh::routes::{RouteError, RouteManager, RouteOutcome};
use quilt_mesh::service::QuiltRuntimeService;

fn register(
    table: &mut NodeTable,
    ipam: &mut SimpleIPAM,
    hostname: &str,
    host_ip: &str,
    now: i64,
) -> (String, String) {
    let subnet = ipam.allocate_subnet().unwrap();
    let node_id = table
        .register_node(
            hostname.to_string(),
            host_ip.to_string(),
            subnet.clone(),
            None,
            None,
            now,
        )
        .unwrap();
    (node_id, subnet)
}

#[test]
fn test_idempotent_route_ops() {
    let mut rm = RouteManager::new();
    assert_eq!(rm.add_route("10.42.5.0/24", "vxlan100").unwrap(), RouteOutcome::Installed);
    assert_eq!(rm.add_route("10.42.5.0/24", "vxlan100").unwrap(), RouteOutcome::AlreadyPresent);
    assert_eq!(rm.route_count(), 1);
    assert_eq!(rm.route_interface("10.42.5.0/24").unwrap(), "vxlan100");
    assert!(rm.remove_route("10.42.5.0/24").is_ok());
    assert!(rm.remove_route("10.42.5.0/24").is_ok());
    assert_eq!(rm.route_count(), 0);
    assert!(rm.route_interface("10.42.5.0/24").is_none());
}

#[test]
fn test_route_invalid_destination() {
    let mut rm = RouteManager::new();
    assert_eq!(
        rm.add_route("vxlan100", "10.42.5.0/24").unwrap_err(),
        RouteError::InvalidDestination
    );
    assert_eq!(rm.remove_route("junk").unwrap_err(), RouteError::InvalidDestination);
    assert_eq!(rm.route_count(), 0);
}

#[test]
fn test_route_conflicting_interface() {
    let mut rm = RouteManager::new();
    rm.add_route("10.42.5.0/24", "vxlan100").unwrap();
    assert_eq!(
        rm.add_route("10.42.5.0/24", "eth0").unwrap(),
        RouteOutcome::ReplacedInterface
    );
    assert_eq!(rm.route_interface("10.42.5.0/24").unwrap(), "eth0");
    assert_eq!(rm.route_count(), 1);
}

#[test]
fn test_route_cleanup_all() {
    let mut rm = RouteManager::new();
    rm.add_route("10.42.2.0/24", "vxlan100").unwrap();
    rm.add_route("10.42.3.0/24", "vxlan100").unwrap();
    assert_eq!(rm.route_count(), 2);
    let listed = rm.get_routes();
    assert_eq!(listed.len(), 2);
    rm.cleanup_all_routes();
    assert_eq!(rm.route_count(), 0);
}

#[test]
fn test_vxlan_constants() {
    assert_eq!(VXLAN_VNI, 100);
    assert_eq!(VXLAN_PORT, 4789);
    assert_eq!(quilt_mesh::overlay::vxlan_interface(), "vxlan100");
    assert_eq!(quilt_mesh::overlay::bridge_interface(), "quilt0");
}

#[test]
fn test_setup_plan() {
    assert!(setup_vxlan_plan(true, true).is_empty());
    assert!(setup_vxlan_plan(true, false).is_empty());
    assert_eq!(
        setup_vxlan_plan(false, true),
        vec![SetupAction::CreateVxlan, SetupAction::LinkUp, SetupAction::AttachBridge]
    );
    assert_eq!(
        setup_vxlan_plan(false, false),
        vec![SetupAction::CreateVxlan, SetupAction::LinkUp]
    );
}

#[test]
fn test_vxlan_peer_table() {
    let mut vx = VxlanManager::new(Ipv4 { a: 192, b: 168, c: 1, d: 10 });
    vx.add_peer("10.42.2.0/24".to_string(), Ipv4 { a: 192, b: 168, c: 1, d: 11 });
    assert_eq!(vx.peer_count(), 1);
    assert_eq!(vx.peer_ip("10.42.2.0/24").unwrap(), Ipv4 { a: 192, b: 168, c: 1, d: 11 });
    let removed = vx.remove_peer("10.42.2.0/24");
    assert_eq!(removed, Some(Ipv4 { a: 192, b: 168, c: 1, d: 11 }));
    assert_eq!(vx.peer_count(), 0);
    assert_eq!(vx.remove_peer("10.42.2.0/24"), None);
}

/// Fresh cluster, two nodes: after registration each agent sees the
/// other as its one peer and programs one FDB entry and one route.
#[test]
fn test_fresh_cluster_two_nodes() {
    let mut table = NodeTable::new();
    let mut ipam = SimpleIPAM::new();
    let (id_a, subnet_a) = register(&mut table, &mut ipam, "node-a", "192.168.1.10", 0);
    let (id_b, subnet_b) = register(&mut table, &mut ipam, "node-b", "192.168.1.11", 1);
    assert_eq!(subnet_a, "10.42.1.0/24");
    assert_eq!(subnet_b, "10.42.2.0/24");

    let nodes = table.list_nodes();
    assert_eq!(nodes.len(), 2);
    assert!(nodes.iter().all(|n| n.status == "up"));

    // Agent on node A reconciles.
    let mut agent_a = AgentReconciler::new(id_a.clone(), subnet_a.clone());
    let mut vx_a = VxlanManager::new(Ipv4 { a: 192, b: 168, c: 1, d: 10 });
    let mut rt_a = RouteManager::new();
    agent_a.sync_tick(&nodes, &mut vx_a, &mut rt_a);
    assert_eq!(agent_a.known_peer_count(), 1);
    assert!(agent_a.knows_peer(&subnet_b));
    assert_eq!(vx_a.peer_ip(&subnet_b).unwrap(), Ipv4 { a: 192, b: 168, c: 1, d: 11 });
    assert_eq!(rt_a.route_interface(&subnet_b).unwrap(), "vxlan100");
    assert_eq!(rt_a.route_count(), 1);

    // Agent on node B reconciles.
    let mut agent_b = AgentReconciler::new(id_b, subnet_b);
    let mut vx_b = VxlanManager::new(Ipv4 { a: 192, b: 168, c: 1, d: 11 });
    let mut rt_b = RouteManager::new();
    agent_b.sync_tick(&nodes, &mut vx_b, &mut rt_b);
    assert!(agent_b.knows_peer(&subnet_a));
    assert_eq!(vx_b.peer_ip(&subnet_a).unwrap(), Ipv4 { a: 192, b: 168, c: 1, d: 10 });
}

/// Peer discovery: a node registered later shows up at the next tick.
#[test]
fn test_peer_discovery_after_new_node() {
    let mut table = NodeTable::new();
    let mut ipam = SimpleIPAM::new();
    let (id_a, subnet_a) = register(&mut table, &mut ipam, "node-a", "192.168.1.10", 0);

    let mut agent_a = AgentReconciler::new(id_a, subnet_a);
    let mut vx_a = VxlanManager::new(Ipv4 { a: 192, b: 168, c: 1, d: 10 });
    let mut rt_a = RouteManager::new();
    agent_a.sync_tick(&table.list_nodes(), &mut vx_a, &mut rt_a);
    assert_eq!(agent_a.known_peer_count(), 0);

    let (_, subnet_b) = register(&mut table, &mut ipam, "node-b", "192.168.1.11", 5);
    agent_a.sync_tick(&table.list_nodes(), &mut vx_a, &mut rt_a);
    assert_eq!(agent_a.known_peer_count(), 1);
    assert!(agent_a.knows_peer(&subnet_b));
    assert_eq!(rt_a.route_interface(&subnet_b).unwrap(), "vxlan100");
}

/// Graceful shutdown removes the peer promptly: after the peer
/// deregisters, one tick drops it from the known set and both tables.
#[test]
fn test_deregistered_peer_removed_within_one_tick() {
    let mut table = NodeTable::new();
    let mut ipam = SimpleIPAM::new();
    let (id_a, subnet_a) = register(&mut table, &mut ipam, "node-a", "192.168.1.10", 0);
    let (id_b, subnet_b) = register(&mut table, &mut ipam, "node-b", "192.168.1.11", 1);

    let mut agent_b = AgentReconciler::new(id_b, subnet_b);
    let mut vx_b = VxlanManager::new(Ipv4 { a: 192, b: 168, c: 1, d: 11 });
    let mut rt_b = RouteManager::new();
    agent_b.sync_tick(&table.list_nodes(), &mut vx_b, &mut rt_b);
    assert!(agent_b.knows_peer(&subnet_a));

    table.deregister(&id_a).unwrap();
    agent_b.sync_tick(&table.list_nodes(), &mut vx_b, &mut rt_b);
    assert!(!agent_b.knows_peer(&subnet_a));
    assert!(vx_b.peer_ip(&subnet_a).is_none());
    assert!(rt_b.route_interface(&subnet_a).is_none());
    assert_eq!(rt_b.route_count(), 0);
}

/// A node swept to the down status disappears from peers the same way.
#[test]
fn test_swept_peer_removed() {
    let mut table = NodeTable::new();
    let mut ipam = SimpleIPAM::new();
    let (_, subnet_a) = register(&mut table, &mut ipam, "node-a", "192.168.1.10", 0);
    let (id_b, subnet_b) = register(&mut table, &mut ipam, "node-b", "192.168.1.11", 0);

    let mut agent_b = AgentReconciler::new(id_b.clone(), subnet_b);
    let mut vx_b = VxlanManager::new(Ipv4 { a: 192, b: 168, c: 1, d: 11 });
    let mut rt_b = RouteManager::new();
    agent_b.sync_tick(&table.list_nodes(), &mut vx_b, &mut rt_b);
    assert!(agent_b.knows_peer(&subnet_a));

    // B keeps heartbeating, A goes silent; the sweep flips A only.
    table.update_heartbeat(&id_b, 25).unwrap();
    table.mark_stale_nodes(31);
    agent_b.sync_tick(&table.list_nodes(), &mut vx_b, &mut rt_b);
    assert!(!agent_b.knows_peer(&subnet_a));
    assert!(vx_b.peer_ip(&subnet_a).is_none());
}

/// A peer whose address text does not parse is recorded as known but
/// gets no FDB entry and no route.
#[test]
fn test_unparseable_peer_address_skipped() {
    let mut table = NodeTable::new();
    table
        .register_node(
            "node-weird".to_string(),
            "not-an-address".to_string(),
            "10.42.9.0/24".to_string(),
            None,
            None,
            0,
        )
        .unwrap();
    let mut agent = AgentReconciler::new("self-id".to_string(), "10.42.1.0/24".to_string());
    let mut vx = VxlanManager::new(Ipv4 { a: 192, b: 168, c: 1, d: 10 });
    let mut rt = RouteManager::new();
    agent.sync_tick(&table.list_nodes(), &mut vx, &mut rt);
    assert!(agent.knows_peer("10.42.9.0/24"));
    assert!(vx.peer_ip("10.42.9.0/24").is_none());
    assert!(rt.route_interface("10.42.9.0/24").is_none());
}

#[test]
fn test_agent_shutdown_cleanup() {
    let mut table = NodeTable::new();
    let mut ipam = SimpleIPAM::new();
    register(&mut table, &mut ipam, "node-a", "192.168.1.10", 0);
    register(&mut table, &mut ipam, "node-b", "192.168.1.11", 0);

    let mut agent = AgentReconciler::new("self-id".to_string(), "10.42.99.0/24".to_string());
    let mut vx = VxlanManager::new(Ipv4 { a: 192, b: 168, c: 1, d: 12 });
    let mut rt = RouteManager::new();
    agent.sync_tick(&table.list_nodes(), &mut vx, &mut rt);
    assert_eq!(agent.known_peer_count(), 2);
    assert_eq!(vx.peer_count(), 2);
    assert_eq!(rt.route_count(), 2);

    agent.shutdown_cleanup(&mut vx, &mut rt);
    assert_eq!(agent.known_peer_count(), 0);
    assert_eq!(vx.peer_count(), 0);
    assert_eq!(rt.route_count(), 0);
}

#[test]
fn test_runtime_service_rpcs() {
    let mut svc = QuiltRuntimeService::new(IpamManager::new(), RouteManager::new());

    let r = svc.configure_node_subnet("10.42.1.0/24");
    assert!(r.success);
    assert!(r.error.is_empty());

    let r = svc.configure_node_subnet("192.168.1.0/24");
    assert!(!r.success);
    assert!(!r.error.is_empty());

    let r = svc.inject_route("10.42.5.0/24", "vxlan100");
    assert!(r.success, "inject_route failed: {}", r.error);
    let r = svc.inject_route("10.42.5.0/24", "vxlan100");
    assert!(r.success);
    assert_eq!(svc.route_count(), 1);

    let r = svc.remove_route("10.42.5.0/24");
    assert!(r.success);
    let r = svc.remove_route("10.42.5.0/24");
    assert!(r.success);
    assert_eq!(svc.route_count(), 0);

    let r = svc.inject_route("garbage", "vxlan100");
    assert!(!r.success);
    assert!(!r.error.is_empty());

    let ip = svc.allocate_ip().unwrap();
    assert_eq!(ip, Ipv4 { a: 10, b: 42, c: 1, d: 1 });
    svc.release_ip(ip);
}
