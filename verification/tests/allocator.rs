use quilt_mesh::ipam::{IpamError, SimpleIPAM};
use quilt_mesh::scheduler::SimpleScheduler;
use quilt_mesh::wire::Node;

fn create_test_node(id: &str) -> Node {
    Node {
        node_id: id.to_string(),
        hostname: format!("node-{}", id),
        host_ip: format!("192.168.1.{}", id),
        subnet: format!("10.42.{}.0/24", id),
        cpu_cores: Some(4),
        ram_mb: Some(8192),
        status: "up".to_string(),
        registered_at: 0,
        last_heartbeat: 0,
    }
}

#[test]
fn test_sequential_allocation() {
    let mut ipam = SimpleIPAM::new();

    assert_eq!(ipam.allocate_subnet().unwrap(), "10.42.1.0/24");
    assert_eq!(ipam.allocate_subnet().unwrap(), "10.42.2.0/24");
    assert_eq!(ipam.allocate_subnet().unwrap(), "10.42.3.0/24");
}

#[test]
fn test_init_from_db() {
    let mut ipam = SimpleIPAM::init_from_db(10);
    assert_eq!(ipam.allocate_subnet().unwrap(), "10.42.11.0/24");
}

#[test]
fn test_pool_exhaustion_after_255() {
    let mut ipam = SimpleIPAM::new();
    let mut seen = std::collections::HashSet::new();
    for i in 1..=255u32 {
        let s = ipam.allocate_subnet().unwrap();
        assert!(s.starts_with("10.42."), "unexpected subnet {}", s);
        assert!(s.ends_with(".0/24"), "unexpected subnet {}", s);
        assert!(seen.insert(s), "duplicate subnet at allocation {}", i);
    }
    assert_eq!(seen.len(), 255);
    assert_eq!(ipam.allocate_subnet().unwrap_err(), IpamError::PoolExhausted);
    assert_eq!(ipam.allocate_subnet().unwrap_err(), IpamError::PoolExhausted);
}

#[test]
fn test_init_from_db_at_cap() {
    let mut ipam = SimpleIPAM::init_from_db(255);
    assert!(ipam.allocate_subnet().is_err());
}

#[test]
fn test_round_robin() {
    let mut scheduler = SimpleScheduler::new();
    let nodes = vec![
        create_test_node("1"),
        create_test_node("2"),
        create_test_node("3"),
    ];

    // Should cycle through nodes
    assert_eq!(scheduler.pick_node(&nodes).unwrap().node_id, "1");
    assert_eq!(scheduler.pick_node(&nodes).unwrap().node_id, "2");
    assert_eq!(scheduler.pick_node(&nodes).unwrap().node_id, "3");
    assert_eq!(scheduler.pick_node(&nodes).unwrap().node_id, "1");
}

#[test]
fn test_empty_nodes() {
    let mut scheduler = SimpleScheduler::new();
    assert!(scheduler.pick_node(&[]).is_none());
}
