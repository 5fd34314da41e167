use quilt_mesh::cli::{node_token_key, retry_sleep, should_retry, Config, HttpMethod, RetryDelay};
use quilt_mesh::containers::{create_container_scheduled, ContainerError, ContainerTable};
use quilt_mesh::net::{format_cidr, format_ip, format_subnet, parse_cidr, parse_ip, parse_subnet_id, Cidr, Ipv4};
use quilt_mesh::scheduler::SimpleScheduler;
use quilt_mesh::text::str_eq;
use quilt_mesh::wire::Node;

#[test]
fn test_format_address_texts() {
    assert_eq!(format_ip(Ipv4 { a: 192, b: 168, c: 1, d: 10 }), "192.168.1.10");
    assert_eq!(format_ip(Ipv4 { a: 0, b: 0, c: 0, d: 0 }), "0.0.0.0");
    assert_eq!(format_ip(Ipv4 { a: 255, b: 255, c: 255, d: 255 }), "255.255.255.255");
    assert_eq!(
        format_cidr(Cidr { addr: Ipv4 { a: 10, b: 42, c: 0, d: 0 }, prefix_len: 16 }),
        "10.42.0.0/16"
    );
    assert_eq!(format_subnet(1), "10.42.1.0/24");
    assert_eq!(format_subnet(255), "10.42.255.0/24");
}

#[test]
fn test_parse_ip_round_trip() {
    for ip in [
        Ipv4 { a: 0, b: 0, c: 0, d: 0 },
        Ipv4 { a: 192, b: 168, c: 1, d: 10 },
        Ipv4 { a: 255, b: 255, c: 255, d: 255 },
        Ipv4 { a: 10, b: 42, c: 7, d: 254 },
    ] {
        assert_eq!(parse_ip(&format_ip(ip)), Some(ip));
    }
}

#[test]
fn test_parse_ip_rejects_non_canonical() {
    for bad in [
        "", "1", "1.2", "1.2.3", "1.2.3.4.5", "256.1.1.1", "01.2.3.4", "1.2.3.04",
        "1.2.3.4/24", "a.b.c.d", "1..2.3", ".1.2.3", "1.2.3.", "1.2.3.4 ", " 1.2.3.4",
        "1.2.3.1000",
    ] {
        assert_eq!(parse_ip(bad), None, "accepted {:?}", bad);
    }
}

#[test]
fn test_parse_cidr_exact() {
    assert_eq!(
        parse_cidr("10.42.5.0/24"),
        Some(Cidr { addr: Ipv4 { a: 10, b: 42, c: 5, d: 0 }, prefix_len: 24 })
    );
    assert_eq!(
        parse_cidr("0.0.0.0/0"),
        Some(Cidr { addr: Ipv4 { a: 0, b: 0, c: 0, d: 0 }, prefix_len: 0 })
    );
    for bad in ["10.42.5.0", "10.42.5.0/", "10.42.5.0/33", "10.42.5.0/024", "/24", "10.42.5.0/24/7"] {
        assert_eq!(parse_cidr(bad), None, "accepted {:?}", bad);
    }
}

#[test]
fn test_parse_subnet_id_exact() {
    assert_eq!(parse_subnet_id("10.42.1.0/24"), Some(1));
    assert_eq!(parse_subnet_id("10.42.255.0/24"), Some(255));
    for bad in ["10.42.1.0/16", "10.43.1.0/24", "10.42.1.1/24", "192.168.1.0/24"] {
        assert_eq!(parse_subnet_id(bad), None, "accepted {:?}", bad);
    }
}

#[test]
fn test_str_eq_by_content() {
    assert!(str_eq("abc", "abc"));
    assert!(!str_eq("abc", "abd"));
    assert!(!str_eq("abc", "abcd"));
    assert!(str_eq("", ""));
}

#[test]
fn test_node_token_key_layout() {
    assert_eq!(
        node_token_key("https://example.test", "cluster-1", "node-9"),
        "https://example.test|cluster-1|node-9"
    );
    let cfg = Config::new();
    assert!(cfg.base_url.is_none());
    assert!(cfg.tenant_api_key.is_none());
}

#[test]
fn test_hop_by_hop_headers() {
    for name in [
        "connection", "keep-alive", "proxy-authenticate", "proxy-authorization", "te",
        "trailers", "transfer-encoding", "upgrade", "content-length",
    ] {
        assert!(quilt_mesh::wire::is_hop_by_hop_header(name), "{} should be stripped", name);
    }
    for name in ["content-type", "authorization", "x-request-id", ""] {
        assert!(!quilt_mesh::wire::is_hop_by_hop_header(name), "{} should pass", name);
    }
}

#[test]
fn test_retry_policy() {
    // Rate limiting is always retryable; server errors only for the
    // idempotent read and delete methods.
    assert!(should_retry(HttpMethod::Post, 429));
    assert!(should_retry(HttpMethod::Get, 500));
    assert!(should_retry(HttpMethod::Delete, 503));
    assert!(!should_retry(HttpMethod::Post, 500));
    assert!(!should_retry(HttpMethod::Put, 502));
    assert!(!should_retry(HttpMethod::Get, 404));

    assert_eq!(retry_sleep(429, Some(7), None), RetryDelay { secs: 7, millis: 0 });
    assert_eq!(retry_sleep(429, None, Some(3)), RetryDelay { secs: 3, millis: 0 });
    assert_eq!(retry_sleep(429, None, None), RetryDelay { secs: 1, millis: 0 });
    assert_eq!(retry_sleep(500, Some(7), None), RetryDelay { secs: 0, millis: 300 });
}

fn up_node(id: &str) -> Node {
    Node {
        node_id: id.to_string(),
        hostname: format!("node-{}", id),
        host_ip: "192.168.1.10".to_string(),
        subnet: format!("10.42.{}.0/24", id),
        cpu_cores: None,
        ram_mb: None,
        status: "up".to_string(),
        registered_at: 0,
        last_heartbeat: 0,
    }
}

#[test]
fn test_container_lifecycle() {
    let mut table = ContainerTable::new();
    let id = table
        .create_container(
            "node-1".to_string(),
            "web".to_string(),
            "default".to_string(),
            "nginx:latest".to_string(),
            1000,
        )
        .unwrap();
    assert_eq!(id.len(), 36);

    let c = table.get_container(&id).unwrap();
    assert_eq!(c.name, "web");
    assert_eq!(c.status, "pending");
    assert!(c.ip_address.is_none());

    table.update_container_ip(&id, "10.42.1.2").unwrap();
    table.update_container_status(&id, "running").unwrap();
    let c = table.get_container(&id).unwrap();
    assert_eq!(c.ip_address.as_deref(), Some("10.42.1.2"));
    assert_eq!(c.status, "running");

    let id2 = table
        .create_container(
            "node-1".to_string(),
            "db".to_string(),
            "default".to_string(),
            "postgres:16".to_string(),
            2000,
        )
        .unwrap();
    // Listing is newest first.
    let listed = table.list_containers();
    assert_eq!(listed.len(), 2);
    assert_eq!(listed[0].container_id, id2);
    assert_eq!(listed[1].container_id, id);

    table.delete_container(&id).unwrap();
    assert_eq!(table.len(), 1);
    assert_eq!(table.get_container(&id).unwrap_err(), ContainerError::NotFound);
    assert_eq!(table.delete_container(&id).unwrap_err(), ContainerError::NotFound);
}

#[test]
fn test_scheduled_placement() {
    let mut table = ContainerTable::new();
    let mut scheduler = SimpleScheduler::new();

    // With no live node, placement is refused.
    let mut down = up_node("1");
    down.status = "down".to_string();
    let err = create_container_scheduled(
        &mut table,
        &mut scheduler,
        &vec![down],
        "web".to_string(),
        "default".to_string(),
        "nginx:latest".to_string(),
        0,
    )
    .unwrap_err();
    assert_eq!(err, ContainerError::NoNodesAvailable);

    // Round-robin over the live nodes only.
    let mut down2 = up_node("3");
    down2.status = "down".to_string();
    let nodes = vec![up_node("1"), up_node("2"), down2];
    let r1 = create_container_scheduled(
        &mut table,
        &mut scheduler,
        &nodes,
        "web-1".to_string(),
        "default".to_string(),
        "nginx:latest".to_string(),
        1,
    )
    .unwrap();
    let r2 = create_container_scheduled(
        &mut table,
        &mut scheduler,
        &nodes,
        "web-2".to_string(),
        "default".to_string(),
        "nginx:latest".to_string(),
        2,
    )
    .unwrap();
    assert_eq!(r1.node_id, "1");
    assert_eq!(r2.node_id, "2");
    assert!(r1.ip_address.is_none());
    assert_ne!(r1.container_id, r2.container_id);
    assert_eq!(table.len(), 2);
}
