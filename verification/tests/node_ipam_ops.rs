use quilt_mesh::net::{Cidr, Ipv4};
use quilt_mesh::node_ipam::{IpamManager, NodeIpamError};

#[test]
fn test_configure_subnet() {
    let mut ipam = IpamManager::new();

    // Valid subnet
    assert!(ipam.configure_subnet("10.42.1.0/24").is_ok());

    // Invalid prefix length
    assert!(ipam.configure_subnet("10.42.1.0/16").is_err());

    // Outside cluster CIDR
    assert!(ipam.configure_subnet("192.168.1.0/24").is_err());
}

#[test]
fn test_allocate_ip() {
    let mut ipam = IpamManager::new();

    // Should fail before configuration
    assert!(ipam.allocate_ip().is_err());

    // Configure and allocate
    ipam.configure_subnet("10.42.1.0/24").unwrap();
    let ip1 = ipam.allocate_ip().unwrap();
    let ip2 = ipam.allocate_ip().unwrap();

    // IPs should be different
    assert_ne!(ip1, ip2);

    // IPs should be in range
    let subnet: Cidr = ipam.get_subnet().unwrap();
    for ip in [ip1, ip2] {
        assert_eq!(ip.a, subnet.addr.a);
        assert_eq!(ip.b, subnet.addr.b);
        assert_eq!(ip.c, subnet.addr.c);
        assert!(1 <= ip.d && ip.d <= 254);
    }
}

#[test]
fn test_release_ip() {
    let mut ipam = IpamManager::new();
    ipam.configure_subnet("10.42.1.0/24").unwrap();

    let ip = ipam.allocate_ip().unwrap();
    ipam.release_ip(ip);

    // Should be able to allocate the same IP again
    let ip2 = ipam.allocate_ip().unwrap();
    assert_eq!(ip, ip2);
}

#[test]
fn test_allocation_walks_hosts_in_order() {
    let mut ipam = IpamManager::new();
    ipam.configure_subnet("10.42.7.0/24").unwrap();
    let first = ipam.allocate_ip().unwrap();
    assert_eq!(first, Ipv4 { a: 10, b: 42, c: 7, d: 1 });
    let second = ipam.allocate_ip().unwrap();
    assert_eq!(second, Ipv4 { a: 10, b: 42, c: 7, d: 2 });
    // Releasing the first makes it the next pick again.
    ipam.release_ip(first);
    assert_eq!(ipam.allocate_ip().unwrap(), first);
    assert!(ipam.is_allocated(first));
    assert!(ipam.is_allocated(second));
}

#[test]
fn test_node_ipam_pool_exhaustion() {
    let mut ipam = IpamManager::new();
    ipam.configure_subnet("10.42.1.0/24").unwrap();
    for d in 1..=254u16 {
        let ip = ipam.allocate_ip().unwrap();
        assert_eq!(ip.d as u16, d);
    }
    assert_eq!(ipam.allocate_ip().unwrap_err(), NodeIpamError::PoolExhausted);
}

#[test]
fn test_reconfigure_clears_allocations() {
    let mut ipam = IpamManager::new();
    ipam.configure_subnet("10.42.1.0/24").unwrap();
    let ip = ipam.allocate_ip().unwrap();
    assert!(ipam.is_allocated(ip));
    ipam.configure_subnet("10.42.2.0/24").unwrap();
    assert!(!ipam.is_allocated(ip));
    assert_eq!(ipam.allocate_ip().unwrap(), Ipv4 { a: 10, b: 42, c: 2, d: 1 });
}

#[test]
fn test_configure_error_kinds() {
    let mut ipam = IpamManager::new();
    assert_eq!(
        ipam.configure_subnet("not-a-subnet").unwrap_err(),
        NodeIpamError::InvalidCidr
    );
    assert_eq!(
        ipam.configure_subnet("10.42.1.0/16").unwrap_err(),
        NodeIpamError::WrongPrefix
    );
    assert_eq!(
        ipam.configure_subnet("11.42.1.0/24").unwrap_err(),
        NodeIpamError::OutsideClusterCidr
    );
    assert_eq!(ipam.allocate_ip().unwrap_err(), NodeIpamError::NotConfigured);
}
