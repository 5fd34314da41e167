//! Shared data model and wire types.
//!
//! JSON payloads use snake_case field names; timestamps are Unix seconds
//! as 64-bit signed integers; subnets are CIDR text; addresses are
//! dotted-quad text; `status` is `"up"` or `"down"`. The types here are
//! plain values; encoding to and from JSON happens outside the library.

use vstd::prelude::*;
use crate::text::str_eq;

verus! {

/// Registration request: what a node reports about itself.
#[derive(Debug)]
pub struct RegisterNodeRequest {
    pub hostname: String,
    pub host_ip: String,
    pub cpu_cores: Option<u32>,
    pub ram_mb: Option<u64>,
}

/// Registration response: the identity and subnet the registry assigned.
#[derive(Debug)]
pub struct RegisterNodeResponse {
    pub node_id: String,
    pub subnet: String,
}

/// Authoritative node record at the registry.
#[derive(Debug)]
pub struct Node {
    pub node_id: String,
    pub hostname: String,
    pub host_ip: String,
    pub subnet: String,
    pub cpu_cores: Option<u32>,
    pub ram_mb: Option<u64>,
    pub status: String,
    pub registered_at: i64,
    pub last_heartbeat: i64,
}

/// Response of the node listing: all records in insertion order.
#[derive(Debug)]
pub struct ListNodesResponse {
    pub nodes: Vec<Node>,
}

/// The agent's view of another node.
#[derive(Debug)]
pub struct PeerInfo {
    pub node_id: String,
    pub host_ip: String,
    pub subnet: String,
}

/// Paths of the PEM files a client needs for TLS.
#[derive(Debug)]
pub struct TlsConfig {
    pub ca_cert: String,
    pub client_cert: Option<String>,
    pub client_key: Option<String>,
}

/// Container creation request.
#[derive(Debug)]
pub struct CreateContainerRequest {
    pub namespace: Option<String>,
    pub name: String,
    pub image: String,
    pub command: Option<Vec<String>>,
    pub env: Option<Vec<EnvVar>>,
}

/// One environment variable of a container.
#[derive(Debug)]
pub struct EnvVar {
    pub name: String,
    pub value: String,
}

/// Container creation response: where the container was scheduled.
#[derive(Debug)]
pub struct CreateContainerResponse {
    pub container_id: String,
    pub node_id: String,
    pub ip_address: Option<String>,
}

/// Container record at the registry.
#[derive(Debug)]
pub struct Container {
    pub container_id: String,
    pub node_id: String,
    pub name: String,
    pub namespace: String,
    pub image: String,
    pub ip_address: Option<String>,
    pub created_at: i64,
    pub status: String,
}

/// Response of the container listing.
#[derive(Debug)]
pub struct ListContainersResponse {
    pub containers: Vec<Container>,
}

/// Health check response.
#[derive(Debug)]
pub struct HealthResponse {
    pub status: String,
}

/// How a tenant authenticates against the control plane.
#[derive(Clone, Debug)]
pub enum TenantAuth {
    Jwt(String),
    ApiKey(String),
}

/// How the control plane authenticates against an upstream service.
#[derive(Clone, Debug)]
pub enum QuiltAuth {
    ApiKey(String),
    BearerToken(String),
}

// ------------------------------------------------------------------
// Node status text
// ------------------------------------------------------------------

/// Text of the live status.
pub open spec fn up_text() -> Seq<char> {
    "up"@
}

/// Text of the down status.
pub open spec fn down_text() -> Seq<char> {
    "down"@
}

pub proof fn lemma_up_ne_down()
    ensures
        up_text() != down_text(),
{
    reveal_strlit("up");
    reveal_strlit("down");
    assert(up_text().len() == 2);
    assert(down_text().len() == 4);
}

/// The live status literal.
pub fn up_str() -> (r: &'static str)
    ensures
        r@ == up_text(),
{
    "up"
}

/// The down status literal.
pub fn down_str() -> (r: &'static str)
    ensures
        r@ == down_text(),
{
    "down"
}

/// Whether a node record reports the live status.
pub open spec fn node_up(n: Node) -> bool {
    n.status@ == up_text()
}

/// Checks the status field of a record.
pub fn node_is_up(n: &Node) -> (r: bool)
    ensures
        r == node_up(*n),
{
    str_eq(n.status.as_str(), "up")
}

/// Whether a header, by its lowercase name, is hop-by-hop and must
/// not be forwarded by a proxy; the content-length header is treated
/// the same because streaming bodies may change framing.
pub open spec fn hop_by_hop(name: Seq<char>) -> bool {
    ||| name == "connection"@
    ||| name == "keep-alive"@
    ||| name == "proxy-authenticate"@
    ||| name == "proxy-authorization"@
    ||| name == "te"@
    ||| name == "trailers"@
    ||| name == "transfer-encoding"@
    ||| name == "upgrade"@
    ||| name == "content-length"@
}

/// Checks a lowercase header name against the hop-by-hop set.
pub fn is_hop_by_hop_header(name: &str) -> (r: bool)
    ensures
        r == hop_by_hop(name@),
{
    str_eq(name, "connection") || str_eq(name, "keep-alive") || str_eq(name, "proxy-authenticate")
        || str_eq(name, "proxy-authorization") || str_eq(name, "te") || str_eq(name, "trailers")
        || str_eq(name, "transfer-encoding") || str_eq(name, "upgrade") || str_eq(
        name,
        "content-length",
    )
}

/// Field-preserving copy of a node record.
pub fn clone_node(n: &Node) -> (r: Node)
    ensures
        r == *n,
{
    Node {
        node_id: n.node_id.clone(),
        hostname: n.hostname.clone(),
        host_ip: n.host_ip.clone(),
        subnet: n.subnet.clone(),
        cpu_cores: n.cpu_cores,
        ram_mb: n.ram_mb,
        status: n.status.clone(),
        registered_at: n.registered_at,
        last_heartbeat: n.last_heartbeat,
    }
}

/// Field-preserving copy of a container record.
pub fn clone_container(c: &Container) -> (r: Container)
    ensures
        r == *c,
{
    Container {
        container_id: c.container_id.clone(),
        node_id: c.node_id.clone(),
        name: c.name.clone(),
        namespace: c.namespace.clone(),
        image: c.image.clone(),
        ip_address: clone_opt_string(&c.ip_address),
        created_at: c.created_at,
        status: c.status.clone(),
    }
}

/// Field-preserving copy of an optional string.
pub fn clone_opt_string(s: &Option<String>) -> (r: Option<String>)
    ensures
        r == *s,
{
    match s {
        Some(v) => Some(v.clone()),
        None => None,
    }
}

} // verus!
