//! Data-plane service facade.
//!
//! The runtime exposes three unary operations to the agent: configure
//! the node's subnet, inject a route, remove a route. Each response
//! carries `{success, error}`: validation failures come back as
//! `success = false` with a human-readable text, never as a crash.
//! The transport that carries these calls lives outside the library.

use vstd::prelude::*;
use crate::net::cidr_of_text;
use crate::node_ipam::{IpamManager, NodeIpamError};
use crate::routes::{is_cidr_text, RouteManager};
use vstd::string::StringExecFns;

verus! {

/// Outcome of one data-plane operation.
#[derive(Debug)]
pub struct RpcResponse {
    pub success: bool,
    pub error: String,
}

/// The data-plane manager: container IPAM plus route tracking.
pub struct QuiltRuntimeService {
    ipam: IpamManager,
    route_manager: RouteManager,
}

impl QuiltRuntimeService {
    pub closed spec fn ipam_spec(self) -> IpamManager {
        self.ipam
    }

    pub closed spec fn routes_view(self) -> Map<Seq<char>, Seq<char>> {
        self.route_manager.view()
    }

    pub open spec fn wf(self) -> bool {
        self.ipam_spec().wf() && self.routes_wf()
    }

    pub closed spec fn routes_wf(self) -> bool {
        self.route_manager.wf()
    }

    pub fn new(ipam: IpamManager, route_manager: RouteManager) -> (r: Self)
        ensures
            r.ipam_spec() == ipam,
            r.routes_view() == route_manager.view(),
            ipam.wf() && route_manager.wf() ==> r.wf(),
    {
        QuiltRuntimeService { ipam, route_manager }
    }

    /// Configures the node's /24 for container allocation: accepted
    /// exactly when the text names a /24 inside the cluster CIDR, and
    /// then the allocation set starts empty.
    pub fn configure_node_subnet(&mut self, subnet: &str) -> (r: RpcResponse)
        requires
            old(self).wf(),
        ensures
            final(self).wf(),
            final(self).routes_view() == old(self).routes_view(),
            match cidr_of_text(subnet@) {
                None => !r.success && *final(self) == *old(self),
                Some(c) => {
                    if c.prefix_len != 24 || !(c.addr.a == 10 && c.addr.b == 42) {
                        !r.success && *final(self) == *old(self)
                    } else {
                        &&& r.success
                        &&& final(self).ipam_spec().subnet_spec() matches Some(s) && s.addr.c
                            == c.addr.c
                        &&& final(self).ipam_spec().allocated_set() == Set::<
                            crate::net::Ipv4,
                        >::empty()
                    }
                },
            },
            r.success <==> r.error@.len() == 0,
    {
        match self.ipam.configure_subnet(subnet) {
            Ok(()) => RpcResponse { success: true, error: String::new() },
            Err(e) => {
                let msg = String::from_str(e.message());
                RpcResponse { success: false, error: msg }
            },
        }
    }

    /// Installs a route for a remote subnet via an interface,
    /// idempotently: accepted exactly when the destination is CIDR
    /// text.
    pub fn inject_route(&mut self, destination: &str, via_interface: &str) -> (r: RpcResponse)
        requires
            old(self).wf(),
        ensures
            final(self).wf(),
            final(self).ipam_spec() == old(self).ipam_spec(),
            r.success == is_cidr_text(destination@),
            r.success ==> final(self).routes_view() == old(self).routes_view().insert(
                destination@,
                via_interface@,
            ),
            !r.success ==> final(self).routes_view() == old(self).routes_view(),
            r.success <==> r.error@.len() == 0,
    {
        match self.route_manager.add_route(destination, via_interface) {
            Ok(_) => RpcResponse { success: true, error: String::new() },
            Err(e) => {
                let msg = String::from_str(e.message());
                RpcResponse { success: false, error: msg }
            },
        }
    }

    /// Removes the route for a remote subnet, idempotently: accepted
    /// exactly when the destination is CIDR text, whether or not a
    /// route was present.
    pub fn remove_route(&mut self, destination: &str) -> (r: RpcResponse)
        requires
            old(self).wf(),
        ensures
            final(self).wf(),
            final(self).ipam_spec() == old(self).ipam_spec(),
            r.success == is_cidr_text(destination@),
            r.success ==> final(self).routes_view() == old(self).routes_view().remove(
                destination@,
            ),
            !r.success ==> final(self).routes_view() == old(self).routes_view(),
            r.success <==> r.error@.len() == 0,
    {
        match self.route_manager.remove_route(destination) {
            Ok(()) => RpcResponse { success: true, error: String::new() },
            Err(e) => {
                let msg = String::from_str(e.message());
                RpcResponse { success: false, error: msg }
            },
        }
    }

    /// Allocates a container address from the configured subnet.
    pub fn allocate_ip(&mut self) -> (r: Result<crate::net::Ipv4, NodeIpamError>)
        requires
            old(self).wf(),
        ensures
            final(self).wf(),
            final(self).routes_view() == old(self).routes_view(),
            ({
                let pre = old(self).ipam_spec();
                let post = final(self).ipam_spec();
                &&& post.subnet_spec() == pre.subnet_spec()
                &&& match r {
                    Ok(ip) => {
                        &&& pre.subnet_spec() matches Some(c) && crate::node_ipam::host_of(c, ip)
                        &&& !pre.allocated_set().contains(ip)
                        &&& post.allocated_set() == pre.allocated_set().insert(ip)
                    },
                    Err(NodeIpamError::NotConfigured) => pre.subnet_spec() is None && post == pre,
                    Err(NodeIpamError::PoolExhausted) => post == pre,
                    Err(_) => false,
                }
            }),
    {
        self.ipam.allocate_ip()
    }

    /// Releases a container address back to the pool.
    pub fn release_ip(&mut self, ip: crate::net::Ipv4)
        requires
            old(self).wf(),
        ensures
            final(self).wf(),
            final(self).routes_view() == old(self).routes_view(),
            final(self).ipam_spec().subnet_spec() == old(self).ipam_spec().subnet_spec(),
            final(self).ipam_spec().allocated_set() == old(
                self,
            ).ipam_spec().allocated_set().remove(ip),
    {
        self.ipam.release_ip(ip)
    }

    /// The interface recorded for a destination, if any.
    pub fn route_interface(&self, destination: &str) -> (r: Option<&String>)
        requires
            self.wf(),
        ensures
            match r {
                Some(v) => self.routes_view().contains_key(destination@) && v@
                    == self.routes_view().index(destination@),
                None => !self.routes_view().contains_key(destination@),
            },
    {
        self.route_manager.route_interface(destination)
    }

    /// Number of tracked routes.
    pub fn route_count(&self) -> (r: usize)
        requires
            self.wf(),
        ensures
            self.routes_view().dom().finite(),
            r == self.routes_view().dom().len(),
    {
        self.route_manager.route_count()
    }

    /// Shutdown path: drops every tracked route.
    pub fn cleanup_all_routes(&mut self)
        requires
            old(self).wf(),
        ensures
            final(self).wf(),
            final(self).ipam_spec() == old(self).ipam_spec(),
            final(self).routes_view() == Map::<Seq<char>, Seq<char>>::empty(),
    {
        self.route_manager.cleanup_all_routes()
    }
}

} // verus!
