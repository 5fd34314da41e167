//! Verified core of a small cluster overlay controller.
//!
//! The crate models the three subsystems that keep a VXLAN overlay
//! consistent with cluster membership: the control-plane registry
//! (membership, /24 subnet allocation, liveness sweeping), the per-node
//! agent reconciler (peer diffing and overlay convergence), and the
//! data-plane manager (route table, FDB peer table, container IPAM).
//! Network transports and the kernel itself live outside this crate;
//! the logic that decides what they are told is verified here.

pub mod agent;
pub mod cli;
pub mod containers;
pub mod ids;
pub mod ipam;
pub mod net;
pub mod node_ipam;
pub mod overlay;
pub mod registry;
pub mod routes;
pub mod scheduler;
pub mod service;
pub mod strmap;
pub mod text;
pub mod wire;
