//! VXLAN peer table.
//!
//! One VXLAN interface per node carries the overlay: `vxlan100`, VNI
//! 100, UDP port 4789, attached to the bridge `quilt0` when present.
//! For each remote peer a single default FDB entry maps the all-zeros
//! MAC to the peer's underlay address, giving head-end replication.
//! The netlink calls live outside the library; this table records, per
//! peer subnet, which underlay address the FDB points at.

use vstd::prelude::*;
use crate::net::Ipv4;
use crate::strmap::StrMap;

verus! {

/// Name of the overlay interface.
pub open spec fn vxlan_if_text() -> Seq<char> {
    "vxlan100"@
}

/// Name of the bridge the interface joins when present.
pub open spec fn bridge_if_text() -> Seq<char> {
    "quilt0"@
}

/// The overlay interface name.
pub fn vxlan_interface() -> (r: &'static str)
    ensures
        r@ == vxlan_if_text(),
{
    "vxlan100"
}

/// The bridge name.
pub fn bridge_interface() -> (r: &'static str)
    ensures
        r@ == bridge_if_text(),
{
    "quilt0"
}

/// Virtual network identifier of the overlay.
pub const VXLAN_VNI: u32 = 100;

/// UDP destination port of the overlay.
pub const VXLAN_PORT: u16 = 4789;

/// One step of the interface setup.
#[derive(Clone, Copy, PartialEq, Eq, Structural, Debug)]
pub enum SetupAction {
    /// Create the VXLAN interface with the overlay's VNI and port.
    CreateVxlan,
    /// Bring the interface up.
    LinkUp,
    /// Attach the interface to the bridge as a member.
    AttachBridge,
}

/// Decides the interface setup: an existing interface is left alone;
/// otherwise it is created and brought up, and joined to the bridge
/// exactly when the bridge exists. The caller reports what exists and
/// performs the returned steps in order.
pub fn setup_vxlan_plan(interface_exists: bool, bridge_exists: bool) -> (r: Vec<SetupAction>)
    ensures
        interface_exists ==> r@ == Seq::<SetupAction>::empty(),
        !interface_exists && bridge_exists ==> r@ == (seq![
            SetupAction::CreateVxlan,
            SetupAction::LinkUp,
            SetupAction::AttachBridge,
        ]),
        !interface_exists && !bridge_exists ==> r@ == (seq![
            SetupAction::CreateVxlan,
            SetupAction::LinkUp,
        ]),
{
    let mut plan: Vec<SetupAction> = Vec::new();
    if interface_exists {
        proof {
            assert(plan@ =~= Seq::<SetupAction>::empty());
        }
        return plan;
    }
    plan.push(SetupAction::CreateVxlan);
    plan.push(SetupAction::LinkUp);
    if bridge_exists {
        plan.push(SetupAction::AttachBridge);
        proof {
            assert(plan@ =~= seq![
                SetupAction::CreateVxlan,
                SetupAction::LinkUp,
                SetupAction::AttachBridge,
            ]);
        }
    } else {
        proof {
            assert(plan@ =~= seq![SetupAction::CreateVxlan, SetupAction::LinkUp]);
        }
    }
    plan
}

/// Per-node table of overlay peers: subnet text to underlay address.
pub struct VxlanManager {
    local_ip: Ipv4,
    peers: StrMap<Ipv4>,
}

impl VxlanManager {
    /// Peer subnet to the underlay address its FDB entry points at.
    pub closed spec fn view(self) -> Map<Seq<char>, Ipv4> {
        self.peers@
    }

    pub closed spec fn wf(self) -> bool {
        self.peers.wf()
    }

    /// The node's own underlay address.
    pub closed spec fn local(self) -> Ipv4 {
        self.local_ip
    }

    pub fn new(local_ip: Ipv4) -> (r: Self)
        ensures
            r.wf(),
            r.view() == Map::<Seq<char>, Ipv4>::empty(),
            r.local() == local_ip,
    {
        VxlanManager { local_ip, peers: StrMap::new() }
    }

    /// Records a peer: its FDB entry maps the all-zeros MAC to
    /// `peer_host_ip` on the overlay interface.
    pub fn add_peer(&mut self, subnet: String, peer_host_ip: Ipv4)
        requires
            old(self).wf(),
        ensures
            final(self).wf(),
            final(self).view() == old(self).view().insert(subnet@, peer_host_ip),
            final(self).local() == old(self).local(),
    {
        self.peers.insert(subnet, peer_host_ip);
    }

    /// Drops a peer, handing back the address whose FDB entry is to be
    /// deleted; absent peers are left alone.
    pub fn remove_peer(&mut self, subnet: &str) -> (r: Option<Ipv4>)
        requires
            old(self).wf(),
        ensures
            final(self).wf(),
            final(self).view() == old(self).view().remove(subnet@),
            final(self).local() == old(self).local(),
            match r {
                Some(ip) => old(self).view().contains_key(subnet@) && ip == old(
                    self,
                ).view().index(subnet@),
                None => !old(self).view().contains_key(subnet@),
            },
    {
        self.peers.remove(subnet)
    }

    /// The recorded underlay address of a peer subnet, if any.
    pub fn peer_ip(&self, subnet: &str) -> (r: Option<Ipv4>)
        requires
            self.wf(),
        ensures
            match r {
                Some(ip) => self.view().contains_key(subnet@) && ip == self.view()[subnet@],
                None => !self.view().contains_key(subnet@),
            },
    {
        match self.peers.get(subnet) {
            Some(ip) => Some(*ip),
            None => None,
        }
    }

    /// Number of recorded peers.
    pub fn peer_count(&self) -> (r: usize)
        requires
            self.wf(),
        ensures
            self.view().dom().finite(),
            r == self.view().dom().len(),
    {
        self.peers.len()
    }

    /// A copy of the peer subnets, each exactly once.
    pub fn peers(&self) -> (r: Vec<String>)
        requires
            self.wf(),
        ensures
            forall|i: int| 0 <= i < r@.len() ==> self.view().contains_key((#[trigger] r@[i])@),
            forall|k: Seq<char>|
                self.view().contains_key(k) ==> exists|i: int|
                    0 <= i < r@.len() && (#[trigger] r@[i])@ == k,
    {
        self.peers.keys_snapshot()
    }
}

} // verus!
