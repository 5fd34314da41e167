//! Agent reconciler.
//!
//! Every node runs an agent that drives all overlay state on that
//! node. Each reconciliation tick reads the full node list from the
//! registry, derives the peer set (every other node reporting the
//! live status), and diffs it against the set of peers the agent
//! already knows. For a newly observed peer the FDB entry is written
//! before the route, so the route only exists once the underlay can
//! deliver encapsulated frames; for a vanished peer the route goes
//! first and the FDB entry second. A peer whose underlay address does
//! not parse is skipped but still recorded as known, so a later tick
//! does not retry it forever; the next divergence still converges.

use vstd::prelude::*;
use crate::net::{ip_of_text, parse_ip, Ipv4};
use crate::overlay::{vxlan_if_text, vxlan_interface, VxlanManager};
use crate::routes::{is_cidr_text, RouteManager};
use crate::strmap::StrSet;
use crate::text::str_eq;
use crate::registry::{marked_down, rows_wf};
use crate::wire::{lemma_up_ne_down, node_is_up, node_up, Node};

verus! {

/// The heartbeat loop fires with this period, in seconds; it is
/// shorter than the liveness window, so a healthy node is never
/// flipped by the sweeper.
pub const T_HEARTBEAT_SECS: i64 = 10;

/// The peer-sync loop fires with this period, in seconds.
pub const T_SYNC_SECS: i64 = 5;

/// Whether this record is a peer of the node `self_id`: another node
/// reporting the live status.
pub open spec fn is_peer(n: Node, self_id: Seq<char>) -> bool {
    n.node_id@ != self_id && node_up(n)
}

/// Subnets of the peers among the first `i` records.
pub open spec fn peer_subnets_upto(nodes: Seq<Node>, self_id: Seq<char>, i: int) -> Set<Seq<char>>
    decreases i,
{
    if i <= 0 {
        Set::empty()
    } else {
        let rest = peer_subnets_upto(nodes, self_id, i - 1);
        if is_peer(nodes[i - 1], self_id) {
            rest.insert(nodes[i - 1].subnet@)
        } else {
            rest
        }
    }
}

/// Subnets of all peers in the list.
pub open spec fn peer_subnets(nodes: Seq<Node>, self_id: Seq<char>) -> Set<Seq<char>> {
    peer_subnets_upto(nodes, self_id, nodes.len() as int)
}

/// Underlay address of each peer subnet among the first `i` records,
/// taken from the first record that introduces the subnet, and only
/// when that record's address text parses.
pub open spec fn first_peer_ips_upto(nodes: Seq<Node>, self_id: Seq<char>, i: int) -> Map<
    Seq<char>,
    Ipv4,
>
    decreases i,
{
    if i <= 0 {
        Map::empty()
    } else {
        let m = first_peer_ips_upto(nodes, self_id, i - 1);
        let n = nodes[i - 1];
        if is_peer(n, self_id) && !peer_subnets_upto(nodes, self_id, i - 1).contains(n.subnet@) {
            match ip_of_text(n.host_ip@) {
                Some(ip) => m.insert(n.subnet@, ip),
                None => m,
            }
        } else {
            m
        }
    }
}

/// Underlay address of each peer subnet in the list.
pub open spec fn first_peer_ips(nodes: Seq<Node>, self_id: Seq<char>) -> Map<Seq<char>, Ipv4> {
    first_peer_ips_upto(nodes, self_id, nodes.len() as int)
}

pub proof fn lemma_peer_subnets_monotone(nodes: Seq<Node>, self_id: Seq<char>, i: int, j: int)
    requires
        i <= j,
    ensures
        forall|k: Seq<char>|
            peer_subnets_upto(nodes, self_id, i).contains(k) ==> peer_subnets_upto(
                nodes,
                self_id,
                j,
            ).contains(k),
    decreases j - i,
{
    if i < j {
        lemma_peer_subnets_monotone(nodes, self_id, i, j - 1);
    }
}

/// Every subnet with a recorded address is a peer subnet.
pub proof fn lemma_first_ips_dom(nodes: Seq<Node>, self_id: Seq<char>, i: int)
    ensures
        forall|k: Seq<char>|
            first_peer_ips_upto(nodes, self_id, i).contains_key(k) ==> peer_subnets_upto(
                nodes,
                self_id,
                i,
            ).contains(k),
    decreases i,
{
    if i > 0 {
        lemma_first_ips_dom(nodes, self_id, i - 1);
        lemma_peer_subnets_monotone(nodes, self_id, i - 1, i);
    }
}

/// A peer subnet characterizes some peer record that carries it.
pub proof fn lemma_peer_subnets_char(nodes: Seq<Node>, self_id: Seq<char>, i: int, k: Seq<char>)
    requires
        0 <= i <= nodes.len(),
    ensures
        peer_subnets_upto(nodes, self_id, i).contains(k) <==> exists|j: int|
            0 <= j < i && is_peer(#[trigger] nodes[j], self_id) && nodes[j].subnet@ == k,
    decreases i,
{
    if i > 0 {
        lemma_peer_subnets_char(nodes, self_id, i - 1, k);
        if is_peer(nodes[i - 1], self_id) && nodes[i - 1].subnet@ == k {
            assert(0 <= i - 1 < i && is_peer(nodes[i - 1], self_id) && nodes[i - 1].subnet@ == k);
        }
    }
}

/// When every peer's address parses, every peer subnet has a recorded
/// address.
pub proof fn lemma_first_ips_complete(nodes: Seq<Node>, self_id: Seq<char>, i: int)
    requires
        0 <= i <= nodes.len(),
        forall|j: int|
            0 <= j < nodes.len() && is_peer(#[trigger] nodes[j], self_id) ==> ip_of_text(
                nodes[j].host_ip@,
            ) is Some,
    ensures
        forall|k: Seq<char>|
            peer_subnets_upto(nodes, self_id, i).contains(k) ==> first_peer_ips_upto(
                nodes,
                self_id,
                i,
            ).contains_key(k),
    decreases i,
{
    if i > 0 {
        lemma_first_ips_complete(nodes, self_id, i - 1);
        let n = nodes[i - 1];
        let pre_p = peer_subnets_upto(nodes, self_id, i - 1);
        let pre_f = first_peer_ips_upto(nodes, self_id, i - 1);
        if is_peer(n, self_id) && !pre_p.contains(n.subnet@) {
            assert(ip_of_text(n.host_ip@) is Some);
            assert forall|k: Seq<char>|
                peer_subnets_upto(nodes, self_id, i).contains(k) implies first_peer_ips_upto(
                nodes,
                self_id,
                i,
            ).contains_key(k) by {
                if k != n.subnet@ {
                    assert(pre_p.contains(k));
                }
            }
        }
    }
}

/// The agent's overlay bookkeeping is consistent: every programmed
/// table entry belongs to a known peer, every route goes through the
/// overlay interface, and every route destination is CIDR text.
pub open spec fn overlay_inv(
    known: Set<Seq<char>>,
    vx: Map<Seq<char>, Ipv4>,
    rt: Map<Seq<char>, Seq<char>>,
) -> bool {
    &&& forall|k: Seq<char>| #[trigger] vx.contains_key(k) ==> known.contains(k)
    &&& forall|k: Seq<char>|
        #[trigger] rt.contains_key(k) ==> known.contains(k) && rt[k] == vxlan_if_text()
            && is_cidr_text(k)
}

/// How one reconciliation tick against the node list `nodes` takes
/// the overlay state `(k0, vx0, rt0)` to `(k1, vx1, rt1)`:
/// the known set becomes exactly the peer set; entries of vanished
/// peers are gone; entries of peers already known are untouched;
/// newly known peers get the address of the first record that
/// introduced their subnet, when it parses, and a route through the
/// overlay interface, when their subnet is CIDR text.
pub open spec fn tick_relation(
    nodes: Seq<Node>,
    self_id: Seq<char>,
    k0: Set<Seq<char>>,
    vx0: Map<Seq<char>, Ipv4>,
    rt0: Map<Seq<char>, Seq<char>>,
    k1: Set<Seq<char>>,
    vx1: Map<Seq<char>, Ipv4>,
    rt1: Map<Seq<char>, Seq<char>>,
) -> bool {
    let pset = peer_subnets(nodes, self_id);
    let fips = first_peer_ips(nodes, self_id);
    &&& k1 == pset
    &&& forall|k: Seq<char>|
        #![trigger vx1.contains_key(k)]
        #![trigger rt1.contains_key(k)]
        #![trigger pset.contains(k)]
        !pset.contains(k) ==> !vx1.contains_key(k) && !rt1.contains_key(k)
    &&& forall|k: Seq<char>|
        #![trigger vx1.contains_key(k)]
        #![trigger rt1.contains_key(k)]
        #![trigger vx0.contains_key(k)]
        #![trigger rt0.contains_key(k)]
        pset.contains(k) && k0.contains(k) ==> {
            &&& vx1.contains_key(k) == vx0.contains_key(k)
            &&& (vx1.contains_key(k) ==> vx1[k] == vx0[k])
            &&& rt1.contains_key(k) == rt0.contains_key(k)
            &&& (rt1.contains_key(k) ==> rt1[k] == rt0[k])
        }
    &&& forall|k: Seq<char>|
        #![trigger vx1.contains_key(k)]
        #![trigger rt1.contains_key(k)]
        #![trigger fips.contains_key(k)]
        pset.contains(k) && !k0.contains(k) ==> {
            &&& vx1.contains_key(k) == fips.contains_key(k)
            &&& (vx1.contains_key(k) ==> vx1[k] == fips[k])
            &&& rt1.contains_key(k) == (fips.contains_key(k) && is_cidr_text(k))
            &&& (rt1.contains_key(k) ==> rt1[k] == vxlan_if_text())
        }
}

/// Per-node reconciler state: this node's identity, its own subnet,
/// and the peers it has already programmed.
pub struct AgentReconciler {
    node_id: String,
    subnet: String,
    known_peers: StrSet,
}

impl AgentReconciler {
    /// This node's identifier.
    pub closed spec fn id_spec(self) -> Seq<char> {
        self.node_id@
    }

    /// This node's own subnet text.
    pub closed spec fn subnet_spec(self) -> Seq<char> {
        self.subnet@
    }

    /// The peer subnets the agent considers programmed.
    pub closed spec fn known(self) -> Set<Seq<char>> {
        self.known_peers@
    }

    pub closed spec fn wf(self) -> bool {
        self.known_peers.wf()
    }

    /// A fresh reconciler knows no peers.
    pub fn new(node_id: String, subnet: String) -> (r: Self)
        ensures
            r.wf(),
            r.id_spec() == node_id@,
            r.subnet_spec() == subnet@,
            r.known() == Set::<Seq<char>>::empty(),
    {
        AgentReconciler { node_id, subnet, known_peers: StrSet::new() }
    }

    /// Number of known peers.
    pub fn known_peer_count(&self) -> (r: usize)
        requires
            self.wf(),
        ensures
            self.known().finite(),
            r == self.known().len(),
    {
        self.known_peers.len()
    }

    /// Whether a subnet is a known peer.
    pub fn knows_peer(&self, subnet: &str) -> (r: bool)
        requires
            self.wf(),
        ensures
            r == self.known().contains(subnet@),
    {
        self.known_peers.contains(subnet)
    }

    /// One reconciliation tick: diffs the observed peer set against
    /// the known set and programs the overlay accordingly, FDB before
    /// route for a new peer, route before FDB for a vanished one.
    pub fn sync_tick(
        &mut self,
        nodes: &Vec<Node>,
        vxlan: &mut VxlanManager,
        routes: &mut RouteManager,
    )
        requires
            old(self).wf(),
            old(vxlan).wf(),
            old(routes).wf(),
            overlay_inv(old(self).known(), old(vxlan).view(), old(routes).view()),
        ensures
            final(self).wf(),
            final(vxlan).wf(),
            final(routes).wf(),
            final(self).id_spec() == old(self).id_spec(),
            final(self).subnet_spec() == old(self).subnet_spec(),
            final(vxlan).local() == old(vxlan).local(),
            overlay_inv(final(self).known(), final(vxlan).view(), final(routes).view()),
            tick_relation(
                nodes@,
                old(self).id_spec(),
                old(self).known(),
                old(vxlan).view(),
                old(routes).view(),
                final(self).known(),
                final(vxlan).view(),
                final(routes).view(),
            ),
    {
        let ghost sid = self.node_id@;
        let ghost k0 = self.known_peers@;
        let ghost vx0 = vxlan.view();
        let ghost rt0 = routes.view();
        let mut observed = StrSet::new();
        proof {
            assert(overlay_inv(k0, vx0, rt0));
            assert(peer_subnets_upto(nodes@, sid, 0) =~= Set::<Seq<char>>::empty());
            assert(first_peer_ips_upto(nodes@, sid, 0) =~= Map::<Seq<char>, Ipv4>::empty());
            assert(self.known_peers@ =~= k0.union(peer_subnets_upto(nodes@, sid, 0)));
            assert forall|k: Seq<char>| !k0.contains(k) implies !vxlan.view().contains_key(k)
                && !routes.view().contains_key(k) by {}
        }
        let mut i: usize = 0;
        while i < nodes.len()
            invariant
                i <= nodes@.len(),
                self.node_id@ == sid,
                self.subnet == old(self).subnet,
                k0 == old(self).known(),
                vx0 == old(vxlan).view(),
                rt0 == old(routes).view(),
                overlay_inv(k0, vx0, rt0),
                self.known_peers.wf(),
                vxlan.wf(),
                routes.wf(),
                observed.wf(),
                vxlan.local() == old(vxlan).local(),
                observed@ == peer_subnets_upto(nodes@, sid, i as int),
                self.known_peers@ == k0.union(peer_subnets_upto(nodes@, sid, i as int)),
                forall|k: Seq<char>|
                    #![trigger vxlan.view().contains_key(k)]
                    #![trigger routes.view().contains_key(k)]
                    #![trigger vx0.contains_key(k)]
                    #![trigger rt0.contains_key(k)]
                    k0.contains(k) ==> {
                        &&& vxlan.view().contains_key(k) == vx0.contains_key(k)
                        &&& (vxlan.view().contains_key(k) ==> vxlan.view()[k] == vx0[k])
                        &&& routes.view().contains_key(k) == rt0.contains_key(k)
                        &&& (routes.view().contains_key(k) ==> routes.view()[k] == rt0[k])
                    },
                forall|k: Seq<char>|
                    #![trigger vxlan.view().contains_key(k)]
                    #![trigger routes.view().contains_key(k)]
                    #![trigger first_peer_ips_upto(nodes@, sid, i as int).contains_key(k)]
                    !k0.contains(k) ==> {
                        &&& vxlan.view().contains_key(k) == first_peer_ips_upto(
                            nodes@,
                            sid,
                            i as int,
                        ).contains_key(k)
                        &&& (vxlan.view().contains_key(k) ==> vxlan.view()[k]
                            == first_peer_ips_upto(nodes@, sid, i as int)[k])
                        &&& routes.view().contains_key(k) == (first_peer_ips_upto(
                            nodes@,
                            sid,
                            i as int,
                        ).contains_key(k) && is_cidr_text(k))
                        &&& (routes.view().contains_key(k) ==> routes.view()[k] == vxlan_if_text())
                    },
            decreases nodes@.len() - i,
        {
            let ghost pre_p = peer_subnets_upto(nodes@, sid, i as int);
            let ghost post_p = peer_subnets_upto(nodes@, sid, i as int + 1);
            let ghost pre_f = first_peer_ips_upto(nodes@, sid, i as int);
            let ghost post_f = first_peer_ips_upto(nodes@, sid, i as int + 1);
            let n = &nodes[i];
            let its_me = str_eq(self.node_id.as_str(), n.node_id.as_str());
            let is_up = node_is_up(n);
            proof {
                lemma_first_ips_dom(nodes@, sid, i as int);
            }
            if !its_me && is_up {
                observed.insert(n.subnet.clone());
                let already = self.known_peers.contains(n.subnet.as_str());
                if !already {
                    proof {
                        assert(!pre_p.contains(n.subnet@));
                        assert(!k0.contains(n.subnet@));
                        assert(!pre_f.contains_key(n.subnet@));
                    }
                    match parse_ip(n.host_ip.as_str()) {
                        Some(ip) => {
                            proof {
                                assert(ip_of_text(n.host_ip@) == Some(ip));
                                assert(post_f == pre_f.insert(n.subnet@, ip));
                            }
                            vxlan.add_peer(n.subnet.clone(), ip);
                            match routes.add_route(n.subnet.as_str(), vxlan_interface()) {
                                Ok(_) => {},
                                Err(_) => {},
                            }
                        },
                        None => {
                            proof {
                                assert(ip_of_text(n.host_ip@) is None);
                                assert(post_f == pre_f);
                            }
                        },
                    }
                    self.known_peers.insert(n.subnet.clone());
                } else {
                    proof {
                        if pre_p.contains(n.subnet@) {
                            assert(post_f == pre_f);
                        } else {
                            assert(k0.contains(n.subnet@));
                        }
                    }
                }
            } else {
                proof {
                    assert(post_p == pre_p);
                    assert(post_f == pre_f);
                }
            }
            proof {
                assert(observed@ =~= post_p);
                assert(self.known_peers@ =~= k0.union(post_p));
            }
            i = i + 1;
        }
        let ghost pset = peer_subnets(nodes@, sid);
        let ghost fips = first_peer_ips(nodes@, sid);
        let ghost k_mid = k0.union(pset);
        let ghost vx_mid = vxlan.view();
        let ghost rt_mid = routes.view();
        proof {
            assert(i as int == nodes@.len() as int);
            assert(first_peer_ips_upto(nodes@, sid, i as int) == fips);
            assert(peer_subnets_upto(nodes@, sid, i as int) == pset);
            assert(observed@ == pset);
            assert(self.known_peers@ == k_mid);
            lemma_first_ips_dom(nodes@, sid, nodes@.len() as int);
            assert forall|k: Seq<char>|
                rt_mid.contains_key(k) implies rt_mid[k] == vxlan_if_text() && is_cidr_text(
                k,
            ) by {
                if k0.contains(k) {
                    assert(rt0.contains_key(k));
                } else {
                    assert(fips.contains_key(k) && is_cidr_text(k));
                }
            }
            assert forall|k: Seq<char>| vx_mid.contains_key(k) implies k_mid.contains(k) by {
                if !k0.contains(k) {
                    assert(fips.contains_key(k));
                    assert(pset.contains(k));
                }
            }
            assert forall|k: Seq<char>| rt_mid.contains_key(k) implies k_mid.contains(k) by {
                if !k0.contains(k) {
                    assert(fips.contains_key(k));
                    assert(pset.contains(k));
                }
            }
        }
        let snapshot = self.known_peers.snapshot();
        let mut t: usize = 0;
        while t < snapshot.len()
            invariant
                t <= snapshot@.len(),
                self.node_id@ == sid,
                self.subnet == old(self).subnet,
                pset == peer_subnets(nodes@, sid),
                self.known_peers.wf(),
                vxlan.wf(),
                routes.wf(),
                observed.wf(),
                observed@ == pset,
                vxlan.local() == old(vxlan).local(),
                forall|k: Seq<char>|
                    k_mid.contains(k) ==> exists|p: int|
                        0 <= p < snapshot@.len() && (#[trigger] snapshot@[p])@ == k,
                forall|k: Seq<char>|
                    #![trigger vxlan.view().contains_key(k)]
                    #![trigger routes.view().contains_key(k)]
                    #![trigger self.known_peers@.contains(k)]
                    #![trigger vx_mid.contains_key(k)]
                    #![trigger rt_mid.contains_key(k)]
                    #![trigger k_mid.contains(k)]
                    (pset.contains(k) || forall|p: int|
                        0 <= p < t ==> (#[trigger] snapshot@[p])@ != k) ==> {
                        &&& self.known_peers@.contains(k) == k_mid.contains(k)
                        &&& vxlan.view().contains_key(k) == vx_mid.contains_key(k)
                        &&& (vxlan.view().contains_key(k) ==> vxlan.view()[k] == vx_mid[k])
                        &&& routes.view().contains_key(k) == rt_mid.contains_key(k)
                        &&& (routes.view().contains_key(k) ==> routes.view()[k] == rt_mid[k])
                    },
                forall|k: Seq<char>|
                    #![trigger vxlan.view().contains_key(k)]
                    #![trigger routes.view().contains_key(k)]
                    #![trigger self.known_peers@.contains(k)]
                    !pset.contains(k) && (exists|p: int|
                        0 <= p < t && (#[trigger] snapshot@[p])@ == k) ==> {
                        &&& !self.known_peers@.contains(k)
                        &&& !vxlan.view().contains_key(k)
                        &&& !routes.view().contains_key(k)
                    },
                forall|k: Seq<char>|
                    #[trigger] rt_mid.contains_key(k) ==> rt_mid[k] == vxlan_if_text()
                        && is_cidr_text(k),
                forall|k: Seq<char>|
                    #[trigger] routes.view().contains_key(k) ==> rt_mid.contains_key(k),
                forall|k: Seq<char>|
                    #[trigger] vxlan.view().contains_key(k) ==> vx_mid.contains_key(k),
                forall|k: Seq<char>|
                    #[trigger] self.known_peers@.contains(k) ==> k_mid.contains(k),
            decreases snapshot@.len() - t,
        {
            let s = &snapshot[t];
            if !observed.contains(s.as_str()) {
                match routes.remove_route(s.as_str()) {
                    Ok(()) => {},
                    Err(_) => {
                        proof {
                            assert(!rt_mid.contains_key(s@));
                            assert(routes.view() =~= routes.view().remove(s@));
                        }
                    },
                }
                vxlan.remove_peer(s.as_str());
                self.known_peers.remove(s.as_str());
            }
            proof {
                assert forall|k: Seq<char>|
                    (pset.contains(k) || forall|p: int|
                        0 <= p < t + 1 ==> (#[trigger] snapshot@[p])@ != k) implies {
                    &&& self.known_peers@.contains(k) == k_mid.contains(k)
                    &&& vxlan.view().contains_key(k) == vx_mid.contains_key(k)
                    &&& (vxlan.view().contains_key(k) ==> vxlan.view()[k] == vx_mid[k])
                    &&& routes.view().contains_key(k) == rt_mid.contains_key(k)
                    &&& (routes.view().contains_key(k) ==> routes.view()[k] == rt_mid[k])
                } by {
                    if !pset.contains(k) {
                        assert(snapshot@[t as int]@ != k);
                    }
                }
            }
            t = t + 1;
        }
        proof {
            assert(final(self).known() =~= pset) by {
                assert forall|k: Seq<char>| self.known_peers@.contains(k) implies pset.contains(
                    k,
                ) by {
                    if !pset.contains(k) {
                        assert(k_mid.contains(k));
                        let p = choose|p: int|
                            0 <= p < snapshot@.len() && (#[trigger] snapshot@[p])@ == k;
                        assert(!self.known_peers@.contains(k));
                    }
                }
                assert forall|k: Seq<char>| pset.contains(k) implies self.known_peers@.contains(
                    k,
                ) by {
                    assert(k_mid.contains(k));
                }
            }
            assert forall|k: Seq<char>|
                !pset.contains(k) implies !vxlan.view().contains_key(k)
                && !routes.view().contains_key(k) by {
                if k_mid.contains(k) {
                    let p = choose|p: int|
                        0 <= p < snapshot@.len() && (#[trigger] snapshot@[p])@ == k;
                } else {
                    assert(!vx_mid.contains_key(k)) by {
                        if vx_mid.contains_key(k) {
                            if k0.contains(k) {
                            } else {
                                assert(first_peer_ips(nodes@, sid).contains_key(k));
                            }
                        }
                    }
                    assert(!rt_mid.contains_key(k)) by {
                        if rt_mid.contains_key(k) {
                            if k0.contains(k) {
                            } else {
                                assert(first_peer_ips(nodes@, sid).contains_key(k));
                            }
                        }
                    }
                }
            }
        }
    }

    /// Graceful shutdown cleanup: tears down the route and the FDB
    /// entry of every known peer, route first, and forgets them all.
    pub fn shutdown_cleanup(&mut self, vxlan: &mut VxlanManager, routes: &mut RouteManager)
        requires
            old(self).wf(),
            old(vxlan).wf(),
            old(routes).wf(),
            overlay_inv(old(self).known(), old(vxlan).view(), old(routes).view()),
        ensures
            final(self).wf(),
            final(vxlan).wf(),
            final(routes).wf(),
            final(self).id_spec() == old(self).id_spec(),
            final(self).subnet_spec() == old(self).subnet_spec(),
            final(vxlan).local() == old(vxlan).local(),
            final(self).known() == Set::<Seq<char>>::empty(),
            final(vxlan).view() == Map::<Seq<char>, Ipv4>::empty(),
            final(routes).view() == Map::<Seq<char>, Seq<char>>::empty(),
    {
        let ghost k0 = self.known_peers@;
        let ghost vx0 = vxlan.view();
        let ghost rt0 = routes.view();
        proof {
            assert(overlay_inv(k0, vx0, rt0));
            assert forall|k: Seq<char>| rt0.contains_key(k) implies k0.contains(k)
                && is_cidr_text(k) by {}
        }
        let snapshot = self.known_peers.snapshot();
        let mut t: usize = 0;
        while t < snapshot.len()
            invariant
                t <= snapshot@.len(),
                self.node_id == old(self).node_id,
                self.subnet == old(self).subnet,
                self.known_peers.wf(),
                vxlan.wf(),
                routes.wf(),
                vxlan.local() == old(vxlan).local(),
                forall|k: Seq<char>|
                    k0.contains(k) ==> exists|p: int|
                        0 <= p < snapshot@.len() && (#[trigger] snapshot@[p])@ == k,
                forall|k: Seq<char>|
                    #[trigger] self.known_peers@.contains(k) ==> k0.contains(k),
                forall|k: Seq<char>| #[trigger] vxlan.view().contains_key(k) ==> k0.contains(k),
                forall|k: Seq<char>|
                    #[trigger] routes.view().contains_key(k) ==> rt0.contains_key(k),
                forall|k: Seq<char>|
                    #[trigger] rt0.contains_key(k) ==> k0.contains(k) && is_cidr_text(k),
                forall|k: Seq<char>|
                    #![trigger self.known_peers@.contains(k)]
                    #![trigger vxlan.view().contains_key(k)]
                    #![trigger routes.view().contains_key(k)]
                    (exists|p: int| 0 <= p < t && (#[trigger] snapshot@[p])@ == k) ==> {
                        &&& !self.known_peers@.contains(k)
                        &&& !vxlan.view().contains_key(k)
                        &&& !routes.view().contains_key(k)
                    },
            decreases snapshot@.len() - t,
        {
            let s = &snapshot[t];
            match routes.remove_route(s.as_str()) {
                Ok(()) => {},
                Err(_) => {
                    proof {
                        assert(!rt0.contains_key(s@));
                        assert(!routes.view().contains_key(s@));
                        assert(routes.view() =~= routes.view().remove(s@));
                    }
                },
            }
            vxlan.remove_peer(s.as_str());
            self.known_peers.remove(s.as_str());
            t = t + 1;
        }
        proof {
            assert forall|k: Seq<char>| !self.known_peers@.contains(k) by {
                if self.known_peers@.contains(k) {
                    assert(k0.contains(k));
                    let p = choose|p: int|
                        0 <= p < snapshot@.len() && (#[trigger] snapshot@[p])@ == k;
                }
            }
            assert forall|k: Seq<char>| !vxlan.view().contains_key(k) by {
                if vxlan.view().contains_key(k) {
                    assert(k0.contains(k));
                    let p = choose|p: int|
                        0 <= p < snapshot@.len() && (#[trigger] snapshot@[p])@ == k;
                }
            }
            assert forall|k: Seq<char>| !routes.view().contains_key(k) by {
                if routes.view().contains_key(k) {
                    assert(rt0.contains_key(k));
                    assert(k0.contains(k));
                    let p = choose|p: int|
                        0 <= p < snapshot@.len() && (#[trigger] snapshot@[p])@ == k;
                }
            }
            assert(self.known_peers@ =~= Set::<Seq<char>>::empty());
            assert(vxlan.view() =~= Map::<Seq<char>, Ipv4>::empty());
            assert(routes.view() =~= Map::<Seq<char>, Seq<char>>::empty());
        }
    }
}

/// Law: after one reconciliation tick against a node list that no
/// longer changes, the agent's overlay matches the registry's peer
/// set: the known set, the FDB table, and the route table all hold
/// exactly the peer subnets, and every route goes through the overlay
/// interface. This needs every peer record to carry parseable
/// address text and CIDR subnet text, and every previously known peer
/// to have been fully programmed.
pub proof fn lemma_sync_tick_converges(
    nodes: Seq<Node>,
    self_id: Seq<char>,
    k0: Set<Seq<char>>,
    vx0: Map<Seq<char>, Ipv4>,
    rt0: Map<Seq<char>, Seq<char>>,
    k1: Set<Seq<char>>,
    vx1: Map<Seq<char>, Ipv4>,
    rt1: Map<Seq<char>, Seq<char>>,
)
    requires
        tick_relation(nodes, self_id, k0, vx0, rt0, k1, vx1, rt1),
        overlay_inv(k0, vx0, rt0),
        forall|k: Seq<char>| #[trigger] k0.contains(k) ==> vx0.contains_key(k)
            && rt0.contains_key(k),
        forall|j: int|
            0 <= j < nodes.len() && is_peer(#[trigger] nodes[j], self_id) ==> ip_of_text(
                nodes[j].host_ip@,
            ) is Some && is_cidr_text(nodes[j].subnet@),
    ensures
        k1 == peer_subnets(nodes, self_id),
        forall|k: Seq<char>|
            #[trigger] vx1.contains_key(k) <==> peer_subnets(nodes, self_id).contains(k),
        forall|k: Seq<char>|
            #[trigger] rt1.contains_key(k) <==> peer_subnets(nodes, self_id).contains(k),
        forall|k: Seq<char>| #[trigger] rt1.contains_key(k) ==> rt1[k] == vxlan_if_text(),
{
    let pset = peer_subnets(nodes, self_id);
    let fips = first_peer_ips(nodes, self_id);
    lemma_first_ips_complete(nodes, self_id, nodes.len() as int);
    assert forall|k: Seq<char>|
        #[trigger] vx1.contains_key(k) <==> pset.contains(k) by {
        if pset.contains(k) {
            if !k0.contains(k) {
                assert(fips.contains_key(k));
            }
        }
    }
    assert forall|k: Seq<char>|
        #[trigger] rt1.contains_key(k) <==> pset.contains(k) by {
        if pset.contains(k) {
            lemma_peer_subnets_char(nodes, self_id, nodes.len() as int, k);
            let j = choose|j: int|
                0 <= j < nodes.len() && is_peer(#[trigger] nodes[j], self_id) && nodes[j].subnet@
                    == k;
            assert(is_cidr_text(k));
            if !k0.contains(k) {
                assert(fips.contains_key(k));
            }
        }
    }
    assert forall|k: Seq<char>| #[trigger] rt1.contains_key(k) implies rt1[k]
        == vxlan_if_text() by {
        assert(pset.contains(k));
        if k0.contains(k) {
            assert(rt1[k] == rt0[k]);
        }
    }
}

/// Law: a graceful deregistration is observable to peers within one
/// peer-sync tick. Deregistering flips the node's row to the down
/// status, so its subnet is no peer subnet of the new list; by
/// `tick_relation`, one tick removes the subnet from every other
/// agent's known set, FDB table, and route table.
pub proof fn lemma_deregister_hides_peer(
    rows0: Seq<Node>,
    rows1: Seq<Node>,
    node_id: Seq<char>,
    self_id: Seq<char>,
)
    requires
        rows_wf(rows0),
        rows1.len() == rows0.len(),
        forall|j: int|
            0 <= j < rows0.len() ==> if (#[trigger] rows0[j]).node_id@ == node_id {
                marked_down(rows0[j], rows1[j])
            } else {
                rows1[j] == rows0[j]
            },
    ensures
        forall|j: int|
            0 <= j < rows0.len() && (#[trigger] rows0[j]).node_id@ == node_id ==> !peer_subnets(
                rows1,
                self_id,
            ).contains(rows0[j].subnet@),
{
    lemma_up_ne_down();
    assert forall|j: int|
        0 <= j < rows0.len() && (#[trigger] rows0[j]).node_id@ == node_id implies !peer_subnets(
        rows1,
        self_id,
    ).contains(rows0[j].subnet@) by {
        let k = rows0[j].subnet@;
        lemma_peer_subnets_char(rows1, self_id, rows1.len() as int, k);
        if peer_subnets(rows1, self_id).contains(k) {
            let j2 = choose|j2: int|
                0 <= j2 < rows1.len() && is_peer(#[trigger] rows1[j2], self_id) && rows1[j2].subnet@
                    == k;
            if rows0[j2].node_id@ == node_id {
                assert(marked_down(rows0[j2], rows1[j2]));
                assert(!node_up(rows1[j2]));
            } else {
                assert(rows1[j2] == rows0[j2]);
                assert(rows0[j2].subnet@ == rows0[j].subnet@);
                if j2 != j {
                    assert(rows0[j2].subnet@ != rows0[j].subnet@);
                }
            }
        }
    }
}

} // verus!
