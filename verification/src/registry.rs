//! Control-plane node registry.
//!
//! The authoritative record of cluster membership: one row per node,
//! created at registration with the live status, refreshed by
//! heartbeats, flipped to the down status by the liveness sweeper or
//! by a graceful deregistration. Rows are never deleted. Node
//! identifiers and subnets are unique across the table.

use vstd::prelude::*;
use crate::ids::fresh_uuid;
use crate::net::{lemma_subnet_id_of, subnet_id_of, subnet_text};
use crate::text::str_eq;
use crate::wire::{clone_node, down_str, node_is_up, node_up, up_str, up_text, down_text, Node};
use vstd::string::StringExecFns;

verus! {

/// A node with no heartbeat for longer than this many seconds is
/// flipped to the down status by the sweeper.
pub const T_DOWN_SECS: i64 = 30;

/// The sweeper fires with this period, in seconds.
pub const T_SWEEP_SECS: i64 = 30;

/// Why a registry operation failed.
#[derive(Clone, Copy, PartialEq, Eq, Structural, Debug)]
pub enum RegistryError {
    /// A row with this node identifier or subnet already exists.
    Conflict,
    /// No row with this node identifier exists.
    NotFound,
}

impl RegistryError {
    /// Human-readable description, carried in error payloads.
    pub fn message(&self) -> (r: &'static str)
        ensures
            r@.len() > 0,
    {
        proof {
            reveal_strlit("Row already exists");
            reveal_strlit("Node not found");
        }
        match self {
            RegistryError::Conflict => "Row already exists",
            RegistryError::NotFound => "Node not found",
        }
    }
}

/// Whether some row carries this node identifier.
pub open spec fn has_node_id(rows: Seq<Node>, id: Seq<char>) -> bool {
    exists|j: int| 0 <= j < rows.len() && (#[trigger] rows[j]).node_id@ == id
}

/// Whether some row carries this subnet text.
pub open spec fn has_subnet(rows: Seq<Node>, s: Seq<char>) -> bool {
    exists|j: int| 0 <= j < rows.len() && (#[trigger] rows[j]).subnet@ == s
}

/// Node identifiers and subnets are unique across the table.
pub open spec fn rows_wf(rows: Seq<Node>) -> bool {
    forall|p: int, q: int|
        0 <= p < q < rows.len() ==> (#[trigger] rows[p]).node_id@ != (#[trigger] rows[q]).node_id@
            && rows[p].subnet@ != rows[q].subnet@
}

/// The row after a heartbeat: timestamp refreshed, status forced live,
/// everything else untouched.
pub open spec fn heartbeat_updated(o: Node, n: Node, now: i64) -> bool {
    &&& n.node_id == o.node_id
    &&& n.hostname == o.hostname
    &&& n.host_ip == o.host_ip
    &&& n.subnet == o.subnet
    &&& n.cpu_cores == o.cpu_cores
    &&& n.ram_mb == o.ram_mb
    &&& n.status@ == up_text()
    &&& n.registered_at == o.registered_at
    &&& n.last_heartbeat == now
}

/// The row after a down transition: status down, everything else
/// untouched.
pub open spec fn marked_down(o: Node, n: Node) -> bool {
    &&& n.node_id == o.node_id
    &&& n.hostname == o.hostname
    &&& n.host_ip == o.host_ip
    &&& n.subnet == o.subnet
    &&& n.cpu_cores == o.cpu_cores
    &&& n.ram_mb == o.ram_mb
    &&& n.status@ == down_text()
    &&& n.registered_at == o.registered_at
    &&& n.last_heartbeat == o.last_heartbeat
}

/// Whether the sweeper flips this row at time `now`: it reports the
/// live status and its heartbeat is older than the liveness window.
pub open spec fn is_stale(n: Node, now: i64) -> bool {
    node_up(n) && n.last_heartbeat < now - T_DOWN_SECS
}

/// Number of rows the sweeper flips at time `now`.
pub open spec fn count_stale(rows: Seq<Node>, now: i64) -> int
    decreases rows.len(),
{
    if rows.len() == 0 {
        0
    } else {
        count_stale(rows.drop_last(), now) + if is_stale(rows.last(), now) {
            1int
        } else {
            0int
        }
    }
}

/// The highest subnet index among rows whose subnet is canonical node
/// subnet text; 0 when there is none.
pub open spec fn max_subnet_id_of(rows: Seq<Node>) -> int
    decreases rows.len(),
{
    if rows.len() == 0 {
        0
    } else {
        let m = max_subnet_id_of(rows.drop_last());
        match subnet_id_of(rows.last().subnet@) {
            Some(i) => if i as int > m {
                i as int
            } else {
                m
            },
            None => m,
        }
    }
}

/// The node table, in insertion order.
pub struct NodeTable {
    nodes: Vec<Node>,
}

impl NodeTable {
    /// The rows, in insertion order.
    pub closed spec fn rows(self) -> Seq<Node> {
        self.nodes@
    }

    pub open spec fn wf(self) -> bool {
        rows_wf(self.rows())
    }

    pub fn new() -> (r: Self)
        ensures
            r.wf(),
            r.rows() == Seq::<Node>::empty(),
    {
        let r = NodeTable { nodes: Vec::new() };
        proof {
            assert(r.rows() =~= Seq::<Node>::empty());
        }
        r
    }

    /// Index of the row with this node identifier.
    fn index_of_id(&self, node_id: &str) -> (r: Option<usize>)
        ensures
            match r {
                Some(i) => i < self.rows().len() && self.rows()[i as int].node_id@ == node_id@,
                None => !has_node_id(self.rows(), node_id@),
            },
    {
        let mut i: usize = 0;
        while i < self.nodes.len()
            invariant
                i <= self.rows().len(),
                forall|p: int| 0 <= p < i ==> (#[trigger] self.rows()[p]).node_id@ != node_id@,
            decreases self.rows().len() - i,
        {
            if str_eq(self.nodes[i].node_id.as_str(), node_id) {
                return Some(i);
            }
            i = i + 1;
        }
        None
    }

    /// Whether some row carries this subnet text.
    fn subnet_taken(&self, subnet: &str) -> (r: bool)
        ensures
            r == has_subnet(self.rows(), subnet@),
    {
        let mut i: usize = 0;
        while i < self.nodes.len()
            invariant
                i <= self.rows().len(),
                forall|p: int| 0 <= p < i ==> (#[trigger] self.rows()[p]).subnet@ != subnet@,
            decreases self.rows().len() - i,
        {
            if str_eq(self.nodes[i].subnet.as_str(), subnet) {
                return true;
            }
            i = i + 1;
        }
        false
    }

    /// Inserts a new row under a caller-provided identifier: status
    /// live, registered and heartbeat timestamps both `now`. Succeeds
    /// exactly when neither the identifier nor the subnet is taken.
    pub fn register_node_with_id(
        &mut self,
        node_id: String,
        hostname: String,
        host_ip: String,
        subnet: String,
        cpu_cores: Option<u32>,
        ram_mb: Option<u64>,
        now: i64,
    ) -> (r: Result<(), RegistryError>)
        requires
            old(self).wf(),
        ensures
            final(self).wf(),
            match r {
                Ok(()) => {
                    &&& !has_node_id(old(self).rows(), node_id@)
                    &&& !has_subnet(old(self).rows(), subnet@)
                    &&& final(self).rows().len() == old(self).rows().len() + 1
                    &&& final(self).rows().drop_last() == old(self).rows()
                    &&& final(self).rows().last().node_id == node_id
                    &&& final(self).rows().last().hostname == hostname
                    &&& final(self).rows().last().host_ip == host_ip
                    &&& final(self).rows().last().subnet == subnet
                    &&& final(self).rows().last().cpu_cores == cpu_cores
                    &&& final(self).rows().last().ram_mb == ram_mb
                    &&& final(self).rows().last().status@ == up_text()
                    &&& final(self).rows().last().registered_at == now
                    &&& final(self).rows().last().last_heartbeat == now
                },
                Err(e) => {
                    &&& has_node_id(old(self).rows(), node_id@) || has_subnet(
                        old(self).rows(),
                        subnet@,
                    )
                    &&& final(self).rows() == old(self).rows()
                    &&& e == RegistryError::Conflict
                },
            },
    {
        match self.index_of_id(node_id.as_str()) {
            Some(_) => {
                return Err(RegistryError::Conflict);
            },
            None => {},
        }
        if self.subnet_taken(subnet.as_str()) {
            return Err(RegistryError::Conflict);
        }
        let row = Node {
            node_id,
            hostname,
            host_ip,
            subnet,
            cpu_cores,
            ram_mb,
            status: String::from_str(up_str()),
            registered_at: now,
            last_heartbeat: now,
        };
        self.nodes.push(row);
        proof {
            assert(self.rows().drop_last() =~= old(self).rows());
        }
        Ok(())
    }

    /// Registers a node: allocates a fresh identifier and inserts the
    /// row. A taken subnet is always rejected; the identifier draw is
    /// random, so the row is inserted exactly when it came out fresh.
    pub fn register_node(
        &mut self,
        hostname: String,
        host_ip: String,
        subnet: String,
        cpu_cores: Option<u32>,
        ram_mb: Option<u64>,
        now: i64,
    ) -> (r: Result<String, RegistryError>)
        requires
            old(self).wf(),
        ensures
            final(self).wf(),
            has_subnet(old(self).rows(), subnet@) ==> r is Err,
            match r {
                Ok(id) => {
                    &&& id@.len() == 36
                    &&& !has_node_id(old(self).rows(), id@)
                    &&& !has_subnet(old(self).rows(), subnet@)
                    &&& final(self).rows().len() == old(self).rows().len() + 1
                    &&& final(self).rows().drop_last() == old(self).rows()
                    &&& final(self).rows().last().node_id@ == id@
                    &&& final(self).rows().last().hostname == hostname
                    &&& final(self).rows().last().host_ip == host_ip
                    &&& final(self).rows().last().subnet == subnet
                    &&& final(self).rows().last().cpu_cores == cpu_cores
                    &&& final(self).rows().last().ram_mb == ram_mb
                    &&& final(self).rows().last().status@ == up_text()
                    &&& final(self).rows().last().registered_at == now
                    &&& final(self).rows().last().last_heartbeat == now
                },
                Err(e) => {
                    &&& final(self).rows() == old(self).rows()
                    &&& e == RegistryError::Conflict
                },
            },
    {
        let id = fresh_uuid();
        let id_out = id.clone();
        match self.register_node_with_id(id, hostname, host_ip, subnet, cpu_cores, ram_mb, now) {
            Ok(()) => Ok(id_out),
            Err(e) => Err(e),
        }
    }

    /// Refreshes a node's heartbeat: timestamp set to `now` and status
    /// forced live. Fails exactly when the identifier is unknown.
    pub fn update_heartbeat(&mut self, node_id: &str, now: i64) -> (r: Result<(), RegistryError>)
        requires
            old(self).wf(),
        ensures
            final(self).wf(),
            final(self).rows().len() == old(self).rows().len(),
            match r {
                Ok(()) => {
                    &&& has_node_id(old(self).rows(), node_id@)
                    &&& forall|j: int|
                        0 <= j < old(self).rows().len() ==> if (#[trigger] old(
                            self,
                        ).rows().index(j)).node_id@ == node_id@ {
                            heartbeat_updated(old(self).rows()[j], final(self).rows()[j], now)
                        } else {
                            final(self).rows()[j] == old(self).rows()[j]
                        }
                },
                Err(e) => {
                    &&& !has_node_id(old(self).rows(), node_id@)
                    &&& final(self).rows() == old(self).rows()
                    &&& e == RegistryError::NotFound
                },
            },
    {
        match self.index_of_id(node_id) {
            Some(i) => {
                let mut row = clone_node(&self.nodes[i]);
                row.status = String::from_str(up_str());
                row.last_heartbeat = now;
                self.nodes[i] = row;
                Ok(())
            },
            None => Err(RegistryError::NotFound),
        }
    }

    /// Graceful deregistration: the row is retained with status down.
    /// Fails exactly when the identifier is unknown.
    pub fn deregister(&mut self, node_id: &str) -> (r: Result<(), RegistryError>)
        requires
            old(self).wf(),
        ensures
            final(self).wf(),
            final(self).rows().len() == old(self).rows().len(),
            match r {
                Ok(()) => {
                    &&& has_node_id(old(self).rows(), node_id@)
                    &&& forall|j: int|
                        0 <= j < old(self).rows().len() ==> if (#[trigger] old(
                            self,
                        ).rows().index(j)).node_id@ == node_id@ {
                            marked_down(old(self).rows()[j], final(self).rows()[j])
                        } else {
                            final(self).rows()[j] == old(self).rows()[j]
                        }
                },
                Err(e) => {
                    &&& !has_node_id(old(self).rows(), node_id@)
                    &&& final(self).rows() == old(self).rows()
                    &&& e == RegistryError::NotFound
                },
            },
    {
        match self.index_of_id(node_id) {
            Some(i) => {
                let mut row = clone_node(&self.nodes[i]);
                row.status = String::from_str(down_str());
                self.nodes[i] = row;
                Ok(())
            },
            None => Err(RegistryError::NotFound),
        }
    }

    /// All rows, in insertion order.
    pub fn list_nodes(&self) -> (r: Vec<Node>)
        ensures
            r@ == self.rows(),
    {
        let mut out: Vec<Node> = Vec::new();
        let mut i: usize = 0;
        while i < self.nodes.len()
            invariant
                i <= self.rows().len(),
                out@.len() == i,
                forall|p: int| 0 <= p < i ==> out@[p] == self.rows()[p],
            decreases self.rows().len() - i,
        {
            out.push(clone_node(&self.nodes[i]));
            i = i + 1;
        }
        proof {
            assert(out@ =~= self.rows());
        }
        out
    }

    /// The highest subnet index present in the table, for rehydrating
    /// the allocator after a restart; 0 when no row carries canonical
    /// node subnet text.
    pub fn get_max_subnet_id(&self) -> (r: u8)
        ensures
            r as int == max_subnet_id_of(self.rows()),
    {
        let mut best: u8 = 0;
        let mut i: usize = 0;
        while i < self.nodes.len()
            invariant
                i <= self.rows().len(),
                best as int == max_subnet_id_of(self.rows().subrange(0, i as int)),
            decreases self.rows().len() - i,
        {
            let ghost pre = self.rows().subrange(0, i as int);
            let ghost post = self.rows().subrange(0, i as int + 1);
            match crate::net::parse_subnet_id(self.nodes[i].subnet.as_str()) {
                Some(id) => {
                    if id > best {
                        best = id;
                    }
                },
                None => {},
            }
            proof {
                assert(post.drop_last() =~= pre);
                assert(post.last() == self.rows()[i as int]);
            }
            i = i + 1;
        }
        proof {
            assert(self.rows().subrange(0, self.rows().len() as int) =~= self.rows());
        }
        best
    }

    /// The liveness sweep: in one pass, every live row whose heartbeat
    /// is older than the liveness window is flipped to the down
    /// status; nothing else changes. Returns how many rows flipped.
    pub fn mark_stale_nodes(&mut self, now: i64) -> (r: usize)
        requires
            old(self).wf(),
            now >= i64::MIN + T_DOWN_SECS,
        ensures
            final(self).wf(),
            final(self).rows().len() == old(self).rows().len(),
            forall|j: int|
                0 <= j < old(self).rows().len() ==> if is_stale(
                    #[trigger] old(self).rows()[j],
                    now,
                ) {
                    marked_down(old(self).rows()[j], final(self).rows()[j])
                } else {
                    final(self).rows()[j] == old(self).rows()[j]
                },
            r == count_stale(old(self).rows(), now),
    {
        let threshold = now - T_DOWN_SECS;
        let mut flipped: usize = 0;
        let mut i: usize = 0;
        while i < self.nodes.len()
            invariant
                old(self).wf(),
                i <= old(self).rows().len(),
                self.rows().len() == old(self).rows().len(),
                threshold == now - T_DOWN_SECS,
                flipped == count_stale(old(self).rows().subrange(0, i as int), now),
                flipped <= i,
                forall|j: int|
                    0 <= j < i ==> if is_stale(#[trigger] old(self).rows()[j], now) {
                        marked_down(old(self).rows()[j], self.rows()[j])
                    } else {
                        self.rows()[j] == old(self).rows()[j]
                    },
                forall|j: int|
                    i <= j < old(self).rows().len() ==> self.rows()[j] == old(self).rows()[j],
            decreases self.rows().len() - i,
        {
            let ghost pre = old(self).rows().subrange(0, i as int);
            let ghost post = old(self).rows().subrange(0, i as int + 1);
            let stale = node_is_up(&self.nodes[i]) && self.nodes[i].last_heartbeat < threshold;
            if stale {
                let mut row = clone_node(&self.nodes[i]);
                row.status = String::from_str(down_str());
                self.nodes[i] = row;
                flipped = flipped + 1;
            }
            proof {
                assert(post.drop_last() =~= pre);
                assert(post.last() == old(self).rows()[i as int]);
            }
            i = i + 1;
        }
        proof {
            assert(old(self).rows().subrange(0, old(self).rows().len() as int) =~= old(
                self,
            ).rows());
            assert forall|p: int|
                0 <= p < self.rows().len() implies (#[trigger] self.rows()[p]).node_id@ == old(
                self,
            ).rows()[p].node_id@ && self.rows()[p].subnet@ == old(self).rows()[p].subnet@ by {
                if is_stale(old(self).rows()[p], now) {
                    assert(marked_down(old(self).rows()[p], self.rows()[p]));
                }
            }
        }
        flipped
    }
}

// ------------------------------------------------------------------
// Liveness and restart laws
// ------------------------------------------------------------------

/// No subnet index in the table exceeds the rehydration maximum.
pub proof fn lemma_max_subnet_id_bounds(rows: Seq<Node>, j: int)
    requires
        0 <= j < rows.len(),
    ensures
        match subnet_id_of(rows[j].subnet@) {
            Some(i) => i as int <= max_subnet_id_of(rows),
            None => true,
        },
        max_subnet_id_of(rows) >= 0,
    decreases rows.len(),
{
    lemma_max_subnet_id_nonneg(rows);
    if rows.len() > 0 {
        if j < rows.len() - 1 {
            lemma_max_subnet_id_bounds(rows.drop_last(), j);
            assert(rows.drop_last()[j] == rows[j]);
            lemma_max_subnet_id_nonneg(rows.drop_last());
        }
    }
}

pub proof fn lemma_max_subnet_id_nonneg(rows: Seq<Node>)
    ensures
        max_subnet_id_of(rows) >= 0,
    decreases rows.len(),
{
    if rows.len() > 0 {
        lemma_max_subnet_id_nonneg(rows.drop_last());
    }
}

/// Law: after a restart, the allocator never returns a subnet already
/// present in storage. The counter is rehydrated past the highest
/// stored index, and every later allocation uses a yet higher index,
/// whose text differs from every stored subnet.
pub proof fn lemma_restart_preserves_allocations(rows: Seq<Node>, k: u8)
    requires
        k as int > max_subnet_id_of(rows),
    ensures
        forall|j: int| 0 <= j < rows.len() ==> (#[trigger] rows[j]).subnet@ != subnet_text(k),
{
    assert forall|j: int|
        0 <= j < rows.len() implies (#[trigger] rows[j]).subnet@ != subnet_text(k) by {
        if rows[j].subnet@ == subnet_text(k) {
            lemma_subnet_id_of(rows[j].subnet@, k);
            lemma_max_subnet_id_bounds(rows, j);
        }
    }
}

/// Law: a node whose heartbeats keep arriving within the liveness
/// window is never flipped by the sweeper. A heartbeat at time `t`
/// sets the row's timestamp to `t` and its status live; a sweep at any
/// `now` within `t + T_DOWN_SECS` does not see the row as stale, so
/// `mark_stale_nodes` leaves it untouched.
pub proof fn lemma_heartbeat_beats_sweeper(n: Node, now: i64)
    requires
        n.last_heartbeat >= now - T_DOWN_SECS,
    ensures
        !is_stale(n, now),
{
}

/// Law: a node that stops heartbeating at time `t` is seen as stale by
/// every sweep after `t + T_DOWN_SECS`. The sweeper fires every
/// `T_SWEEP_SECS`, so by `t + T_DOWN_SECS + T_SWEEP_SECS` some sweep
/// has run with `now > t + T_DOWN_SECS` and `mark_stale_nodes` has
/// flipped the row to the down status.
pub proof fn lemma_silent_node_swept(n: Node, t: i64, now: i64)
    requires
        node_up(n),
        n.last_heartbeat == t,
        now > t + T_DOWN_SECS,
    ensures
        is_stale(n, now),
{
}

} // verus!
