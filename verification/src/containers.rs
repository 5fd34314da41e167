//! Container records and placement.
//!
//! The registry tracks one row per container: where it was scheduled,
//! its address once the node's agent reports one, and a status text.
//! Placement picks among the nodes reporting the live status, in
//! round-robin order.

use vstd::prelude::*;
use crate::ids::fresh_uuid;
use crate::scheduler::SimpleScheduler;
use crate::text::str_eq;
use crate::wire::{clone_container, clone_node, node_up, Container, CreateContainerResponse, Node};
use vstd::string::StringExecFns;

verus! {

/// Why a container operation failed.
#[derive(Clone, Copy, PartialEq, Eq, Structural, Debug)]
pub enum ContainerError {
    /// A row with this container identifier already exists.
    Conflict,
    /// No row with this container identifier exists.
    NotFound,
    /// No node reports the live status.
    NoNodesAvailable,
}

impl ContainerError {
    /// Human-readable description, carried in error payloads.
    pub fn message(&self) -> (r: &'static str)
        ensures
            r@.len() > 0,
    {
        proof {
            reveal_strlit("Row already exists");
            reveal_strlit("Container not found");
            reveal_strlit("No available nodes");
        }
        match self {
            ContainerError::Conflict => "Row already exists",
            ContainerError::NotFound => "Container not found",
            ContainerError::NoNodesAvailable => "No available nodes",
        }
    }
}

/// Whether some row carries this container identifier.
pub open spec fn has_container_id(rows: Seq<Container>, id: Seq<char>) -> bool {
    exists|j: int| 0 <= j < rows.len() && (#[trigger] rows[j]).container_id@ == id
}

/// Container identifiers are unique across the table.
pub open spec fn container_rows_wf(rows: Seq<Container>) -> bool {
    forall|p: int, q: int|
        0 <= p < q < rows.len() ==> (#[trigger] rows[p]).container_id@ != (
        #[trigger] rows[q]).container_id@
}

/// The nodes of a list that report the live status, in order.
pub open spec fn up_nodes(s: Seq<Node>) -> Seq<Node>
    decreases s.len(),
{
    if s.len() == 0 {
        Seq::empty()
    } else {
        up_nodes(s.drop_last()) + if node_up(s.last()) {
            seq![s.last()]
        } else {
            Seq::empty()
        }
    }
}

/// Keeps the nodes that report the live status, in order.
pub fn filter_up_nodes(nodes: &Vec<Node>) -> (r: Vec<Node>)
    ensures
        r@ == up_nodes(nodes@),
{
    let mut out: Vec<Node> = Vec::new();
    let mut i: usize = 0;
    while i < nodes.len()
        invariant
            i <= nodes@.len(),
            out@ == up_nodes(nodes@.subrange(0, i as int)),
        decreases nodes@.len() - i,
    {
        let ghost pre = nodes@.subrange(0, i as int);
        let ghost post = nodes@.subrange(0, i as int + 1);
        if crate::wire::node_is_up(&nodes[i]) {
            out.push(clone_node(&nodes[i]));
        }
        proof {
            assert(post.drop_last() =~= pre);
            assert(post.last() == nodes@[i as int]);
            if node_up(nodes@[i as int]) {
                assert(out@ =~= up_nodes(pre) + seq![nodes@[i as int]]);
            } else {
                assert(out@ =~= up_nodes(pre) + Seq::<Node>::empty());
            }
        }
        i = i + 1;
    }
    proof {
        assert(nodes@.subrange(0, nodes@.len() as int) =~= nodes@);
    }
    out
}

/// The container table, in creation order.
pub struct ContainerTable {
    rows: Vec<Container>,
}

impl ContainerTable {
    /// The rows, in creation order.
    pub closed spec fn rows(self) -> Seq<Container> {
        self.rows@
    }

    pub open spec fn wf(self) -> bool {
        container_rows_wf(self.rows())
    }

    pub fn new() -> (r: Self)
        ensures
            r.wf(),
            r.rows() == Seq::<Container>::empty(),
    {
        let r = ContainerTable { rows: Vec::new() };
        proof {
            assert(r.rows() =~= Seq::<Container>::empty());
        }
        r
    }

    /// Index of the row with this container identifier.
    fn index_of_id(&self, container_id: &str) -> (r: Option<usize>)
        ensures
            match r {
                Some(i) => i < self.rows().len() && self.rows()[i as int].container_id@
                    == container_id@,
                None => !has_container_id(self.rows(), container_id@),
            },
    {
        let mut i: usize = 0;
        while i < self.rows.len()
            invariant
                i <= self.rows().len(),
                forall|p: int|
                    0 <= p < i ==> (#[trigger] self.rows()[p]).container_id@ != container_id@,
            decreases self.rows().len() - i,
        {
            if str_eq(self.rows[i].container_id.as_str(), container_id) {
                return Some(i);
            }
            i = i + 1;
        }
        None
    }

    /// Inserts a new row under a caller-provided identifier: status
    /// pending, no address yet. Succeeds exactly when the identifier
    /// is not taken.
    pub fn create_container_with_id(
        &mut self,
        container_id: String,
        node_id: String,
        name: String,
        namespace: String,
        image: String,
        now: i64,
    ) -> (r: Result<(), ContainerError>)
        requires
            old(self).wf(),
        ensures
            final(self).wf(),
            match r {
                Ok(()) => {
                    &&& !has_container_id(old(self).rows(), container_id@)
                    &&& final(self).rows().len() == old(self).rows().len() + 1
                    &&& final(self).rows().drop_last() == old(self).rows()
                    &&& final(self).rows().last().container_id == container_id
                    &&& final(self).rows().last().node_id == node_id
                    &&& final(self).rows().last().name == name
                    &&& final(self).rows().last().namespace == namespace
                    &&& final(self).rows().last().image == image
                    &&& final(self).rows().last().ip_address is None
                    &&& final(self).rows().last().created_at == now
                    &&& final(self).rows().last().status@ == "pending"@
                },
                Err(e) => {
                    &&& has_container_id(old(self).rows(), container_id@)
                    &&& final(self).rows() == old(self).rows()
                    &&& e == ContainerError::Conflict
                },
            },
    {
        match self.index_of_id(container_id.as_str()) {
            Some(_) => {
                return Err(ContainerError::Conflict);
            },
            None => {},
        }
        let row = Container {
            container_id,
            node_id,
            name,
            namespace,
            image,
            ip_address: None,
            created_at: now,
            status: String::from_str("pending"),
        };
        self.rows.push(row);
        proof {
            assert(self.rows().drop_last() =~= old(self).rows());
        }
        Ok(())
    }

    /// Creates a container record under a fresh identifier. The
    /// identifier draw is random, so the row is inserted exactly when
    /// it came out fresh.
    pub fn create_container(
        &mut self,
        node_id: String,
        name: String,
        namespace: String,
        image: String,
        now: i64,
    ) -> (r: Result<String, ContainerError>)
        requires
            old(self).wf(),
        ensures
            final(self).wf(),
            match r {
                Ok(id) => {
                    &&& id@.len() == 36
                    &&& !has_container_id(old(self).rows(), id@)
                    &&& final(self).rows().len() == old(self).rows().len() + 1
                    &&& final(self).rows().drop_last() == old(self).rows()
                    &&& final(self).rows().last().container_id@ == id@
                    &&& final(self).rows().last().node_id == node_id
                    &&& final(self).rows().last().name == name
                    &&& final(self).rows().last().namespace == namespace
                    &&& final(self).rows().last().image == image
                    &&& final(self).rows().last().ip_address is None
                    &&& final(self).rows().last().created_at == now
                    &&& final(self).rows().last().status@ == "pending"@
                },
                Err(e) => {
                    &&& final(self).rows() == old(self).rows()
                    &&& e == ContainerError::Conflict
                },
            },
    {
        let id = fresh_uuid();
        let id_out = id.clone();
        match self.create_container_with_id(id, node_id, name, namespace, image, now) {
            Ok(()) => Ok(id_out),
            Err(e) => Err(e),
        }
    }

    /// Records the address the agent assigned. Fails exactly when the
    /// identifier is unknown.
    pub fn update_container_ip(&mut self, container_id: &str, ip_address: &str) -> (r: Result<
        (),
        ContainerError,
    >)
        requires
            old(self).wf(),
        ensures
            final(self).wf(),
            final(self).rows().len() == old(self).rows().len(),
            match r {
                Ok(()) => {
                    &&& has_container_id(old(self).rows(), container_id@)
                    &&& forall|j: int|
                        0 <= j < old(self).rows().len() ==> if (#[trigger] old(
                            self,
                        ).rows().index(j)).container_id@ == container_id@ {
                            ip_updated(old(self).rows()[j], final(self).rows()[j], ip_address@)
                        } else {
                            final(self).rows()[j] == old(self).rows()[j]
                        }
                },
                Err(e) => {
                    &&& !has_container_id(old(self).rows(), container_id@)
                    &&& final(self).rows() == old(self).rows()
                    &&& e == ContainerError::NotFound
                },
            },
    {
        match self.index_of_id(container_id) {
            Some(i) => {
                let mut row = clone_container(&self.rows[i]);
                row.ip_address = Some(String::from_str(ip_address));
                self.rows[i] = row;
                Ok(())
            },
            None => Err(ContainerError::NotFound),
        }
    }

    /// Overwrites the status text. Fails exactly when the identifier
    /// is unknown.
    pub fn update_container_status(&mut self, container_id: &str, status: &str) -> (r: Result<
        (),
        ContainerError,
    >)
        requires
            old(self).wf(),
        ensures
            final(self).wf(),
            final(self).rows().len() == old(self).rows().len(),
            match r {
                Ok(()) => {
                    &&& has_container_id(old(self).rows(), container_id@)
                    &&& forall|j: int|
                        0 <= j < old(self).rows().len() ==> if (#[trigger] old(
                            self,
                        ).rows().index(j)).container_id@ == container_id@ {
                            status_updated(old(self).rows()[j], final(self).rows()[j], status@)
                        } else {
                            final(self).rows()[j] == old(self).rows()[j]
                        }
                },
                Err(e) => {
                    &&& !has_container_id(old(self).rows(), container_id@)
                    &&& final(self).rows() == old(self).rows()
                    &&& e == ContainerError::NotFound
                },
            },
    {
        match self.index_of_id(container_id) {
            Some(i) => {
                let mut row = clone_container(&self.rows[i]);
                row.status = String::from_str(status);
                self.rows[i] = row;
                Ok(())
            },
            None => Err(ContainerError::NotFound),
        }
    }

    /// A copy of the row with this identifier. Fails exactly when the
    /// identifier is unknown.
    pub fn get_container(&self, container_id: &str) -> (r: Result<Container, ContainerError>)
        requires
            self.wf(),
        ensures
            match r {
                Ok(c) => exists|j: int|
                    0 <= j < self.rows().len() && (#[trigger] self.rows()[j]) == c
                        && self.rows()[j].container_id@ == container_id@,
                Err(e) => {
                    &&& !has_container_id(self.rows(), container_id@)
                    &&& e == ContainerError::NotFound
                },
            },
    {
        match self.index_of_id(container_id) {
            Some(i) => Ok(clone_container(&self.rows[i])),
            None => Err(ContainerError::NotFound),
        }
    }

    /// All rows, newest first.
    pub fn list_containers(&self) -> (r: Vec<Container>)
        ensures
            r@.len() == self.rows().len(),
            forall|j: int|
                0 <= j < r@.len() ==> r@[j] == self.rows()[self.rows().len() - 1 - j],
    {
        let mut out: Vec<Container> = Vec::new();
        let mut i: usize = self.rows.len();
        while i > 0
            invariant
                i <= self.rows().len(),
                out@.len() == self.rows().len() - i,
                forall|j: int|
                    0 <= j < out@.len() ==> out@[j] == self.rows()[self.rows().len() - 1 - j],
            decreases i,
        {
            i = i - 1;
            out.push(clone_container(&self.rows[i]));
        }
        out
    }

    /// Deletes the row with this identifier. Fails exactly when the
    /// identifier is unknown.
    pub fn delete_container(&mut self, container_id: &str) -> (r: Result<(), ContainerError>)
        requires
            old(self).wf(),
        ensures
            final(self).wf(),
            match r {
                Ok(()) => {
                    &&& has_container_id(old(self).rows(), container_id@)
                    &&& exists|i: int|
                        0 <= i < old(self).rows().len() && (#[trigger] old(self).rows().index(
                            i,
                        )).container_id@ == container_id@ && final(self).rows() == old(
                            self,
                        ).rows().remove(i)
                },
                Err(e) => {
                    &&& !has_container_id(old(self).rows(), container_id@)
                    &&& final(self).rows() == old(self).rows()
                    &&& e == ContainerError::NotFound
                },
            },
    {
        match self.index_of_id(container_id) {
            Some(i) => {
                self.rows.remove(i);
                Ok(())
            },
            None => Err(ContainerError::NotFound),
        }
    }

    /// Number of rows.
    pub fn len(&self) -> (r: usize)
        ensures
            r == self.rows().len(),
    {
        self.rows.len()
    }
}

/// The row after its address is recorded: address set, everything
/// else untouched.
pub open spec fn ip_updated(o: Container, n: Container, ip: Seq<char>) -> bool {
    &&& n.container_id == o.container_id
    &&& n.node_id == o.node_id
    &&& n.name == o.name
    &&& n.namespace == o.namespace
    &&& n.image == o.image
    &&& n.ip_address matches Some(s) && s@ == ip
    &&& n.created_at == o.created_at
    &&& n.status == o.status
}

/// The row after a status change: status text replaced, everything
/// else untouched.
pub open spec fn status_updated(o: Container, n: Container, status: Seq<char>) -> bool {
    &&& n.container_id == o.container_id
    &&& n.node_id == o.node_id
    &&& n.name == o.name
    &&& n.namespace == o.namespace
    &&& n.image == o.image
    &&& n.ip_address == o.ip_address
    &&& n.created_at == o.created_at
    &&& n.status@ == status
}

/// Places a container: picks a node among those reporting the live
/// status, in round-robin order, and creates the record on it. With
/// no live node the placement is refused; otherwise the record is
/// created exactly when the identifier draw came out fresh.
pub fn create_container_scheduled(
    table: &mut ContainerTable,
    scheduler: &mut SimpleScheduler,
    nodes: &Vec<Node>,
    name: String,
    namespace: String,
    image: String,
    now: i64,
) -> (r: Result<CreateContainerResponse, ContainerError>)
    requires
        old(table).wf(),
    ensures
        final(table).wf(),
        up_nodes(nodes@).len() == 0 ==> r == Err::<CreateContainerResponse, ContainerError>(
            ContainerError::NoNodesAvailable,
        ) && final(table).rows() == old(table).rows() && *final(scheduler) == *old(scheduler),
        match r {
            Ok(resp) => {
                &&& up_nodes(nodes@).len() > 0
                &&& resp.node_id@ == up_nodes(nodes@)[old(scheduler).cursor() % (up_nodes(
                    nodes@,
                ).len() as int)].node_id@
                &&& resp.container_id@.len() == 36
                &&& resp.ip_address is None
                &&& final(table).rows().len() == old(table).rows().len() + 1
                &&& final(table).rows().drop_last() == old(table).rows()
                &&& final(table).rows().last().container_id@ == resp.container_id@
                &&& final(table).rows().last().node_id@ == resp.node_id@
                &&& final(table).rows().last().name == name
                &&& final(table).rows().last().namespace == namespace
                &&& final(table).rows().last().image == image
                &&& final(table).rows().last().created_at == now
                &&& final(table).rows().last().status@ == "pending"@
            },
            Err(ContainerError::NoNodesAvailable) => up_nodes(nodes@).len() == 0
                && final(table).rows() == old(table).rows(),
            Err(ContainerError::Conflict) => final(table).rows() == old(table).rows(),
            Err(_) => false,
        },
{
    let ups = filter_up_nodes(nodes);
    if ups.len() == 0 {
        return Err(ContainerError::NoNodesAvailable);
    }
    let picked_id: String = match scheduler.pick_node(ups.as_slice()) {
        Some(n) => n.node_id.clone(),
        None => {
            proof {
                assert(false);
            }
            return Err(ContainerError::NoNodesAvailable);
        },
    };
    let picked_for_resp = picked_id.clone();
    match table.create_container(picked_id, name, namespace, image, now) {
        Ok(id) => Ok(
            CreateContainerResponse {
                container_id: id,
                node_id: picked_for_resp,
                ip_address: None,
            },
        ),
        Err(e) => Err(e),
    }
}

} // verus!
