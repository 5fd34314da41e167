//! Round-robin container placement.

use vstd::prelude::*;
use vstd::slice::slice_index_get;
use crate::wire::Node;

verus! {

/// Round-robin scheduler: a cursor that walks the node list.
pub struct SimpleScheduler {
    current_index: usize,
}

impl SimpleScheduler {
    /// Position of the cursor.
    pub closed spec fn cursor(self) -> int {
        self.current_index as int
    }

    pub fn new() -> (r: Self)
        ensures
            r.cursor() == 0,
    {
        SimpleScheduler { current_index: 0 }
    }

    /// Picks a node for container placement in round-robin order and
    /// advances the cursor. Callers pass the nodes eligible for
    /// placement (the records with the live status); an empty list
    /// yields no pick and leaves the cursor in place.
    pub fn pick_node<'a>(&mut self, nodes: &'a [Node]) -> (r: Option<&'a Node>)
        ensures
            nodes@.len() == 0 ==> r is None && *final(self) == *old(self),
            nodes@.len() > 0 ==> {
                &&& match r {
                    Some(n) => *n == nodes@[old(self).cursor() % (nodes@.len() as int)],
                    None => false,
                }
                &&& final(self).cursor() == if old(self).cursor() == usize::MAX as int {
                    0
                } else {
                    old(self).cursor() + 1
                }
            },
    {
        if nodes.len() == 0 {
            return None;
        }
        let idx = self.current_index % nodes.len();
        self.current_index = if self.current_index == usize::MAX {
            0
        } else {
            self.current_index + 1
        };
        Some(slice_index_get(nodes, idx))
    }
}

} // verus!
