//! Control-plane subnet allocation.
//!
//! The cluster CIDR `10.42.0.0/16` is partitioned into 255 assignable
//! /24 blocks, `10.42.1.0/24` through `10.42.255.0/24`; index 0 is
//! reserved. The allocator is a counter that never regresses, so every
//! caller observes a distinct subnet and released subnets are not
//! reused within a process lifetime.

use vstd::prelude::*;
use crate::net::{format_subnet, lemma_subnet_text_injective, subnet_text};

verus! {

/// Why a subnet allocation failed.
#[derive(Clone, Copy, PartialEq, Eq, Structural, Debug)]
pub enum IpamError {
    /// All 255 assignable subnets have been handed out.
    PoolExhausted,
}

impl IpamError {
    /// Human-readable description, carried in error payloads.
    pub fn message(&self) -> (r: &'static str)
        ensures
            r@.len() > 0,
    {
        proof {
            reveal_strlit("Exhausted subnet pool (max 255 nodes)");
        }
        "Exhausted subnet pool (max 255 nodes)"
    }
}

/// Allocator of /24 node subnets.
pub struct SimpleIPAM {
    next_subnet: u16,
}

impl SimpleIPAM {
    /// The index the next successful allocation will return.
    pub closed spec fn next_id(self) -> int {
        self.next_subnet as int
    }

    /// The counter stays within its working range.
    pub closed spec fn wf(self) -> bool {
        1 <= self.next_subnet <= 256
    }

    /// A fresh allocator starts at `10.42.1.0/24`; index 0 is reserved.
    pub fn new() -> (r: Self)
        ensures
            r.wf(),
            r.next_id() == 1,
    {
        SimpleIPAM { next_subnet: 1 }
    }

    /// Rehydrates the allocator after a restart: the counter resumes
    /// just past the highest subnet index observed in storage.
    pub fn init_from_db(max_subnet_id: u8) -> (r: Self)
        ensures
            r.wf(),
            r.next_id() == max_subnet_id as int + 1,
    {
        SimpleIPAM { next_subnet: max_subnet_id as u16 + 1 }
    }

    /// Allocates the next subnet: returns `10.42.{i}.0/24` where `i` is
    /// the counter value, and advances the counter; fails exactly when
    /// the pool is exhausted, leaving the counter in place.
    pub fn allocate_subnet(&mut self) -> (r: Result<String, IpamError>)
        requires
            old(self).wf(),
        ensures
            final(self).wf(),
            final(self).next_id() >= old(self).next_id(),
            match r {
                Ok(s) => {
                    &&& old(self).next_id() <= 255
                    &&& s@ == subnet_text(old(self).next_id() as u8)
                    &&& final(self).next_id() == old(self).next_id() + 1
                },
                Err(e) => {
                    &&& old(self).next_id() == 256
                    &&& *final(self) == *old(self)
                    &&& e == IpamError::PoolExhausted
                },
            },
    {
        let subnet_id = self.next_subnet;
        if subnet_id > 255 {
            return Err(IpamError::PoolExhausted);
        }
        self.next_subnet = subnet_id + 1;
        Ok(format_subnet(subnet_id as u8))
    }
}

/// Law: allocations made at different counter values name different
/// subnets. A sequence of N successful allocations passes through N
/// distinct counter values, so the N returned subnets are pairwise
/// distinct and each has the form `10.42.i.0/24` with `i` in 1..=255.
pub proof fn lemma_allocations_distinct(i: int, j: int)
    requires
        1 <= i <= 255,
        1 <= j <= 255,
        i != j,
    ensures
        subnet_text(i as u8) != subnet_text(j as u8),
{
    lemma_subnet_text_injective(i as u8, j as u8);
}

} // verus!
