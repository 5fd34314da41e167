//! Per-node container IPAM.
//!
//! Each node owns one /24 inside the cluster CIDR `10.42.0.0/16` and
//! hands container addresses out of it. Host addresses are walked in
//! numeric order; the network (`.0`) and broadcast (`.255`) addresses
//! are never allocated. Reconfiguring the subnet clears the
//! allocation set.

use vstd::prelude::*;
use crate::net::{cidr_of_text, parse_cidr, Cidr, Ipv4};

verus! {

/// Why a container-IPAM operation failed.
#[derive(Clone, Copy, PartialEq, Eq, Structural, Debug)]
pub enum NodeIpamError {
    /// The subnet is not CIDR text.
    InvalidCidr,
    /// The subnet is not a /24.
    WrongPrefix,
    /// The subnet lies outside the cluster CIDR.
    OutsideClusterCidr,
    /// No subnet has been configured yet.
    NotConfigured,
    /// Every host address of the subnet is allocated.
    PoolExhausted,
}

impl NodeIpamError {
    /// Human-readable description, carried in error payloads.
    pub fn message(&self) -> (r: &'static str)
        ensures
            r@.len() > 0,
    {
        proof {
            reveal_strlit("Invalid subnet CIDR format");
            reveal_strlit("Subnet must be /24");
            reveal_strlit("Subnet must be within cluster CIDR 10.42.0.0/16");
            reveal_strlit("Subnet not configured - call configure_subnet first");
            reveal_strlit("No available IPs in subnet");
        }
        match self {
            NodeIpamError::InvalidCidr => "Invalid subnet CIDR format",
            NodeIpamError::WrongPrefix => "Subnet must be /24",
            NodeIpamError::OutsideClusterCidr => "Subnet must be within cluster CIDR 10.42.0.0/16",
            NodeIpamError::NotConfigured => "Subnet not configured - call configure_subnet first",
            NodeIpamError::PoolExhausted => "No available IPs in subnet",
        }
    }
}

/// Whether `ip` is a host address of the /24 `c`: inside the prefix
/// and neither the network nor the broadcast address.
pub open spec fn host_of(c: Cidr, ip: Ipv4) -> bool {
    &&& ip.a == c.addr.a
    &&& ip.b == c.addr.b
    &&& ip.c == c.addr.c
    &&& 1 <= ip.d <= 254
}

/// The set denoted by a sequence of addresses.
pub open spec fn ip_set(s: Seq<Ipv4>) -> Set<Ipv4>
    decreases s.len(),
{
    if s.len() == 0 {
        Set::empty()
    } else {
        ip_set(s.drop_last()).insert(s.last())
    }
}

proof fn lemma_ip_set_contains(s: Seq<Ipv4>, ip: Ipv4)
    ensures
        ip_set(s).contains(ip) <==> exists|i: int| 0 <= i < s.len() && s[i] == ip,
    decreases s.len(),
{
    if s.len() > 0 {
        lemma_ip_set_contains(s.drop_last(), ip);
        if s.last() == ip {
            assert(s[s.len() - 1] == ip);
        } else {
            if ip_set(s).contains(ip) {
                let i = choose|i: int| 0 <= i < s.len() - 1 && s.drop_last()[i] == ip;
                assert(s[i] == ip);
            }
            if exists|i: int| 0 <= i < s.len() && s[i] == ip {
                let i = choose|i: int| 0 <= i < s.len() && s[i] == ip;
                assert(s.drop_last()[i] == ip);
            }
        }
    }
}

proof fn lemma_ip_set_remove(s: Seq<Ipv4>, i: int)
    requires
        0 <= i < s.len(),
        forall|p: int, q: int| 0 <= p < q < s.len() ==> s[p] != s[q],
    ensures
        ip_set(s.remove(i)) == ip_set(s).remove(s[i]),
    decreases s.len(),
{
    let n = s.len() as int;
    if i == n - 1 {
        assert(s.remove(i) =~= s.drop_last());
        lemma_ip_set_contains(s.drop_last(), s[i]);
        assert(!ip_set(s.drop_last()).contains(s[i])) by {
            if exists|p: int| 0 <= p < n - 1 && s.drop_last()[p] == s[i] {
                let p = choose|p: int| 0 <= p < n - 1 && s.drop_last()[p] == s[i];
                assert(s[p] == s[i]);
            }
        }
        assert(ip_set(s.drop_last()) =~= ip_set(s).remove(s[i]));
    } else {
        lemma_ip_set_remove(s.drop_last(), i);
        assert(s.remove(i).drop_last() =~= s.drop_last().remove(i));
        assert(s.remove(i).last() == s.last());
        assert(ip_set(s.remove(i)) =~= ip_set(s).remove(s[i]));
    }
}

/// Allocator of container addresses within the node's /24.
pub struct IpamManager {
    subnet: Option<Cidr>,
    allocated: Vec<Ipv4>,
}

impl IpamManager {
    /// The configured /24, normalized to its network address.
    pub closed spec fn subnet_spec(self) -> Option<Cidr> {
        self.subnet
    }

    /// The set of allocated addresses.
    pub closed spec fn allocated_set(self) -> Set<Ipv4> {
        ip_set(self.allocated@)
    }

    pub closed spec fn wf(self) -> bool {
        &&& forall|p: int, q: int|
            0 <= p < q < self.allocated@.len() ==> self.allocated@[p] != self.allocated@[q]
        &&& match self.subnet {
            Some(c) => {
                &&& c.prefix_len == 24
                &&& c.addr.a == 10
                &&& c.addr.b == 42
                &&& c.addr.d == 0
                &&& forall|p: int|
                    0 <= p < self.allocated@.len() ==> host_of(c, #[trigger] self.allocated@[p])
            },
            None => self.allocated@.len() == 0,
        }
    }

    pub fn new() -> (r: Self)
        ensures
            r.wf(),
            r.subnet_spec() is None,
            r.allocated_set() == Set::<Ipv4>::empty(),
    {
        IpamManager { subnet: None, allocated: Vec::new() }
    }

    /// Configures the node's /24 and clears the allocation set. The
    /// subnet must be CIDR text, a /24, and lie inside the cluster
    /// CIDR `10.42.0.0/16`; it is stored normalized to its network
    /// address.
    pub fn configure_subnet(&mut self, subnet_str: &str) -> (r: Result<(), NodeIpamError>)
        requires
            old(self).wf(),
        ensures
            final(self).wf(),
            match cidr_of_text(subnet_str@) {
                None => r == Err::<(), NodeIpamError>(NodeIpamError::InvalidCidr) && *final(self)
                    == *old(self),
                Some(c) => {
                    if c.prefix_len != 24 {
                        r == Err::<(), NodeIpamError>(NodeIpamError::WrongPrefix) && *final(self)
                            == *old(self)
                    } else if !(c.addr.a == 10 && c.addr.b == 42) {
                        r == Err::<(), NodeIpamError>(NodeIpamError::OutsideClusterCidr)
                            && *final(self) == *old(self)
                    } else {
                        &&& r == Ok::<(), NodeIpamError>(())
                        &&& final(self).subnet_spec() == Some(
                            Cidr {
                                addr: Ipv4 { a: 10, b: 42, c: c.addr.c, d: 0 },
                                prefix_len: 24,
                            },
                        )
                        &&& final(self).allocated_set() == Set::<Ipv4>::empty()
                    }
                },
            },
    {
        match parse_cidr(subnet_str) {
            None => Err(NodeIpamError::InvalidCidr),
            Some(c) => {
                if c.prefix_len != 24 {
                    Err(NodeIpamError::WrongPrefix)
                } else if !(c.addr.a == 10 && c.addr.b == 42) {
                    Err(NodeIpamError::OutsideClusterCidr)
                } else {
                    self.subnet = Some(
                        Cidr { addr: Ipv4 { a: 10, b: 42, c: c.addr.c, d: 0 }, prefix_len: 24 },
                    );
                    self.allocated.clear();
                    Ok(())
                }
            },
        }
    }

    /// Whether an address is currently allocated.
    pub fn is_allocated(&self, ip: Ipv4) -> (r: bool)
        requires
            self.wf(),
        ensures
            r == self.allocated_set().contains(ip),
    {
        proof {
            lemma_ip_set_contains(self.allocated@, ip);
        }
        let mut i: usize = 0;
        while i < self.allocated.len()
            invariant
                i <= self.allocated@.len(),
                forall|p: int| 0 <= p < i ==> self.allocated@[p] != ip,
            decreases self.allocated@.len() - i,
        {
            let cur = self.allocated[i];
            if cur.a == ip.a && cur.b == ip.b && cur.c == ip.c && cur.d == ip.d {
                proof {
                    lemma_ip_set_contains(self.allocated@, ip);
                    assert(cur == ip);
                    let ghost w = i as int;
                    assert(0 <= w < self.allocated@.len() && self.allocated@[w] == ip);
                    assert(exists|j: int| 0 <= j < self.allocated@.len() && self.allocated@[j] == ip);
                    assert(self.allocated_set().contains(ip));
                }
                return true;
            }
            proof {
                assert(self.allocated@[i as int] != ip);
            }
            i = i + 1;
        }
        false
    }

    /// Allocates the numerically first free host address of the
    /// configured subnet. Fails when no subnet is configured or every
    /// host address is taken.
    pub fn allocate_ip(&mut self) -> (r: Result<Ipv4, NodeIpamError>)
        requires
            old(self).wf(),
        ensures
            final(self).wf(),
            final(self).subnet_spec() == old(self).subnet_spec(),
            match r {
                Ok(ip) => {
                    &&& old(self).subnet_spec() matches Some(c) && host_of(c, ip)
                    &&& !old(self).allocated_set().contains(ip)
                    &&& final(self).allocated_set() == old(self).allocated_set().insert(ip)
                    &&& forall|e: u8|
                        1 <= e < ip.d ==> old(self).allocated_set().contains(
                            Ipv4 { a: ip.a, b: ip.b, c: ip.c, d: e },
                        )
                },
                Err(NodeIpamError::NotConfigured) => old(self).subnet_spec() is None
                    && *final(self) == *old(self),
                Err(NodeIpamError::PoolExhausted) => {
                    &&& old(self).subnet_spec() matches Some(c) && forall|ip: Ipv4|
                        host_of(c, ip) ==> old(self).allocated_set().contains(ip)
                    &&& *final(self) == *old(self)
                },
                Err(_) => false,
            },
    {
        let c = match self.subnet {
            Some(c) => c,
            None => {
                return Err(NodeIpamError::NotConfigured);
            },
        };
        let mut d: u8 = 1;
        loop
            invariant
                self.wf(),
                *self == *old(self),
                self.subnet == Some(c),
                1 <= d <= 254,
                forall|e: u8|
                    1 <= e < d ==> self.allocated_set().contains(
                        Ipv4 { a: c.addr.a, b: c.addr.b, c: c.addr.c, d: e },
                    ),
            decreases 254 - d,
        {
            let candidate = Ipv4 { a: c.addr.a, b: c.addr.b, c: c.addr.c, d };
            if !self.is_allocated(candidate) {
                let ghost old_alloc = self.allocated@;
                self.allocated.push(candidate);
                proof {
                    assert(self.allocated@.drop_last() =~= old_alloc);
                    lemma_ip_set_contains(old_alloc, candidate);
                    assert forall|p: int, q: int|
                        0 <= p < q < self.allocated@.len() implies self.allocated@[p]
                        != self.allocated@[q] by {
                        if q == self.allocated@.len() - 1 {
                            assert(self.allocated@[p] == old_alloc[p]);
                        }
                    }
                }
                return Ok(candidate);
            }
            if d == 254 {
                proof {
                    assert forall|ip: Ipv4| host_of(c, ip) implies self.allocated_set().contains(
                        ip,
                    ) by {
                        assert(ip == Ipv4 { a: c.addr.a, b: c.addr.b, c: c.addr.c, d: ip.d });
                    }
                }
                return Err(NodeIpamError::PoolExhausted);
            }
            d = d + 1;
        }
    }

    /// Releases an address back to the pool; releasing an address that
    /// was never allocated changes nothing.
    pub fn release_ip(&mut self, ip: Ipv4)
        requires
            old(self).wf(),
        ensures
            final(self).wf(),
            final(self).subnet_spec() == old(self).subnet_spec(),
            final(self).allocated_set() == old(self).allocated_set().remove(ip),
    {
        proof {
            lemma_ip_set_contains(self.allocated@, ip);
        }
        let mut i: usize = 0;
        while i < self.allocated.len()
            invariant
                old(self).wf(),
                *self == *old(self),
                i <= self.allocated@.len(),
                forall|p: int| 0 <= p < i ==> self.allocated@[p] != ip,
            decreases self.allocated@.len() - i,
        {
            let cur = self.allocated[i];
            if cur.a == ip.a && cur.b == ip.b && cur.c == ip.c && cur.d == ip.d {
                proof {
                    assert(self.allocated@[i as int] == ip);
                    lemma_ip_set_remove(self.allocated@, i as int);
                }
                self.allocated.remove(i);
                proof {
                    assert(final(self).allocated_set() =~= old(self).allocated_set().remove(ip));
                }
                return ;
            }
            i = i + 1;
        }
        proof {
            assert(!old(self).allocated_set().contains(ip));
            assert(final(self).allocated_set() =~= old(self).allocated_set().remove(ip));
        }
    }

    /// The configured subnet, if any.
    pub fn get_subnet(&self) -> (r: Option<Cidr>)
        ensures
            r == self.subnet_spec(),
    {
        self.subnet
    }
}

} // verus!
