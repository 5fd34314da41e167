//! Kernel route tracking.
//!
//! The data plane installs one IPv4 route per remote peer subnet:
//! destination prefix via the overlay interface. The kernel treats
//! adding an existing route and deleting an absent one as success, so
//! both operations are idempotent; this module tracks, with the same
//! idempotency, what the process has programmed and is responsible for
//! tearing down on shutdown. The kernel calls themselves happen outside
//! the library; this table is what they are reconciled against.

use vstd::prelude::*;
use crate::net::{cidr_text, parse_cidr, Cidr};
use crate::strmap::StrMap;
use vstd::string::StringExecFns;

verus! {

/// Whether some prefix of length at most 32 has this canonical text.
pub open spec fn is_cidr_text(k: Seq<char>) -> bool {
    exists|c: Cidr| c.prefix_len <= 32 && k == cidr_text(c)
}

/// Why a route operation was rejected.
#[derive(Clone, Copy, PartialEq, Eq, Structural, Debug)]
pub enum RouteError {
    /// The destination is not CIDR text.
    InvalidDestination,
}

/// What installing a route found in the tracking table.
#[derive(Clone, Copy, PartialEq, Eq, Structural, Debug)]
pub enum RouteOutcome {
    /// No entry existed for the destination.
    Installed,
    /// The same destination and interface were already tracked.
    AlreadyPresent,
    /// The destination was tracked via a different interface; the
    /// entry now names the new one. Callers treat this as a warning.
    ReplacedInterface,
}

impl RouteError {
    /// Human-readable description, carried in error payloads.
    pub fn message(&self) -> (r: &'static str)
        ensures
            r@.len() > 0,
    {
        proof {
            reveal_strlit("Invalid destination subnet");
        }
        "Invalid destination subnet"
    }
}

/// The routes this process has programmed: destination text to
/// interface text.
pub struct RouteManager {
    routes: StrMap<String>,
}

impl RouteManager {
    /// Destination to interface, by text.
    pub closed spec fn view(self) -> Map<Seq<char>, Seq<char>> {
        Map::new(
            |k: Seq<char>| self.routes@.contains_key(k),
            |k: Seq<char>| self.routes@[k]@,
        )
    }

    pub closed spec fn wf(self) -> bool {
        self.routes.wf()
    }

    pub fn new() -> (r: Self)
        ensures
            r.wf(),
            r.view() == Map::<Seq<char>, Seq<char>>::empty(),
    {
        let r = RouteManager { routes: StrMap::new() };
        proof {
            assert(r.view() =~= Map::<Seq<char>, Seq<char>>::empty());
        }
        r
    }

    /// Records a route for a destination subnet via an interface.
    /// Idempotent: adding a route that is already present succeeds and
    /// leaves one entry; a destination that is not CIDR text is
    /// rejected and nothing changes. The outcome says what was found:
    /// a fresh destination, the same entry, or a conflicting re-use of
    /// the destination with a different interface.
    pub fn add_route(&mut self, destination: &str, interface: &str) -> (r: Result<
        RouteOutcome,
        RouteError,
    >)
        requires
            old(self).wf(),
        ensures
            final(self).wf(),
            match r {
                Ok(outcome) => {
                    &&& is_cidr_text(destination@)
                    &&& final(self).view() == old(self).view().insert(destination@, interface@)
                    &&& outcome == (if !old(self).view().contains_key(destination@) {
                        RouteOutcome::Installed
                    } else if old(self).view().index(destination@) == interface@ {
                        RouteOutcome::AlreadyPresent
                    } else {
                        RouteOutcome::ReplacedInterface
                    })
                },
                Err(e) => {
                    &&& !is_cidr_text(destination@)
                    &&& final(self).view() == old(self).view()
                    &&& e == RouteError::InvalidDestination
                },
            },
    {
        match parse_cidr(destination) {
            Some(_) => {
                let outcome = match self.routes.get(destination) {
                    Some(existing) => {
                        if crate::text::str_eq(existing.as_str(), interface) {
                            RouteOutcome::AlreadyPresent
                        } else {
                            RouteOutcome::ReplacedInterface
                        }
                    },
                    None => RouteOutcome::Installed,
                };
                let dst = String::from_str(destination);
                let ifc = String::from_str(interface);
                self.routes.insert(dst, ifc);
                proof {
                    assert(self.view() =~= old(self).view().insert(destination@, interface@));
                }
                Ok(outcome)
            },
            None => Err(RouteError::InvalidDestination),
        }
    }

    /// Drops the route for a destination subnet. Idempotent: removing
    /// an absent route succeeds; a destination that is not CIDR text is
    /// rejected and nothing changes.
    pub fn remove_route(&mut self, destination: &str) -> (r: Result<(), RouteError>)
        requires
            old(self).wf(),
        ensures
            final(self).wf(),
            match r {
                Ok(()) => is_cidr_text(destination@) && final(self).view() == old(
                    self,
                ).view().remove(destination@),
                Err(e) => {
                    &&& !is_cidr_text(destination@)
                    &&& final(self).view() == old(self).view()
                    &&& e == RouteError::InvalidDestination
                },
            },
    {
        match parse_cidr(destination) {
            Some(_) => {
                self.routes.remove(destination);
                proof {
                    assert(self.view() =~= old(self).view().remove(destination@));
                }
                Ok(())
            },
            None => Err(RouteError::InvalidDestination),
        }
    }

    /// The interface recorded for a destination, if any.
    pub fn route_interface(&self, destination: &str) -> (r: Option<&String>)
        requires
            self.wf(),
        ensures
            match r {
                Some(v) => self.view().contains_key(destination@) && v@
                    == self.view().index(destination@),
                None => !self.view().contains_key(destination@),
            },
    {
        self.routes.get(destination)
    }

    /// Number of tracked routes.
    pub fn route_count(&self) -> (r: usize)
        requires
            self.wf(),
        ensures
            self.view().dom().finite(),
            r == self.view().dom().len(),
    {
        proof {
            assert(self.view().dom() =~= self.routes@.dom());
        }
        self.routes.len()
    }

    /// A copy of the tracked routes, destination and interface.
    pub fn get_routes(&self) -> (r: Vec<(String, String)>)
        requires
            self.wf(),
        ensures
            forall|i: int|
                0 <= i < r@.len() ==> self.view().contains_key((#[trigger] r@[i].0)@)
                    && self.view()[r@[i].0@] == r@[i].1@,
            forall|k: Seq<char>|
                self.view().contains_key(k) ==> exists|i: int|
                    0 <= i < r@.len() && (#[trigger] r@[i].0)@ == k,
    {
        self.routes.entries_snapshot()
    }

    /// Drops every tracked route, as the shutdown path does after the
    /// kernel routes are torn down.
    pub fn cleanup_all_routes(&mut self)
        requires
            old(self).wf(),
        ensures
            final(self).wf(),
            final(self).view() == Map::<Seq<char>, Seq<char>>::empty(),
    {
        let victims = self.routes.keys_snapshot();
        let mut t: usize = 0;
        while t < victims.len()
            invariant
                self.routes.wf(),
                t <= victims@.len(),
                forall|k: Seq<char>|
                    self.routes@.contains_key(k) ==> old(self).routes@.contains_key(k),
                forall|k: Seq<char>|
                    self.routes@.contains_key(k) ==> forall|p: int|
                        0 <= p < t ==> (#[trigger] victims@[p])@ != k,
                forall|k: Seq<char>|
                    old(self).routes@.contains_key(k) ==> exists|p: int|
                        0 <= p < victims@.len() && (#[trigger] victims@[p])@ == k,
            decreases victims@.len() - t,
        {
            self.routes.remove(victims[t].as_str());
            t = t + 1;
        }
        proof {
            assert forall|k: Seq<char>| !self.routes@.contains_key(k) by {
                if self.routes@.contains_key(k) {
                    let p = choose|p: int|
                        0 <= p < victims@.len() && (#[trigger] victims@[p])@ == k;
                }
            }
            assert(self.routes@ =~= Map::<Seq<char>, String>::empty());
            assert(self.view() =~= Map::<Seq<char>, Seq<char>>::empty());
        }
    }
}

/// Law: route programming is idempotent. Installing the same route
/// twice leaves one entry for the destination; removing a destination
/// twice leaves none, and the second removal changes nothing.
pub proof fn lemma_route_ops_idempotent(m: Map<Seq<char>, Seq<char>>, d: Seq<char>, i: Seq<char>)
    ensures
        m.insert(d, i).insert(d, i) == m.insert(d, i),
        m.insert(d, i).contains_key(d) && m.insert(d, i)[d] == i,
        m.remove(d).remove(d) == m.remove(d),
        !m.remove(d).contains_key(d),
{
    assert(m.insert(d, i).insert(d, i) =~= m.insert(d, i));
    assert(m.remove(d).remove(d) =~= m.remove(d));
}

} // verus!
