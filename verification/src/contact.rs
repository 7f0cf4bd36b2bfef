//! The addresses under which a peer can be reached.

use vstd::prelude::*;

verus! {

/// An IPv4 socket address: the address as a 32-bit number, most significant
/// octet first, and the port.
#[derive(Clone, Copy, Debug, PartialEq, Eq, Hash)]
pub struct SocketAddrV4 {
    pub ip: u32,
    pub port: u16,
}

/// An IPv6 socket address: the address as a 128-bit number, most significant
/// octet first, the port, the flow information and the scope.
#[derive(Clone, Copy, Debug, PartialEq, Eq, Hash)]
pub struct SocketAddrV6 {
    pub ip: u128,
    pub port: u16,
    pub flowinfo: u32,
    pub scope_id: u32,
}

/// A socket address of either family.
#[derive(Clone, Copy, Debug, PartialEq, Eq, Hash)]
pub enum SocketAddr {
    V4(SocketAddrV4),
    V6(SocketAddrV6),
}

/// The addresses at which a peer was seen, one per family. An absent address
/// has not been reported yet.
#[derive(Clone, Copy, Debug, PartialEq, Eq)]
pub struct Contact {
    pub v6: Option<SocketAddrV6>,
    pub v4: Option<SocketAddrV4>,
}

/// Everything known of how to reach a peer: the addresses it reported of
/// itself, and the addresses from which the rendezvous service saw it come.
#[derive(Clone, Copy, Debug, PartialEq, Eq)]
pub struct FullContact {
    pub private: Contact,
    pub public: Contact,
}

impl Contact {
    /// A contact of which nothing has been reported.
    pub open spec fn empty() -> Contact {
        Contact { v6: None, v4: None }
    }

    /// The contact after `endpoint` was reported: it takes the place of any
    /// earlier address of its family and leaves the other family alone.
    pub open spec fn with_endpoint(self, endpoint: SocketAddr) -> Contact {
        match endpoint {
            SocketAddr::V6(addr) => Contact { v6: Some(addr), ..self },
            SocketAddr::V4(addr) => Contact { v4: Some(addr), ..self },
        }
    }

    /// Records `endpoint` under its family.
    pub fn set_endpoint(&mut self, endpoint: SocketAddr)
        ensures
            *final(self) == old(self).with_endpoint(endpoint),
    {
        match endpoint {
            SocketAddr::V6(addr) => {
                self.v6 = Some(addr);
            },
            SocketAddr::V4(addr) => {
                self.v4 = Some(addr);
            },
        }
    }
}

impl Default for Contact {
    fn default() -> (r: Contact)
        ensures
            r == Contact::empty(),
    {
        Contact { v6: None, v4: None }
    }
}

impl FullContact {
    /// A full contact of which nothing has been reported.
    pub open spec fn empty() -> FullContact {
        FullContact { private: Contact::empty(), public: Contact::empty() }
    }

    /// The full contact after `endpoint` was reported, as seen by the
    /// service (`public`) or as told by the peer itself.
    pub open spec fn with_endpoint(self, endpoint: SocketAddr, public: bool) -> FullContact {
        if public {
            FullContact { public: self.public.with_endpoint(endpoint), ..self }
        } else {
            FullContact { private: self.private.with_endpoint(endpoint), ..self }
        }
    }

    /// Records `endpoint` among the public or the private addresses.
    pub fn set_endpoint(&mut self, endpoint: SocketAddr, public: bool)
        ensures
            *final(self) == old(self).with_endpoint(endpoint, public),
    {
        if public {
            self.public.set_endpoint(endpoint);
        } else {
            self.private.set_endpoint(endpoint);
        }
    }
}

impl Default for FullContact {
    fn default() -> (r: FullContact)
        ensures
            r == FullContact::empty(),
    {
        FullContact { private: Contact::default(), public: Contact::default() }
    }
}

} // verus!
