use vstd::prelude::*;

verus! {

/// Identity of a node in the overlay: an IPv4 address (four octets) and a port.
/// Equality is by value; the local node's own identity is `self_id` in the
/// engine and the view store.
#[derive(Clone, Copy, PartialEq, Eq, PartialOrd, Ord, Structural, Debug, Hash)]
pub struct PeerId {
    pub ip0: u8,
    pub ip1: u8,
    pub ip2: u8,
    pub ip3: u8,
    pub port: u16,
}

impl PeerId {
    pub fn new(ip0: u8, ip1: u8, ip2: u8, ip3: u8, port: u16) -> (r: PeerId)
        ensures
            r == (PeerId { ip0, ip1, ip2, ip3, port }),
    {
        PeerId { ip0, ip1, ip2, ip3, port }
    }
}

} // verus!
