use vstd::prelude::*;
use crate::id::Id;

verus! {

/// Network address of a peer: an IP address (v4 or v6) and a UDP port.
#[derive(Clone, Copy, PartialEq, Eq, Debug, Hash)]
pub enum PeerAddr {
    V4 { ipv4: [u8; 4], port: u16 },
    V6 { ipv6: [u8; 16], port: u16, flowinfo: u32, scope_id: u32 },
}

/// Another node, as stored in the k-buckets.
#[derive(Clone, Copy, PartialEq, Debug)]
pub struct Contact {
    pub addr: PeerAddr,
    pub id: Id,
}

} // verus!
