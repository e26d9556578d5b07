//! A Kademlia distributed hash table node: 160-bit identifiers with the XOR
//! metric, a routing table of k-buckets, the wire messages, and the node's
//! request/lookup/store state machine. Sockets, serialisation and the clock
//! loop live outside this library.

pub mod id;
pub mod contact;
pub mod clock;
pub mod routing;
pub mod idmap;
pub mod protocol;
pub mod lookup;
pub mod rpc;
pub mod node;
