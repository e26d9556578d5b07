use vstd::prelude::*;
use crate::contact::PeerAddr;
use crate::id::Id;
use crate::node::KademliaNode;
use crate::protocol::{
    FindNodeRequest, FindNodeResponse, FindValueRequest, FindValueResponse, Header, LookupResult,
    MAX_VALUE_SIZE, Packet, PingRequest, PingResponse, StoreRequest, StoreResponse, StoreStatus,
};
use crate::routing::closest_of;
use crate::node::ValueEntry;
use crate::clock::instant_now;

verus! {

/// `std::io::Error`, carried as an opaque value.
#[verifier::external_type_specification]
#[verifier::external_body]
pub struct ExIoError(std::io::Error);

/// Why a packet could not be sent.
#[derive(Debug)]
pub enum PacketError {
    /// The packet could not be encoded.
    Serialize(String),
    /// The socket refused the datagram.
    Network(std::io::Error),
    /// The value is larger than `MAX_VALUE_SIZE`.
    PacketTooLarge,
}

/// A packet addressed to a peer, ready to be encoded and sent.
#[derive(Debug)]
pub struct Message {
    pub dest: PeerAddr,
    pub packet: Packet,
}

/// A header from `sender` with `nonce`.
pub open spec fn header_of(sender: Id, nonce: Id) -> Header {
    Header { sender_id: sender, nonce }
}

/// `m` is node `n`'s reply, to `src`, to a FIND_NODE request with `nonce`
/// for `target`: the `k` contacts of its table closest to the target.
pub open spec fn find_node_reply(n: KademliaNode, src: PeerAddr, nonce: Id, target: Id, m: Message) -> bool {
    &&& m.dest == src
    &&& m.packet matches Packet::FindNodeResponse(res) && {
        &&& res.header == header_of(n.id, nonce)
        &&& res.target == target
        &&& closest_of(n.routing_table.all_contacts(), target, n.k as int, res.contacts@)
    }
}

/// `m` is node `n`'s reply, to `src`, to a FIND_VALUE request with `nonce`
/// for `target`: the stored value if any, else the `k` closest contacts.
pub open spec fn find_value_reply(n: KademliaNode, src: PeerAddr, nonce: Id, target: Id, m: Message) -> bool {
    &&& m.dest == src
    &&& m.packet matches Packet::FindValueResponse(res) && {
        &&& res.header == header_of(n.id, nonce)
        &&& res.target == target
        &&& if n.store@.dom().contains(target) {
            res.result matches LookupResult::Value(v, t) && v@ == n.store@[target].value@
                && t == n.store@[target].original_publish_time
        } else {
            res.result matches LookupResult::Contacts(c)
                && closest_of(n.routing_table.all_contacts(), target, n.k as int, c@)
        }
    }
}

/// `n1` is `n0` storing, as a replica kept for 24 hours, the key, value and
/// publication time of `req`.
pub open spec fn replica_stored(n0: KademliaNode, n1: KademliaNode, req: StoreRequest) -> bool {
    &&& n1.store@.dom() == n0.store@.dom().insert(req.key)
    &&& n1.store@.remove(req.key) == n0.store@.remove(req.key)
    &&& n1.store@[req.key].value@ == req.value@
    &&& !n1.store@[req.key].is_original_publisher
    &&& n1.store@[req.key].original_publish_time == req.original_publish_time
    &&& n1.store@[req.key].expiration == crate::clock::secs_duration(crate::node::VALUE_LIFETIME_SECS)
    &&& n1.id == n0.id
    &&& n1.k == n0.k
    &&& n1.routing_table == n0.routing_table
    &&& n1.pending_requests == n0.pending_requests
    &&& n1.active_lookups == n0.active_lookups
    &&& n1.completed_lookups == n0.completed_lookups
    &&& n1.active_stores == n0.active_stores
    &&& n1.completed_stores == n0.completed_stores
    &&& n1.init_refresh_needed == n0.init_refresh_needed
}

/// The acknowledgement by `own`, to `src`, of the store request `req`.
pub open spec fn store_ack(own: Id, src: PeerAddr, req: StoreRequest) -> Message {
    Message {
        dest: src,
        packet: Packet::StoreResponse(StoreResponse {
            header: header_of(own, req.header.nonce),
            key: req.key,
            status: StoreStatus::Stored,
        }),
    }
}

/// A value stored by a STORE request is what a later FIND_VALUE request
/// for its key returns, with its publication time.
pub proof fn law_find_value_returns_stored(
    n0: KademliaNode,
    n1: KademliaNode,
    req: StoreRequest,
    src: PeerAddr,
    nonce: Id,
    m: Message,
)
    requires
        replica_stored(n0, n1, req),
        find_value_reply(n1, src, nonce, req.key, m),
    ensures
        m.packet matches Packet::FindValueResponse(res) && res.result matches LookupResult::Value(v, t)
            && v@ == req.value@ && t == req.original_publish_time,
{
}

/// A ping to `dest_addr`; the caller keeps the nonce to match the reply.
pub fn send_ping(node: &KademliaNode, dest_addr: PeerAddr, nonce: Id) -> (r: Message)
    ensures
        r.dest == dest_addr,
        r.packet == Packet::PingRequest(PingRequest { header: header_of(node.id, nonce) }),
{
    Message {
        dest: dest_addr,
        packet: Packet::PingRequest(PingRequest { header: Header { sender_id: node.id, nonce } }),
    }
}

/// The reply to a ping received from `src_addr`: same nonce, our id.
pub fn handle_ping(node: &KademliaNode, src_addr: PeerAddr, request: PingRequest) -> (r: Message)
    ensures
        r.dest == src_addr,
        r.packet == Packet::PingResponse(PingResponse { header: header_of(node.id, request.header.nonce) }),
{
    Message {
        dest: src_addr,
        packet: Packet::PingResponse(
            PingResponse { header: Header { sender_id: node.id, nonce: request.header.nonce } },
        ),
    }
}

/// A FIND_NODE request for `target` to `dest_addr`.
pub fn send_find_node(node: &KademliaNode, dest_addr: PeerAddr, nonce: Id, target: Id) -> (r: Message)
    ensures
        r.dest == dest_addr,
        r.packet == Packet::FindNodeRequest(FindNodeRequest { header: header_of(node.id, nonce), target }),
{
    Message {
        dest: dest_addr,
        packet: Packet::FindNodeRequest(
            FindNodeRequest { header: Header { sender_id: node.id, nonce }, target },
        ),
    }
}

/// A FIND_VALUE request for `target` to `dest_addr`.
pub fn send_find_value(node: &KademliaNode, dest_addr: PeerAddr, nonce: Id, target: Id) -> (r: Message)
    ensures
        r.dest == dest_addr,
        r.packet == Packet::FindValueRequest(FindValueRequest { header: header_of(node.id, nonce), target }),
{
    Message {
        dest: dest_addr,
        packet: Packet::FindValueRequest(
            FindValueRequest { header: Header { sender_id: node.id, nonce }, target },
        ),
    }
}

/// The reply to a FIND_NODE request: the `k` contacts of our table closest
/// to the requested target.
pub fn handle_find_node(node: &KademliaNode, src_addr: PeerAddr, request: FindNodeRequest) -> (r: Message)
    requires
        node.wf(),
    ensures
        find_node_reply(*node, src_addr, request.header.nonce, request.target, r),
{
    let contacts = node.routing_table.get_closest_contacts(request.target, node.k);
    Message {
        dest: src_addr,
        packet: Packet::FindNodeResponse(
            FindNodeResponse {
                header: Header { sender_id: node.id, nonce: request.header.nonce },
                target: request.target,
                contacts,
            },
        ),
    }
}

/// The reply to a FIND_VALUE request: the value with its publication time
/// when we store the target key, else the `k` contacts closest to it.
pub fn handle_find_value(node: &KademliaNode, src_addr: PeerAddr, request: FindValueRequest) -> (r: Message)
    requires
        node.wf(),
    ensures
        find_value_reply(*node, src_addr, request.header.nonce, request.target, r),
{
    let header = Header { sender_id: node.id, nonce: request.header.nonce };
    let result = match node.store.get(&request.target) {
        Some(entry) => {
            let value = entry.value.clone();
            assert(value@ =~= entry.value@);
            LookupResult::Value(value, entry.original_publish_time)
        },
        None => LookupResult::Contacts(node.routing_table.get_closest_contacts(request.target, node.k)),
    };
    Message {
        dest: src_addr,
        packet: Packet::FindValueResponse(FindValueResponse { header, target: request.target, result }),
    }
}

/// A STORE request for `key` and `value` to `dest_addr`; refused with
/// `PacketTooLarge` when the value exceeds `MAX_VALUE_SIZE` bytes.
pub fn send_store(
    node: &KademliaNode,
    dest_addr: PeerAddr,
    nonce: Id,
    key: Id,
    value: Vec<u8>,
    original_publish_time: i64,
) -> (r: Result<Message, PacketError>)
    ensures
        value@.len() > MAX_VALUE_SIZE <==> r matches Err(PacketError::PacketTooLarge),
        value@.len() <= MAX_VALUE_SIZE ==> (r matches Ok(m) && m.dest == dest_addr
            && (m.packet matches Packet::StoreRequest(req) && req.header == header_of(node.id, nonce)
            && req.key == key && req.value@ == value@ && req.original_publish_time == original_publish_time)),
{
    if value.len() > MAX_VALUE_SIZE {
        return Err(PacketError::PacketTooLarge);
    }
    Ok(Message {
        dest: dest_addr,
        packet: Packet::StoreRequest(
            StoreRequest { header: Header { sender_id: node.id, nonce }, key, value, original_publish_time },
        ),
    })
}

/// Stores the requested key and value (replacing an earlier value for the
/// key) as a replica, not as original publisher, and acknowledges it.
pub fn handle_store(node: &mut KademliaNode, src_addr: PeerAddr, request: StoreRequest) -> (r: Message)
    requires
        old(node).wf(),
    ensures
        final(node).wf(),
        replica_stored(*old(node), *final(node), request),
        r == store_ack(old(node).id, src_addr, request),
{
    let key = request.key;
    let nonce = request.header.nonce;
    let entry = ValueEntry {
        value: request.value,
        is_original_publisher: false,
        original_publish_time: request.original_publish_time,
        last_republish_time: instant_now(),
        expiration: node.calculate_expiration(key),
    };
    node.store.insert(key, entry);
    proof {
        assert(node.store@.remove(key) =~= old(node).store@.remove(key));
    }
    Message {
        dest: src_addr,
        packet: Packet::StoreResponse(
            StoreResponse { header: Header { sender_id: node.id, nonce }, key, status: StoreStatus::Stored },
        ),
    }
}

} // verus!
