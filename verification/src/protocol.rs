use vstd::prelude::*;
use crate::contact::Contact;
use crate::id::Id;

verus! {

/// Largest value, in bytes, that a node stores or sends.
pub const MAX_VALUE_SIZE: usize = 1000;

/// A message between nodes.
#[derive(Debug)]
pub enum Packet {
    PingRequest(PingRequest),
    PingResponse(PingResponse),
    StoreRequest(StoreRequest),
    StoreResponse(StoreResponse),
    FindNodeRequest(FindNodeRequest),
    FindNodeResponse(FindNodeResponse),
    FindValueRequest(FindValueRequest),
    FindValueResponse(FindValueResponse),
}

/// Sender and nonce, carried by every message; a response repeats the
/// nonce of its request.
#[derive(Debug, Clone, Copy)]
pub struct Header {
    pub sender_id: Id,
    pub nonce: Id,
}

#[derive(Debug)]
pub struct PingRequest {
    pub header: Header,
}

#[derive(Debug)]
pub struct PingResponse {
    pub header: Header,
}

#[derive(Debug)]
pub struct StoreRequest {
    pub header: Header,
    pub key: Id,
    pub value: Vec<u8>,
    pub original_publish_time: i64,
}

/// Outcome of a store request. (The wire form names the success variant
/// `Ok`.)
#[derive(Debug)]
pub enum StoreStatus {
    Stored,
    Error(String),
}

#[derive(Debug)]
pub struct StoreResponse {
    pub header: Header,
    pub key: Id,
    pub status: StoreStatus,
}

#[derive(Debug)]
pub struct FindNodeRequest {
    pub header: Header,
    pub target: Id,
}

#[derive(Debug)]
pub struct FindNodeResponse {
    pub header: Header,
    pub target: Id,
    pub contacts: Vec<Contact>,
}

#[derive(Debug)]
pub struct FindValueRequest {
    pub header: Header,
    pub target: Id,
}

#[derive(Debug)]
pub struct FindValueResponse {
    pub header: Header,
    pub target: Id,
    pub result: LookupResult,
}

/// Outcome of a lookup: the closest contacts found, or the value with its
/// original UNIX publication time.
#[derive(Debug)]
pub enum LookupResult {
    Contacts(Vec<Contact>),
    Value(Vec<u8>, i64),
}

/// The header of a packet, whatever its kind.
pub open spec fn packet_header(p: Packet) -> Header {
    match p {
        Packet::PingRequest(q) => q.header,
        Packet::PingResponse(q) => q.header,
        Packet::StoreRequest(q) => q.header,
        Packet::StoreResponse(q) => q.header,
        Packet::FindNodeRequest(q) => q.header,
        Packet::FindNodeResponse(q) => q.header,
        Packet::FindValueRequest(q) => q.header,
        Packet::FindValueResponse(q) => q.header,
    }
}

impl Packet {
    /// The packet's header.
    pub fn header(&self) -> (r: &Header)
        ensures
            *r == packet_header(*self),
    {
        match self {
            Packet::PingRequest(p) => &p.header,
            Packet::PingResponse(p) => &p.header,
            Packet::StoreRequest(p) => &p.header,
            Packet::StoreResponse(p) => &p.header,
            Packet::FindNodeRequest(p) => &p.header,
            Packet::FindNodeResponse(p) => &p.header,
            Packet::FindValueRequest(p) => &p.header,
            Packet::FindValueResponse(p) => &p.header,
        }
    }
}

} // verus!
