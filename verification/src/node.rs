use vstd::prelude::*;
use std::time::{Duration, Instant};
use crate::clock::{duration_from_secs, elapsed_nanos, instant_now, secs_duration, unix_time_now};
use crate::contact::{Contact, PeerAddr};
use crate::id::Id;
use crate::idmap::{IdMap, IdSet};
use crate::lookup::{LookupType, NodeLookup};
use crate::protocol::{packet_header, PingRequest, PingResponse, FindNodeResponse, FindValueResponse, StoreResponse, StoreStatus, StoreRequest, FindNodeRequest, FindValueRequest, LookupResult, MAX_VALUE_SIZE, Packet};
use crate::routing::{AddContactResult, RoutingTable, bucket_of};
use crate::rpc::{Message, header_of, send_find_node, send_find_value, send_store, send_ping, handle_ping, handle_find_node, handle_find_value, handle_store, find_node_reply, find_value_reply, replica_stored, store_ack};
use crate::lookup::{absorbed, first_closest, first_n, round_started, unqueried, with_ids_of};
use crate::routing::{distance_key, sorted_by_distance};
use crate::id::{bytes_le, bytes_lt};
use crate::routing::{contact_added, closest_of, contact_appended, contact_evicted, first_with_id, holds_id, position_of_id};

verus! {

broadcast use vstd::seq_lib::group_seq_properties;

/// Bucket size used when none is given.
pub const K_DEFAULT: usize = 20;

/// Number of requests a lookup keeps in flight per round.
pub const ALPHA: usize = 3;

/// Nanoseconds (10 s) after which an unanswered request times out.
pub const REQ_TIMEOUT_NANOS: u128 = 10_000_000_000;

/// Nanoseconds (500 ms) between two rounds of a lookup.
pub const LOOKUP_ROUND_INTERVAL_NANOS: u128 = 500_000_000;

/// Nanoseconds (1 h) after which an untouched bucket is refreshed.
pub const BUCKET_REFRESH_INTERVAL_NANOS: u128 = 3_600_000_000_000;

/// Seconds a stored value is kept.
pub const VALUE_LIFETIME_SECS: u64 = 86_400;

/// A request sent by this node whose answer is awaited.
#[derive(Clone, Copy)]
pub enum PendingRequest {
    Ping { recipient: Contact, sent_at: Instant },
    /// A ping to the head of a full bucket: if `recipient` does not answer,
    /// it is evicted and `candidate` takes its place.
    EvictionCheck { candidate: Contact, recipient: Contact, sent_at: Instant },
    FindNode { target: Id, recipient: Contact, sent_at: Instant },
    FindValue { target: Id, recipient: Contact, sent_at: Instant },
    Store { recipient: Contact, sent_at: Instant },
}

/// A value this node stores.
pub struct ValueEntry {
    pub value: Vec<u8>,
    pub is_original_publisher: bool,
    /// UNIX time of the original publication.
    pub original_publish_time: i64,
    pub last_republish_time: Instant,
    pub expiration: Duration,
}

/// A value this node is storing across the network.
pub struct ActiveStoreEntry {
    pub value: Vec<u8>,
    pub original_publish_time: i64,
}

/// The state of a Kademlia node. The socket and the receive loop belong to
/// the caller, who hands received packets to `handle_packet` and sends the
/// messages that the node's operations return.
pub struct KademliaNode {
    pub id: Id,
    pub routing_table: RoutingTable,
    pub k: usize,
    /// Requests awaiting an answer, by nonce.
    pub pending_requests: IdMap<PendingRequest>,
    /// Lookups in progress, by target.
    pub active_lookups: IdMap<NodeLookup>,
    /// Finished lookups, by target.
    pub completed_lookups: IdMap<LookupResult>,
    /// The values this node stores, by key.
    pub store: IdMap<ValueEntry>,
    /// Values this node is publishing whose closest nodes are being looked up.
    pub active_stores: IdMap<ActiveStoreEntry>,
    /// For each published key, the contacts that confirmed storing it.
    pub completed_stores: IdMap<Vec<Contact>>,
    /// The first self-lookup has not finished yet; once it does, every
    /// empty bucket is refreshed.
    pub init_refresh_needed: bool,
}

/// The contact a pending request was sent to.
pub open spec fn recipient_of(req: PendingRequest) -> Contact {
    match req {
        PendingRequest::Ping { recipient, .. } => recipient,
        PendingRequest::EvictionCheck { recipient, .. } => recipient,
        PendingRequest::FindNode { recipient, .. } => recipient,
        PendingRequest::FindValue { recipient, .. } => recipient,
        PendingRequest::Store { recipient, .. } => recipient,
    }
}

/// No contact that a request names has the identifier `own`.
pub open spec fn request_avoids(req: PendingRequest, own: Id) -> bool {
    &&& recipient_of(req).id != own
    &&& req matches PendingRequest::EvictionCheck { candidate, .. } ==> candidate.id != own
}

/// A lookup is keyed by its target, and its shortlist is sorted by
/// distance to the target; neither the shortlist nor the closest node
/// without the value is `own`.
pub open spec fn lookup_consistent(l: NodeLookup, target: Id, own: Id) -> bool {
    &&& l.target == target
    &&& sorted_by_distance(l.shortlist@, target)
    &&& forall|i: int| 0 <= i < l.shortlist@.len() ==> #[trigger] l.shortlist@[i].id != own
    &&& l.closest_without_value matches Some(c) ==> c.id != own
}

/// A result of contacts is sorted by distance to the key it was looked up
/// for.
pub open spec fn result_sorted(r: LookupResult, key: Id) -> bool {
    r matches LookupResult::Contacts(c) ==> sorted_by_distance(c@, key)
}

/// What the node does once a message has been handed to the network.
pub enum SendFollowUp {
    /// A reply: nothing to record.
    Reply,
    /// A request: once sent it is recorded as pending under `nonce`.
    /// When `required`, a failure to send is fatal.
    Await { nonce: Id, request: PendingRequest, required: bool },
    /// A ping to the least recently seen contact of a full bucket: once sent
    /// it is recorded as pending; if it cannot be sent, `recipient` is
    /// evicted and `candidate` added in its place.
    EvictionCheck { nonce: Id, candidate: Contact, recipient: Contact },
}

/// A message to send, and what to do once it is sent.
pub struct Outgoing {
    pub message: Message,
    pub follow_up: SendFollowUp,
}

/// The contacts that a follow-up names avoid the identifier `own`.
pub open spec fn follow_up_avoids(f: SendFollowUp, own: Id) -> bool {
    match f {
        SendFollowUp::Reply => true,
        SendFollowUp::Await { request, .. } => request_avoids(request, own),
        SendFollowUp::EvictionCheck { candidate, recipient, .. } => candidate.id != own && recipient.id != own,
    }
}

/// Every follow-up of `out` avoids `own`.
pub open spec fn outgoing_avoids(out: Seq<Outgoing>, own: Id) -> bool {
    forall|i: int| 0 <= i < out.len() ==> follow_up_avoids(#[trigger] out[i].follow_up, own)
}

impl KademliaNode {
    /// The node's state is consistent: the routing table belongs to the
    /// node, has its 160 buckets with every contact in its bucket; no
    /// request or lookup names the node itself; shortlists and lookup
    /// results list their contacts closest first.
    pub open spec fn wf(&self) -> bool {
        &&& self.routing_table.wf()
        &&& self.routing_table.placed()
        &&& self.routing_table.node_id == self.id
        &&& self.routing_table.k == self.k
        &&& forall|n: Id| #[trigger] self.pending_requests@.dom().contains(n)
            ==> request_avoids(self.pending_requests@[n], self.id)
        &&& forall|t: Id| #[trigger] self.active_lookups@.dom().contains(t)
            ==> lookup_consistent(self.active_lookups@[t], t, self.id)
        &&& forall|t: Id| #[trigger] self.completed_lookups@.dom().contains(t)
            ==> result_sorted(self.completed_lookups@[t], t)
    }

    /// A new node with identifier `id` (random when `None`) and bucket size
    /// `k` (20 when `None`), with an empty routing table and no requests,
    /// lookups or values.
    pub fn new(id: Option<Id>, k: Option<usize>) -> (r: KademliaNode)
        ensures
            r.wf(),
            id matches Some(given) ==> r.id == given,
            r.k == match k { Some(given) => given, None => K_DEFAULT },
            forall|i: int| 0 <= i < 160 ==> #[trigger] r.routing_table.bucket(i) == Seq::<Contact>::empty(),
            r.routing_table.unique(),
            r.routing_table.within_capacity(),
            r.pending_requests@ == Map::<Id, PendingRequest>::empty(),
            r.active_lookups@ == Map::<Id, NodeLookup>::empty(),
            r.completed_lookups@ == Map::<Id, LookupResult>::empty(),
            r.store@ == Map::<Id, ValueEntry>::empty(),
            r.active_stores@ == Map::<Id, ActiveStoreEntry>::empty(),
            r.completed_stores@ == Map::<Id, Vec<Contact>>::empty(),
            r.init_refresh_needed,
    {
        let id = match id {
            Some(given) => given,
            None => Id::generate_id(),
        };
        let k = match k {
            Some(given) => given,
            None => K_DEFAULT,
        };
        KademliaNode {
            id,
            routing_table: RoutingTable::new(id, k),
            k,
            pending_requests: IdMap::new(),
            active_lookups: IdMap::new(),
            completed_lookups: IdMap::new(),
            store: IdMap::new(),
            active_stores: IdMap::new(),
            completed_stores: IdMap::new(),
            init_refresh_needed: true,
        }
    }
}

/// `o` is the request of a lookup of kind `kind` for `target` sent to `c`
/// by node `own`, awaited under its nonce; failing to send it is fatal.
pub open spec fn query_for(o: Outgoing, own: Id, kind: LookupType, target: Id, c: Contact) -> bool {
    &&& o.message.dest == c.addr
    &&& o.follow_up matches SendFollowUp::Await { nonce, request, required } && required && match kind {
        LookupType::FindNode => {
            &&& o.message.packet == Packet::FindNodeRequest(FindNodeRequest { header: header_of(own, nonce), target })
            &&& request matches PendingRequest::FindNode { target: t, recipient, .. } && t == target && recipient == c
        },
        LookupType::FindValue => {
            &&& o.message.packet == Packet::FindValueRequest(FindValueRequest { header: header_of(own, nonce), target })
            &&& request matches PendingRequest::FindValue { target: t, recipient, .. } && t == target && recipient == c
        },
    }
}

/// `n1` is `n0` after starting a lookup of kind `kind` for `target`, `out`
/// being the requests sent: a value lookup for a key `n0` stores completes
/// at once with that value; otherwise a fresh lookup over `n0`'s table
/// replaces any lookup of the target.
pub open spec fn lookup_started(n0: KademliaNode, n1: KademliaNode, kind: LookupType, target: Id, out: Seq<Outgoing>) -> bool {
    &&& same_but_lookups(n0, n1)
    &&& if kind == LookupType::FindValue && n0.store@.dom().contains(target) {
        &&& out.len() == 0
        &&& n1.active_lookups == n0.active_lookups
        &&& n1.completed_lookups@.dom() == n0.completed_lookups@.dom().insert(target)
        &&& n1.completed_lookups@.remove(target) == n0.completed_lookups@.remove(target)
        &&& n1.completed_lookups@[target] matches LookupResult::Value(v, t)
            && v@ == n0.store@[target].value@ && t == n0.store@[target].original_publish_time
    } else {
        &&& n1.completed_lookups == n0.completed_lookups
        &&& n1.active_lookups@.dom() == n0.active_lookups@.dom().insert(target)
        &&& n1.active_lookups@.remove(target) == n0.active_lookups@.remove(target)
        &&& fresh_lookup(n1.active_lookups@[target], kind, target, n0.routing_table.all_contacts())
        &&& queries_for(out, n0.id, kind, target, n1.active_lookups@[target].shortlist@)
    }
}

/// Every message of `out` is the request for the matching contact of `cs`.
pub open spec fn queries_for(out: Seq<Outgoing>, own: Id, kind: LookupType, target: Id, cs: Seq<Contact>) -> bool {
    &&& out.len() == cs.len()
    &&& forall|j: int| 0 <= j < out.len() ==> query_for(#[trigger] out[j], own, kind, target, cs[j])
}

/// `n1` is `n0` except, possibly, for the lookups in progress and the
/// completed lookups.
pub open spec fn same_but_lookups(n0: KademliaNode, n1: KademliaNode) -> bool {
    &&& n1.id == n0.id
    &&& n1.k == n0.k
    &&& n1.routing_table == n0.routing_table
    &&& n1.pending_requests == n0.pending_requests
    &&& n1.store == n0.store
    &&& n1.active_stores == n0.active_stores
    &&& n1.completed_stores == n0.completed_stores
    &&& n1.init_refresh_needed == n0.init_refresh_needed
}

/// `l` is a fresh lookup of kind `kind` for `target` from the table whose
/// contacts are `all`, with its first round sent.
pub open spec fn fresh_lookup(l: NodeLookup, kind: LookupType, target: Id, all: Seq<Contact>) -> bool {
    &&& l.lookup_type == kind
    &&& l.target == target
    &&& closest_of(all, target, ALPHA as int, l.shortlist@)
    &&& exists|m: int| first_closest(l.shortlist@, target, m) && l.closest_node == l.shortlist@[m]
    &&& l.old_closest_node == l.closest_node
    &&& l.closest_without_value is None
    &&& with_ids_of(Set::<Id>::empty(), l.queried@, l.shortlist@)
    &&& with_ids_of(Set::<Id>::empty(), l.pending@, l.shortlist@)
}

proof fn lemma_filter_keeps_all(s: Seq<Contact>, pred: spec_fn(Contact) -> bool)
    requires
        forall|i: int| 0 <= i < s.len() ==> pred(#[trigger] s[i]),
    ensures
        s.filter(pred) == s,
    decreases s.len(),
{
    reveal(Seq::filter);
    if s.len() > 0 {
        lemma_filter_keeps_all(s.drop_last(), pred);
        assert(s.drop_last().push(s.last()) =~= s);
    }
}

impl KademliaNode {
    /// How long a replica of `key` is kept: as long as an original
    /// publication, 24 hours.
    pub fn calculate_expiration(&self, key: Id) -> (r: Duration)
        ensures
            r == secs_duration(VALUE_LIFETIME_SECS),
    {
        duration_from_secs(VALUE_LIFETIME_SECS)
    }

    /// Records the outcome of handing a message to the network: a sent
    /// request becomes pending under its nonce; an eviction ping that could
    /// not be sent evicts its recipient and adds the candidate instead.
    pub fn complete_send(&mut self, follow_up: SendFollowUp, sent: bool)
        requires
            old(self).wf(),
            follow_up_avoids(follow_up, old(self).id),
        ensures
            final(self).wf(),
            final(self).id == old(self).id,
            final(self).k == old(self).k,
            final(self).active_lookups == old(self).active_lookups,
            final(self).completed_lookups == old(self).completed_lookups,
            final(self).store == old(self).store,
            final(self).active_stores == old(self).active_stores,
            final(self).completed_stores == old(self).completed_stores,
            final(self).init_refresh_needed == old(self).init_refresh_needed,
            match follow_up {
                SendFollowUp::Reply => final(self).routing_table == old(self).routing_table
                    && final(self).pending_requests == old(self).pending_requests,
                SendFollowUp::Await { nonce, request, .. } => {
                    &&& final(self).routing_table == old(self).routing_table
                    &&& sent ==> final(self).pending_requests@ == old(self).pending_requests@.insert(nonce, request)
                    &&& !sent ==> final(self).pending_requests == old(self).pending_requests
                },
                SendFollowUp::EvictionCheck { nonce, candidate, recipient } => if sent {
                    &&& final(self).routing_table == old(self).routing_table
                    &&& final(self).pending_requests@.dom() == old(self).pending_requests@.dom().insert(nonce)
                    &&& final(self).pending_requests@.remove(nonce) == old(self).pending_requests@.remove(nonce)
                    &&& final(self).pending_requests@[nonce] matches PendingRequest::EvictionCheck { candidate: c, recipient: r, .. }
                        && c == candidate && r == recipient
                } else {
                    &&& final(self).pending_requests == old(self).pending_requests
                    &&& exists|t: RoutingTable| contact_evicted(old(self).routing_table, t, recipient)
                        && contact_appended(t, final(self).routing_table, candidate)
                },
            },
    {
        match follow_up {
            SendFollowUp::Reply => {},
            SendFollowUp::Await { nonce, request, required: _ } => {
                if sent {
                    self.pending_requests.insert(nonce, request);
                }
            },
            SendFollowUp::EvictionCheck { nonce, candidate, recipient } => {
                if sent {
                    let request = PendingRequest::EvictionCheck { candidate, recipient, sent_at: instant_now() };
                    self.pending_requests.insert(nonce, request);
                    assert(self.pending_requests@.remove(nonce) =~= old(self).pending_requests@.remove(nonce));
                } else {
                    self.routing_table.evict(recipient);
                    let ghost t = self.routing_table;
                    self.routing_table.add(candidate);
                }
            },
        }
    }

    /// Starts a lookup of `target`. A value lookup for a key this node
    /// stores completes at once with the stored value. Otherwise the lookup
    /// starts from the `ALPHA` contacts of the table closest to the target,
    /// all of which are queried; the returned messages are those requests.
    pub fn lookup(&mut self, lookup_type: LookupType, target: Id) -> (out: Vec<Outgoing>)
        requires
            old(self).wf(),
            old(self).routing_table.all_contacts().len() > 0
                || (lookup_type == LookupType::FindValue && old(self).store@.dom().contains(target)),
        ensures
            final(self).wf(),
            lookup_started(*old(self), *final(self), lookup_type, target, out@),
            outgoing_avoids(out@, old(self).id),
    {
        if lookup_type == LookupType::FindValue {
            match self.store.get(&target) {
                Some(entry) => {
                    let value = entry.value.clone();
                    assert(value@ =~= entry.value@);
                    let result = LookupResult::Value(value, entry.original_publish_time);
                    self.completed_lookups.insert(target, result);
                    assert(self.completed_lookups@.remove(target) =~= old(self).completed_lookups@.remove(target));
                    return Vec::new();
                },
                None => {},
            }
        }
        let closest_contacts = self.routing_table.get_closest_contacts(target, ALPHA);
        proof {
            crate::routing::lemma_closest_members(self.routing_table.all_contacts(), target, ALPHA as int, closest_contacts@);
            lemma_all_contacts_avoid_own(self.routing_table);
        }
        let mut lookup_state = NodeLookup::new(lookup_type, target, closest_contacts);
        let ghost l0 = lookup_state;
        let to_query = lookup_state.start_round(ALPHA);
        proof {
            lemma_filter_keeps_all(l0.shortlist@, |c: Contact| !Set::<Id>::empty().contains(c.id));
            assert(to_query@ == l0.shortlist@);
        }
        let mut out: Vec<Outgoing> = Vec::new();
        let mut j: usize = 0;
        while j < to_query.len()
            invariant
                j <= to_query@.len(),
                to_query@ == lookup_state.shortlist@,
                forall|i: int| 0 <= i < to_query@.len() ==> #[trigger] to_query@[i].id != self.id,
                out@.len() == j,
                forall|i: int| 0 <= i < j ==> query_for(#[trigger] out@[i], self.id, lookup_type, target, to_query@[i]),
                forall|i: int| 0 <= i < j ==> follow_up_avoids(#[trigger] out@[i].follow_up, self.id),
            decreases to_query@.len() - j,
        {
            let contact = to_query[j];
            let nonce = Id::generate_id();
            let o = match lookup_type {
                LookupType::FindNode => Outgoing {
                    message: send_find_node(self, contact.addr, nonce, target),
                    follow_up: SendFollowUp::Await {
                        nonce,
                        request: PendingRequest::FindNode { target, recipient: contact, sent_at: instant_now() },
                        required: true,
                    },
                },
                LookupType::FindValue => Outgoing {
                    message: send_find_value(self, contact.addr, nonce, target),
                    follow_up: SendFollowUp::Await {
                        nonce,
                        request: PendingRequest::FindValue { target, recipient: contact, sent_at: instant_now() },
                        required: true,
                    },
                },
            };
            out.push(o);
            j = j + 1;
        }
        self.active_lookups.insert(target, lookup_state);
        proof {
            assert(self.active_lookups@.remove(target) =~= old(self).active_lookups@.remove(target));
            assert forall|t: Id| #[trigger] self.active_lookups@.dom().contains(t)
                implies lookup_consistent(self.active_lookups@[t], t, self.id) by {
                if t != target {
                    assert(old(self).active_lookups@.dom().contains(t));
                }
            }
        }
        out
    }
}

/// No contact of a well-formed node's table has the node's identifier.
proof fn lemma_all_contacts_avoid_own(t: RoutingTable)
    requires
        t.wf(),
        t.placed(),
    ensures
        forall|i: int| 0 <= i < t.all_contacts().len() ==> #[trigger] t.all_contacts()[i].id != t.node_id,
{
    lemma_prefix_contacts_avoid_own(t, 160);
    assert(t.buckets@.subrange(0, 160) =~= t.buckets@);
}

proof fn lemma_prefix_contacts_avoid_own(t: RoutingTable, n: int)
    requires
        t.wf(),
        t.placed(),
        0 <= n <= 160,
    ensures
        forall|i: int| 0 <= i < crate::routing::table_contacts(t.buckets@.subrange(0, n)).len()
            ==> #[trigger] crate::routing::table_contacts(t.buckets@.subrange(0, n))[i].id != t.node_id,
    decreases n,
{
    if n > 0 {
        lemma_prefix_contacts_avoid_own(t, n - 1);
        let s = t.buckets@.subrange(0, n);
        assert(s.drop_last() =~= t.buckets@.subrange(0, n - 1));
        let front = crate::routing::table_contacts(t.buckets@.subrange(0, n - 1));
        let back = t.bucket(n - 1);
        assert forall|i: int| 0 <= i < (front + back).len() implies #[trigger] (front + back)[i].id != t.node_id by {
            if i >= front.len() {
                crate::routing::lemma_placed_avoids_own(t, n - 1, i - front.len());
            }
        }
    }
}

/// `o` is a STORE of `key`, `value` and `time` sent by `own` to `c`,
/// awaited under its nonce; failing to send it is not fatal.
pub open spec fn store_for(o: Outgoing, own: Id, key: Id, value: Seq<u8>, time: i64, c: Contact) -> bool {
    &&& o.message.dest == c.addr
    &&& o.message.packet matches Packet::StoreRequest(req) && req.key == key && req.value@ == value
        && req.original_publish_time == time
    &&& o.follow_up matches SendFollowUp::Await { nonce, request, required } && !required
        && (o.message.packet matches Packet::StoreRequest(req) && req.header == header_of(own, nonce))
        && (request matches PendingRequest::Store { recipient, .. } && recipient == c)
}

/// `k` is the key a value is published under: the given key, or the
/// SHA-1 digest of the value.
pub open spec fn key_for_value(key: Option<Id>, value: Seq<u8>, k: Id) -> bool {
    match key {
        Some(given) => k == given,
        None => k.id@ == crate::id::sha1_digest(value),
    }
}

/// `n1` is `n0` after publishing `value` under `k` at UNIX time `time`, `out`
/// being the messages of the lookup started for `k`: the value is stored
/// locally, as original publisher, for 24 hours, and recorded as being
/// published.
pub open spec fn published(n0: KademliaNode, n1: KademliaNode, k: Id, value: Seq<u8>, time: i64, out: Seq<Outgoing>) -> bool {
    &&& n1.id == n0.id
    &&& n1.k == n0.k
    &&& n1.routing_table == n0.routing_table
    &&& n1.pending_requests == n0.pending_requests
    &&& n1.completed_lookups == n0.completed_lookups
    &&& n1.completed_stores == n0.completed_stores
    &&& n1.init_refresh_needed == n0.init_refresh_needed
    &&& n1.store@.dom().contains(k)
    &&& n1.store@.remove(k) == n0.store@.remove(k)
    &&& n1.store@[k].value@ == value
    &&& n1.store@[k].is_original_publisher
    &&& n1.store@[k].expiration == secs_duration(VALUE_LIFETIME_SECS)
    &&& n1.active_stores@.dom().contains(k)
    &&& n1.active_stores@.remove(k) == n0.active_stores@.remove(k)
    &&& n1.active_stores@[k].value@ == value
    &&& n1.store@[k].original_publish_time == time
    &&& n1.active_stores@[k].original_publish_time == time
    &&& n1.active_lookups@.dom() == n0.active_lookups@.dom().insert(k)
    &&& n1.active_lookups@.remove(k) == n0.active_lookups@.remove(k)
    &&& fresh_lookup(n1.active_lookups@[k], LookupType::FindNode, k, n0.routing_table.all_contacts())
    &&& queries_for(out, n0.id, LookupType::FindNode, k, n1.active_lookups@[k].shortlist@)
}

impl KademliaNode {
    /// Sends a STORE of `key` with the entry's value and publication time to
    /// each contact, in order; none when the value is too large to send.
    pub fn send_stores(&mut self, contacts: Vec<Contact>, key: Id, active_store_entry: ActiveStoreEntry) -> (out: Vec<Outgoing>)
        requires
            old(self).wf(),
            forall|i: int| 0 <= i < contacts@.len() ==> #[trigger] contacts@[i].id != old(self).id,
        ensures
            *final(self) == *old(self),
            outgoing_avoids(out@, old(self).id),
            active_store_entry.value@.len() > MAX_VALUE_SIZE ==> out@.len() == 0,
            active_store_entry.value@.len() <= MAX_VALUE_SIZE ==> {
                &&& out@.len() == contacts@.len()
                &&& forall|j: int| 0 <= j < out@.len() ==> store_for(#[trigger] out@[j], old(self).id, key,
                    active_store_entry.value@, active_store_entry.original_publish_time, contacts@[j])
            },
    {
        let mut out: Vec<Outgoing> = Vec::new();
        let mut j: usize = 0;
        while j < contacts.len()
            invariant
                j <= contacts@.len(),
                forall|i: int| 0 <= i < contacts@.len() ==> #[trigger] contacts@[i].id != self.id,
                active_store_entry.value@.len() > MAX_VALUE_SIZE ==> out@.len() == 0,
                active_store_entry.value@.len() <= MAX_VALUE_SIZE ==> out@.len() == j,
                forall|i: int| 0 <= i < out@.len() ==> store_for(#[trigger] out@[i], self.id, key,
                    active_store_entry.value@, active_store_entry.original_publish_time, contacts@[i]),
                forall|i: int| 0 <= i < out@.len() ==> follow_up_avoids(#[trigger] out@[i].follow_up, self.id),
            decreases contacts@.len() - j,
        {
            let c = contacts[j];
            let nonce = Id::generate_id();
            let value = active_store_entry.value.clone();
            assert(value@ =~= active_store_entry.value@);
            match send_store(self, c.addr, nonce, key, value, active_store_entry.original_publish_time) {
                Ok(message) => {
                    out.push(Outgoing {
                        message,
                        follow_up: SendFollowUp::Await {
                            nonce,
                            request: PendingRequest::Store { recipient: c, sent_at: instant_now() },
                            required: false,
                        },
                    });
                },
                Err(_) => {},
            }
            j = j + 1;
        }
        out
    }

    /// Joins the network through a known node: adds it to the routing table
    /// and looks up this node's own identifier.
    pub fn join(&mut self, join_addr: PeerAddr, join_id: Id) -> (out: Vec<Outgoing>)
        requires
            old(self).wf(),
            join_id != old(self).id,
        ensures
            final(self).wf(),
            contact_appended(old(self).routing_table, final(self).routing_table, Contact { addr: join_addr, id: join_id }),
            final(self).id == old(self).id,
            final(self).k == old(self).k,
            final(self).pending_requests == old(self).pending_requests,
            final(self).store == old(self).store,
            final(self).active_stores == old(self).active_stores,
            final(self).completed_stores == old(self).completed_stores,
            final(self).completed_lookups == old(self).completed_lookups,
            final(self).init_refresh_needed == old(self).init_refresh_needed,
            final(self).active_lookups@.dom() == old(self).active_lookups@.dom().insert(old(self).id),
            final(self).active_lookups@.remove(old(self).id) == old(self).active_lookups@.remove(old(self).id),
            fresh_lookup(final(self).active_lookups@[old(self).id], LookupType::FindNode, old(self).id,
                final(self).routing_table.all_contacts()),
            queries_for(out@, old(self).id, LookupType::FindNode, old(self).id,
                final(self).active_lookups@[old(self).id].shortlist@),
            outgoing_avoids(out@, old(self).id),
    {
        let join_contact = Contact { addr: join_addr, id: join_id };
        self.routing_table.add(join_contact);
        proof {
            crate::routing::lemma_bucket_of_range(old(self).id, join_id);
            lemma_appended_nonempty(old(self).routing_table, self.routing_table, join_contact);
        }
        let own = self.id;
        self.lookup(LookupType::FindNode, own)
    }

    /// Publishes `value` under `key` (the SHA-1 digest of the value when
    /// `None`) at the current UNIX time, read from the clock; see `store_at`.
    pub fn store(&mut self, key: Option<Id>, value: Vec<u8>) -> (out: Vec<Outgoing>)
        requires
            old(self).wf(),
            value@.len() > MAX_VALUE_SIZE || old(self).routing_table.all_contacts().len() > 0,
        ensures
            final(self).wf(),
            value@.len() > MAX_VALUE_SIZE ==> *final(self) == *old(self) && out@.len() == 0,
            value@.len() <= MAX_VALUE_SIZE ==> exists|k: Id, now: i64|
                #![trigger published(*old(self), *final(self), k, value@, now, out@)]
                key_for_value(key, value@, k) && published(*old(self), *final(self), k, value@, now, out@),
            outgoing_avoids(out@, old(self).id),
    {
        let now = unix_time_now();
        self.store_at(key, value, now)
    }

    /// Publishes `value` under `key` (the SHA-1 digest of the value when
    /// `None`) at UNIX time `now`: stores it locally as original publisher,
    /// records it as being published, and looks up the nodes closest to the
    /// key. A value larger than `MAX_VALUE_SIZE` bytes is refused and nothing
    /// changes.
    pub fn store_at(&mut self, key: Option<Id>, value: Vec<u8>, now: i64) -> (out: Vec<Outgoing>)
        requires
            old(self).wf(),
            value@.len() > MAX_VALUE_SIZE || old(self).routing_table.all_contacts().len() > 0,
        ensures
            final(self).wf(),
            value@.len() > MAX_VALUE_SIZE ==> *final(self) == *old(self) && out@.len() == 0,
            value@.len() <= MAX_VALUE_SIZE ==> exists|k: Id|
                #![trigger key_for_value(key, value@, k)]
                key_for_value(key, value@, k) && published(*old(self), *final(self), k, value@, now, out@),
            outgoing_avoids(out@, old(self).id),
    {
        if value.len() > MAX_VALUE_SIZE {
            return Vec::new();
        }
        let ghost key_opt_ghost = key;
        let key = match key {
            Some(given) => given,
            None => {
                let copy = value.clone();
                assert(copy@ =~= value@);
                Id::hash_value(copy)
            },
        };
        let local_copy = value.clone();
        assert(local_copy@ =~= value@);
        self.store.insert(key, ValueEntry {
            value: local_copy,
            is_original_publisher: true,
            original_publish_time: now,
            last_republish_time: instant_now(),
            expiration: duration_from_secs(VALUE_LIFETIME_SECS),
        });
        self.active_stores.insert(key, ActiveStoreEntry { value, original_publish_time: now });
        proof {
            assert(self.store@.remove(key) =~= old(self).store@.remove(key));
            assert(self.active_stores@.remove(key) =~= old(self).active_stores@.remove(key));
        }
        let out = self.lookup(LookupType::FindNode, key);
        assert(key_for_value(key_opt_ghost, value@, key));
        out
    }
}

proof fn lemma_appended_nonempty(t0: RoutingTable, t1: RoutingTable, c: Contact)
    requires
        t0.wf(),
        t1.wf(),
        contact_appended(t0, t1, c),
        0 <= crate::routing::bucket_of(t0.node_id, c.id) < 160,
    ensures
        t1.all_contacts().len() > 0,
{
    let i = crate::routing::bucket_of(t0.node_id, c.id);
    lemma_bucket_in_all(t1, i, 160);
    assert(t1.buckets@.subrange(0, 160) =~= t1.buckets@);
}

proof fn lemma_bucket_in_all(t: RoutingTable, i: int, n: int)
    requires
        t.wf(),
        0 <= i < n <= 160,
    ensures
        crate::routing::table_contacts(t.buckets@.subrange(0, n)).len() >= t.bucket(i).len(),
    decreases n,
{
    let s = t.buckets@.subrange(0, n);
    assert(s.drop_last() =~= t.buckets@.subrange(0, n - 1));
    if i < n - 1 {
        lemma_bucket_in_all(t, i, n - 1);
    }
}

/// Some lookup of `n` targets an identifier in bucket `i` of `n`'s table and
/// is a fresh FIND_NODE lookup over the contacts `all`.
pub open spec fn refreshed(n: KademliaNode, i: int, all: Seq<Contact>) -> bool {
    exists|t: Id|
        #![trigger n.active_lookups@.dom().contains(t)]
        n.active_lookups@.dom().contains(t) && bucket_of(n.id, t) == i
            && fresh_lookup(n.active_lookups@[t], LookupType::FindNode, t, all)
}

/// `n1` is `n0` after refreshing the buckets `indices`: the table holds
/// the same contacts, every refreshed bucket has a fresh lookup of an
/// identifier in it, and every other lookup is unchanged unless a refresh
/// lookup replaced it.
pub open spec fn buckets_refreshed(n0: KademliaNode, n1: KademliaNode, indices: Seq<usize>) -> bool {
    &&& n1.id == n0.id
    &&& n1.k == n0.k
    &&& n1.routing_table.node_id == n0.routing_table.node_id
    &&& n1.routing_table.k == n0.routing_table.k
    &&& n1.routing_table.buckets@.len() == n0.routing_table.buckets@.len()
    &&& forall|b: int| 0 <= b < 160 ==> #[trigger] n1.routing_table.bucket(b) == n0.routing_table.bucket(b)
    &&& n1.pending_requests == n0.pending_requests
    &&& n1.completed_lookups == n0.completed_lookups
    &&& n1.store == n0.store
    &&& n1.active_stores == n0.active_stores
    &&& n1.completed_stores == n0.completed_stores
    &&& n1.init_refresh_needed == n0.init_refresh_needed
    &&& forall|q: int| 0 <= q < indices.len() ==> refreshed(n1, #[trigger] indices[q] as int, n0.routing_table.all_contacts())
    &&& forall|t: Id| #[trigger] n1.active_lookups@.dom().contains(t) ==> {
        ||| n0.active_lookups@.dom().contains(t) && n1.active_lookups@[t] == n0.active_lookups@[t]
        ||| (exists|q: int| 0 <= q < indices.len() && bucket_of(n0.id, t) == indices[q])
            && fresh_lookup(n1.active_lookups@[t], LookupType::FindNode, t, n0.routing_table.all_contacts())
    }
    &&& forall|t: Id| #[trigger] n0.active_lookups@.dom().contains(t) ==> n1.active_lookups@.dom().contains(t)
}

/// The keys of `keys`, in order, whose reading in `elapsed_ns` (matched by
/// position) is over `limit`.
pub open spec fn overdue_keys(keys: Seq<Id>, elapsed: Seq<u128>, limit: u128) -> Seq<Id>
    decreases keys.len(),
{
    if keys.len() == 0 {
        Seq::empty()
    } else {
        let rest = overdue_keys(keys.drop_last(), elapsed.take(keys.len() - 1), limit);
        if elapsed[keys.len() - 1] > limit {
            rest.push(keys.last())
        } else {
            rest
        }
    }
}

/// The keys of `keys`, in order, whose reading in `elapsed_ns` (matched by
/// position) is over `limit` nanoseconds.
pub fn overdue(keys: &Vec<Id>, elapsed_ns: &Vec<u128>, limit: u128) -> (r: Vec<Id>)
    requires
        keys@.len() == elapsed_ns@.len(),
        keys@.no_duplicates(),
    ensures
        r@ == overdue_keys(keys@, elapsed_ns@, limit),
        r@.no_duplicates(),
        forall|n: Id| #[trigger] r@.contains(n)
            <==> exists|i: int| 0 <= i < keys@.len() && keys@[i] == n && elapsed_ns@[i] > limit,
{
    let mut r: Vec<Id> = Vec::new();
    let mut i: usize = 0;
    assert(keys@.take(0) =~= Seq::<Id>::empty());
    while i < keys.len()
        invariant
            i <= keys@.len(),
            keys@.len() == elapsed_ns@.len(),
            keys@.no_duplicates(),
            r@ == overdue_keys(keys@.take(i as int), elapsed_ns@.take(i as int), limit),
            r@.no_duplicates(),
            forall|n: Id| #[trigger] r@.contains(n)
                <==> exists|j: int| 0 <= j < i && keys@[j] == n && elapsed_ns@[j] > limit,
        decreases keys@.len() - i,
    {
        let key = keys[i];
        let ghost r0 = r@;
        proof {
            let k1 = keys@.take(i + 1);
            assert(k1.drop_last() =~= keys@.take(i as int));
            assert(elapsed_ns@.take(i + 1).take(i as int) =~= elapsed_ns@.take(i as int));
            assert(k1.last() == key);
            assert(elapsed_ns@.take(i + 1)[i as int] == elapsed_ns@[i as int]);
        }
        if elapsed_ns[i] > limit {
            proof {
                if r0.contains(key) {
                    let j = choose|j: int| 0 <= j < i && keys@[j] == key && elapsed_ns@[j] > limit;
                    assert(keys@[j] == keys@[i as int]);
                }
            }
            r.push(key);
            proof {
                assert forall|a: int, b: int| 0 <= a < r@.len() && 0 <= b < r@.len() && a != b implies r@[a] != r@[b] by {
                    if a < r0.len() && b < r0.len() {
                    } else if a < r0.len() {
                        assert(r0.contains(r@[a]));
                    } else {
                        assert(r0.contains(r@[b]));
                    }
                }
            }
        }
        proof {
            assert forall|n: Id| #[trigger] r@.contains(n)
                <==> exists|j: int| 0 <= j < i + 1 && keys@[j] == n && elapsed_ns@[j] > limit by {
                if n != key {
                    assert(r@.contains(n) <==> r0.contains(n));
                    if exists|j: int| 0 <= j < i + 1 && keys@[j] == n && elapsed_ns@[j] > limit {
                        let j = choose|j: int| 0 <= j < i + 1 && keys@[j] == n && elapsed_ns@[j] > limit;
                        assert(j < i);
                    }
                } else if elapsed_ns@[i as int] > limit {
                    assert(r@[r0.len() as int] == n);
                } else {
                    if exists|j: int| 0 <= j < i + 1 && keys@[j] == n && elapsed_ns@[j] > limit {
                        let j = choose|j: int| 0 <= j < i + 1 && keys@[j] == n && elapsed_ns@[j] > limit;
                        assert(keys@[j] == keys@[i as int]);
                    }
                }
            }
        }
        i = i + 1;
    }
    assert(keys@.take(keys@.len() as int) =~= keys@);
    assert(elapsed_ns@.take(keys@.len() as int) =~= elapsed_ns@);
    r
}

/// The positions of `elapsed_ns`, in increasing order, whose reading is over
/// `limit` nanoseconds.
pub fn overdue_indices(elapsed_ns: &Vec<u128>, limit: u128) -> (r: Vec<usize>)
    ensures
        forall|q: int| 0 <= q < r@.len() ==> #[trigger] r@[q] < elapsed_ns@.len(),
        forall|p: int, q: int| 0 <= p < q < r@.len() ==> r@[p] < r@[q],
        forall|i: int| 0 <= i < elapsed_ns@.len()
            ==> (#[trigger] r@.contains(i as usize) <==> elapsed_ns@[i] > limit),
{
    let mut r: Vec<usize> = Vec::new();
    let mut i: usize = 0;
    while i < elapsed_ns.len()
        invariant
            i <= elapsed_ns@.len(),
            forall|q: int| 0 <= q < r@.len() ==> #[trigger] r@[q] < i,
            forall|p: int, q: int| 0 <= p < q < r@.len() ==> r@[p] < r@[q],
            forall|b: int| 0 <= b < i ==> (#[trigger] r@.contains(b as usize) <==> elapsed_ns@[b] > limit),
        decreases elapsed_ns@.len() - i,
    {
        let ghost r0 = r@;
        if elapsed_ns[i] > limit {
            r.push(i);
        }
        proof {
            assert(!r0.contains(i)) by {
                if r0.contains(i) {
                    let q = choose|q: int| 0 <= q < r0.len() && r0[q] == i;
                }
            }
            assert forall|b: int| 0 <= b < i + 1 implies (#[trigger] r@.contains(b as usize)
                <==> elapsed_ns@[b] > limit) by {
                if b < i {
                    assert(r@.contains(b as usize) <==> r0.contains(b as usize)) by {
                        if r@.contains(b as usize) && !r0.contains(b as usize) {
                            let q = choose|q: int| 0 <= q < r@.len() && r@[q] == b as usize;
                        }
                    }
                } else if elapsed_ns@[i as int] > limit {
                    assert(r@[r0.len() as int] == i);
                }
            }
        }
        i = i + 1;
    }
    r
}

/// The empty buckets among the first `n` of table `t`, in increasing order.
pub open spec fn empty_buckets_below(t: RoutingTable, n: nat) -> Seq<usize>
    decreases n,
{
    if n == 0 {
        Seq::empty()
    } else {
        let rest = empty_buckets_below(t, (n - 1) as nat);
        if t.bucket(n - 1).len() == 0 {
            rest.push((n - 1) as usize)
        } else {
            rest
        }
    }
}

/// The empty buckets of table `t`, in increasing order.
pub open spec fn empty_buckets(t: RoutingTable) -> Seq<usize> {
    empty_buckets_below(t, 160)
}

/// The empty buckets below `n` are the indices below `n` of the buckets
/// that hold no contact.
pub proof fn lemma_empty_buckets_below(t: RoutingTable, n: nat)
    requires
        n <= 160,
    ensures
        forall|q: int| 0 <= q < empty_buckets_below(t, n).len() ==> #[trigger] empty_buckets_below(t, n)[q] < n
            && t.bucket(empty_buckets_below(t, n)[q] as int).len() == 0,
        forall|i: int| 0 <= i < n && t.bucket(i).len() == 0 ==> empty_buckets_below(t, n).contains(i as usize),
    decreases n,
{
    if n > 0 {
        lemma_empty_buckets_below(t, (n - 1) as nat);
        let rest = empty_buckets_below(t, (n - 1) as nat);
        let all = empty_buckets_below(t, n);
        assert forall|q: int| 0 <= q < all.len() implies #[trigger] all[q] < n && t.bucket(all[q] as int).len() == 0 by {
            if q < rest.len() {
                assert(all[q] == rest[q]);
            }
        }
        assert forall|i: int| 0 <= i < n && t.bucket(i).len() == 0 implies all.contains(i as usize) by {
            if i < n - 1 {
                let q = choose|q: int| 0 <= q < rest.len() && rest[q] == i as usize;
                assert(all[q] == i as usize);
            } else {
                assert(all[rest.len() as int] == i as usize);
            }
        }
    }
}

/// `part` is the requests of a FIND_NODE lookup of an identifier in bucket
/// `i` of node `own`, sent to the `ALPHA` contacts of `all` closest to that
/// identifier, and nothing else.
pub open spec fn refresh_queries(part: Seq<Outgoing>, own: Id, i: int, all: Seq<Contact>) -> bool {
    exists|t: Id, r: Seq<Contact>|
        #![trigger queries_for(part, own, LookupType::FindNode, t, r)]
        bucket_of(own, t) == i && closest_of(all, t, ALPHA as int, r) && queries_for(part, own, LookupType::FindNode, t, r)
}

/// `out` is, in order, the refresh requests of the buckets `indices`.
pub open spec fn refreshes_sent(out: Seq<Outgoing>, own: Id, indices: Seq<usize>, all: Seq<Contact>) -> bool {
    exists|parts: Seq<Seq<Outgoing>>|
        #![trigger parts.flatten(), parts.len()]
        parts.len() == indices.len() && out == parts.flatten()
            && forall|q: int| 0 <= q < parts.len() ==> refresh_queries(#[trigger] parts[q], own, indices[q] as int, all)
}

impl KademliaNode {
    /// Refreshes bucket `bucket_index`: looks up a random identifier that
    /// falls into it, and marks the bucket as just updated.
    pub fn refresh_bucket(&mut self, bucket_index: usize) -> (out: Vec<Outgoing>)
        requires
            old(self).wf(),
            bucket_index < 160,
            old(self).routing_table.all_contacts().len() > 0,
        ensures
            final(self).wf(),
            buckets_refreshed(*old(self), *final(self), seq![bucket_index]),
            refresh_queries(out@, old(self).id, bucket_index as int, old(self).routing_table.all_contacts()),
            outgoing_avoids(out@, old(self).id),
    {
        let id = Id::generate_id_in_bucket(self.id, bucket_index);
        proof {
            law_bucket_of_generated_id(self.id, id, bucket_index as int);
        }
        let out = self.lookup(LookupType::FindNode, id);
        let ghost before = self.routing_table;
        self.routing_table.buckets[bucket_index].last_update = instant_now();
        proof {
            assert forall|b: int| 0 <= b < 160 implies #[trigger] self.routing_table.bucket(b) == before.bucket(b) by {
                if b != bucket_index {
                    assert(self.routing_table.buckets@[b] == before.buckets@[b]);
                }
            }
            crate::routing::lemma_same_contacts(self.routing_table.buckets@, before.buckets@);
            assert(self.active_lookups@.dom().contains(id));
            assert(refreshed(*self, seq![bucket_index][0] as int, old(self).routing_table.all_contacts()));
            assert forall|t: Id| #[trigger] self.active_lookups@.dom().contains(t) implies {
                ||| old(self).active_lookups@.dom().contains(t) && self.active_lookups@[t] == old(self).active_lookups@[t]
                ||| (exists|q: int| 0 <= q < 1 && bucket_of(old(self).id, t) == seq![bucket_index][q])
                    && fresh_lookup(self.active_lookups@[t], LookupType::FindNode, t, old(self).routing_table.all_contacts())
            } by {
                if t == id {
                    let q = 0int;
                    assert(0 <= q < 1 && bucket_of(old(self).id, t) == seq![bucket_index][q]);
                    assert(fresh_lookup(self.active_lookups@[t], LookupType::FindNode, t, old(self).routing_table.all_contacts()));
                } else {
                    assert(self.active_lookups@.remove(id).dom().contains(t));
                    assert(old(self).active_lookups@.remove(id).dom().contains(t));
                    assert(self.active_lookups@.remove(id)[t] == self.active_lookups@[t]);
                    assert(old(self).active_lookups@.remove(id)[t] == old(self).active_lookups@[t]);
                }
            }
            assert forall|t: Id| #[trigger] old(self).active_lookups@.dom().contains(t) implies self.active_lookups@.dom().contains(t) by {
                assert(old(self).active_lookups@.remove(id).dom().contains(t) || t == id);
            }
            let r = self.active_lookups@[id].shortlist@;
            assert(queries_for(out@, old(self).id, LookupType::FindNode, id, r));
            assert(closest_of(old(self).routing_table.all_contacts(), id, ALPHA as int, r));
        }
        out
    }
}

/// An identifier whose first `i` bits are those of the node and whose bit
/// `i` differs falls into bucket `i`.
pub proof fn law_bucket_of_generated_id(node_id: Id, id: Id, i: int)
    requires
        0 <= i < 160,
        forall|j: int| 0 <= j < i ==> #[trigger] crate::id::bit_at(id.id@, j) == crate::id::bit_at(node_id.id@, j),
        crate::id::bit_at(id.id@, i) != crate::id::bit_at(node_id.id@, i),
    ensures
        bucket_of(node_id, id) == i,
{
    crate::id::lemma_xor_leading_zeros_at_first_difference(node_id.id@, id.id@, i);
    crate::id::lemma_leading_zero_bits(xor_seq_of(node_id, id));
    crate::id::lemma_leading_zero_count_unique(xor_seq_of(node_id, id), i, crate::id::leading_zero_bits(xor_seq_of(node_id, id)));
}

/// The distance of two identifiers as a byte string.
pub open spec fn xor_seq_of(a: Id, b: Id) -> Seq<u8> {
    crate::id::xor_seq(a.id@, b.id@)
}

proof fn lemma_same_table_contacts(n1: KademliaNode, n0: KademliaNode)
    requires
        n0.wf(),
        n1.routing_table.buckets@.len() == n0.routing_table.buckets@.len(),
        forall|b: int| 0 <= b < 160 ==> #[trigger] n1.routing_table.bucket(b) == n0.routing_table.bucket(b),
    ensures
        n1.routing_table.all_contacts() == n0.routing_table.all_contacts(),
{
    assert forall|i: int| 0 <= i < n1.routing_table.buckets@.len() implies #[trigger] n1.routing_table.buckets@[i].contacts@
        == n0.routing_table.buckets@[i].contacts@ by {
        assert(n1.routing_table.bucket(i) == n0.routing_table.bucket(i));
    }
    crate::routing::lemma_same_contacts(n1.routing_table.buckets@, n0.routing_table.buckets@);
}

proof fn lemma_buckets_refreshed_none(n: KademliaNode)
    requires
        n.wf(),
    ensures
        buckets_refreshed(n, n, Seq::<usize>::empty()),
{
}

proof fn lemma_buckets_refreshed_chain(n0: KademliaNode, n1: KademliaNode, n2: KademliaNode, ix: Seq<usize>, i: usize)
    requires
        n0.wf(),
        buckets_refreshed(n0, n1, ix),
        buckets_refreshed(n1, n2, seq![i]),
    ensures
        buckets_refreshed(n0, n2, ix.push(i)),
{
    lemma_same_table_contacts(n1, n0);
    let all = n0.routing_table.all_contacts();
    assert(n1.routing_table.all_contacts() == all);
    let iy = ix.push(i);
    assert forall|q: int| 0 <= q < iy.len() implies refreshed(n2, #[trigger] iy[q] as int, all) by {
        if q < ix.len() {
            assert(iy[q] == ix[q]);
            assert(refreshed(n1, ix[q] as int, all));
            let t = choose|t: Id|
                #![trigger n1.active_lookups@.dom().contains(t)]
                n1.active_lookups@.dom().contains(t) && bucket_of(n1.id, t) == ix[q] as int
                    && fresh_lookup(n1.active_lookups@[t], LookupType::FindNode, t, all);
            assert(n2.active_lookups@.dom().contains(t));
        } else {
            assert(iy[q] == seq![i][0]);
        }
    }
    assert forall|t: Id| #[trigger] n2.active_lookups@.dom().contains(t) implies {
        ||| n0.active_lookups@.dom().contains(t) && n2.active_lookups@[t] == n0.active_lookups@[t]
        ||| (exists|q: int| 0 <= q < iy.len() && bucket_of(n0.id, t) == iy[q])
            && fresh_lookup(n2.active_lookups@[t], LookupType::FindNode, t, all)
    } by {
        if n1.active_lookups@.dom().contains(t) && n2.active_lookups@[t] == n1.active_lookups@[t] {
            if !(n0.active_lookups@.dom().contains(t) && n1.active_lookups@[t] == n0.active_lookups@[t]) {
                let q = choose|q: int| 0 <= q < ix.len() && bucket_of(n0.id, t) == ix[q];
                assert(iy[q] == ix[q]);
            }
        } else {
            let q = choose|q: int| 0 <= q < 1 && bucket_of(n1.id, t) == seq![i][q];
            assert(iy[ix.len() as int] == i);
        }
    }
}

impl KademliaNode {
    /// Refreshes the buckets `indices`, in order.
    pub fn refresh_buckets(&mut self, indices: &Vec<usize>) -> (out: Vec<Outgoing>)
        requires
            old(self).wf(),
            forall|q: int| 0 <= q < indices@.len() ==> #[trigger] indices@[q] < 160,
            indices@.len() == 0 || old(self).routing_table.all_contacts().len() > 0,
        ensures
            final(self).wf(),
            buckets_refreshed(*old(self), *final(self), indices@),
            refreshes_sent(out@, old(self).id, indices@, old(self).routing_table.all_contacts()),
            outgoing_avoids(out@, old(self).id),
    {
        let mut out: Vec<Outgoing> = Vec::new();
        let mut j: usize = 0;
        proof {
            lemma_buckets_refreshed_none(*self);
            assert(indices@.take(0) =~= Seq::<usize>::empty());
            let parts = Seq::<Seq<Outgoing>>::empty();
            assert(out@ =~= parts.flatten());
            assert(refreshes_sent(out@, old(self).id, indices@.take(0), old(self).routing_table.all_contacts()));
        }
        while j < indices.len()
            invariant
                old(self).wf(),
                self.wf(),
                j <= indices@.len(),
                forall|q: int| 0 <= q < indices@.len() ==> #[trigger] indices@[q] < 160,
                indices@.len() == 0 || old(self).routing_table.all_contacts().len() > 0,
                buckets_refreshed(*old(self), *self, indices@.take(j as int)),
                refreshes_sent(out@, old(self).id, indices@.take(j as int), old(self).routing_table.all_contacts()),
                outgoing_avoids(out@, old(self).id),
            decreases indices@.len() - j,
        {
            let ghost before = *self;
            proof {
                lemma_same_table_contacts(*self, *old(self));
            }
            let more = self.refresh_bucket(indices[j]);
            proof {
                lemma_buckets_refreshed_chain(*old(self), before, *self, indices@.take(j as int), indices@[j as int]);
                assert(indices@.take(j as int).push(indices@[j as int]) =~= indices@.take(j + 1));
            }
            let mut m: usize = 0;
            while m < more.len()
                invariant
                    m <= more@.len(),
                    outgoing_avoids(more@, old(self).id),
                    outgoing_avoids(out@, old(self).id),
                decreases more@.len() - m,
            {
                proof {
                    assert(follow_up_avoids(more@[m as int].follow_up, old(self).id));
                }
                m = m + 1;
            }
            let mut more = more;
            let ghost out0 = out@;
            let ghost more0 = more@;
            out.append(&mut more);
            proof {
                assert forall|i: int| 0 <= i < out@.len() implies follow_up_avoids(#[trigger] out@[i].follow_up, old(self).id) by {
                    if i < out0.len() {
                        assert(out@[i] == out0[i]);
                    } else {
                        assert(out@[i] == more0[i - out0.len()]);
                    }
                }
                let all = old(self).routing_table.all_contacts();
                let ix = indices@.take(j as int);
                let parts = choose|parts: Seq<Seq<Outgoing>>|
                    #![trigger parts.flatten(), parts.len()]
                    parts.len() == ix.len() && out0 == parts.flatten()
                        && forall|q: int| 0 <= q < parts.len() ==> refresh_queries(#[trigger] parts[q], old(self).id, ix[q] as int, all);
                let parts1 = parts.push(more0);
                parts.lemma_flatten_push(more0);
                assert(out@ =~= parts1.flatten());
                assert forall|q: int| 0 <= q < parts1.len() implies refresh_queries(#[trigger] parts1[q], old(self).id,
                    indices@.take(j + 1)[q] as int, all) by {
                    if q < j {
                        assert(parts1[q] == parts[q]);
                    }
                }
                assert(refreshes_sent(out@, old(self).id, indices@.take(j + 1), all));
            }
            j = j + 1;
        }
        assert(indices@.take(indices@.len() as int) =~= indices@);
        out
    }

    /// Refreshes every bucket that holds no contact; done once, when the
    /// first self-lookup completes.
    pub fn init_refresh(&mut self) -> (out: Vec<Outgoing>)
        requires
            old(self).wf(),
            old(self).routing_table.all_contacts().len() > 0,
        ensures
            final(self).wf(),
            buckets_refreshed(*old(self), *final(self), empty_buckets(old(self).routing_table)),
            refreshes_sent(out@, old(self).id, empty_buckets(old(self).routing_table), old(self).routing_table.all_contacts()),
            outgoing_avoids(out@, old(self).id),
    {
        let mut refresh_tasks: Vec<usize> = Vec::new();
        let mut i: usize = 0;
        while i < 160
            invariant
                self.wf(),
                i <= 160,
                *self == *old(self),
                refresh_tasks@ == empty_buckets_below(self.routing_table, i as nat),
            decreases 160 - i,
        {
            if self.routing_table.buckets[i].contacts.len() == 0 {
                refresh_tasks.push(i);
            }
            i = i + 1;
        }
        proof {
            lemma_empty_buckets_below(self.routing_table, 160);
        }
        self.refresh_buckets(&refresh_tasks)
    }

    /// The buckets not updated for over an hour, which are due for a
    /// refresh, in increasing order. How long ago is read from the clock,
    /// one reading per bucket; `overdue_indices` picks the buckets.
    pub fn buckets_due(&self) -> (r: Vec<usize>)
        requires
            self.wf(),
        ensures
            forall|q: int| 0 <= q < r@.len() ==> #[trigger] r@[q] < 160,
            forall|p: int, q: int| 0 <= p < q < r@.len() ==> r@[p] < r@[q],
            exists|elapsed: Seq<u128>|
                #![trigger elapsed.len()]
                elapsed.len() == 160 && forall|i: int| 0 <= i < 160
                    ==> (#[trigger] r@.contains(i as usize) <==> elapsed[i] > BUCKET_REFRESH_INTERVAL_NANOS),
    {
        let mut elapsed: Vec<u128> = Vec::new();
        let mut i: usize = 0;
        while i < 160
            invariant
                self.wf(),
                i <= 160,
                elapsed@.len() == i,
            decreases 160 - i,
        {
            elapsed.push(elapsed_nanos(&self.routing_table.buckets[i].last_update));
            i = i + 1;
        }
        overdue_indices(&elapsed, BUCKET_REFRESH_INTERVAL_NANOS)
    }

    /// Refreshes the buckets that `buckets_due` found stale.
    pub fn check_bucket_refresh(&mut self, due: &Vec<usize>) -> (out: Vec<Outgoing>)
        requires
            old(self).wf(),
            forall|q: int| 0 <= q < due@.len() ==> #[trigger] due@[q] < 160,
            due@.len() == 0 || old(self).routing_table.all_contacts().len() > 0,
        ensures
            final(self).wf(),
            buckets_refreshed(*old(self), *final(self), due@),
            refreshes_sent(out@, old(self).id, due@, old(self).routing_table.all_contacts()),
            outgoing_avoids(out@, old(self).id),
    {
        self.refresh_buckets(due)
    }
}

/// `l1` is `l0` without `id` among its pending nodes and without the first
/// shortlisted contact with identifier `id`.
pub open spec fn dropped_from_lookup(l0: NodeLookup, l1: NodeLookup, id: Id) -> bool {
    &&& l1.lookup_type == l0.lookup_type
    &&& l1.target == l0.target
    &&& l1.closest_node == l0.closest_node
    &&& l1.old_closest_node == l0.old_closest_node
    &&& l1.closest_without_value == l0.closest_without_value
    &&& l1.queried@ == l0.queried@
    &&& l1.pending@ == l0.pending@.remove(id)
    &&& !holds_id(l0.shortlist@, id) ==> l1.shortlist@ == l0.shortlist@
    &&& forall|p: int| first_with_id(l0.shortlist@, id, p) ==> l1.shortlist@ == l0.shortlist@.remove(p)
}

/// `n1` is `n0` after the request `nonce`, pending in `n0`, timed out: the
/// request is dropped and its recipient evicted from the table; for an
/// eviction check the candidate then takes the recipient's place; for a
/// lookup request the recipient is also dropped from the lookup.
pub open spec fn request_expired(n0: KademliaNode, n1: KademliaNode, nonce: Id) -> bool {
    let req = n0.pending_requests@[nonce];
    &&& n1.id == n0.id
    &&& n1.k == n0.k
    &&& n1.pending_requests@ == n0.pending_requests@.remove(nonce)
    &&& n1.completed_lookups == n0.completed_lookups
    &&& n1.store == n0.store
    &&& n1.active_stores == n0.active_stores
    &&& n1.completed_stores == n0.completed_stores
    &&& n1.init_refresh_needed == n0.init_refresh_needed
    &&& match req {
        PendingRequest::EvictionCheck { candidate, recipient, .. } => exists|t: RoutingTable|
            contact_evicted(n0.routing_table, t, recipient) && contact_appended(t, n1.routing_table, candidate),
        _ => contact_evicted(n0.routing_table, n1.routing_table, recipient_of(req)),
    }
    &&& match req {
        PendingRequest::FindNode { target, recipient, .. } => lookup_dropped(n0, n1, target, recipient.id),
        PendingRequest::FindValue { target, recipient, .. } => lookup_dropped(n0, n1, target, recipient.id),
        _ => n1.active_lookups == n0.active_lookups,
    }
}

/// The lookup of `target`, if any, no longer counts on node `id`; the
/// other lookups are unchanged.
pub open spec fn lookup_dropped(n0: KademliaNode, n1: KademliaNode, target: Id, id: Id) -> bool {
    &&& n1.active_lookups@.dom() == n0.active_lookups@.dom()
    &&& n1.active_lookups@.remove(target) == n0.active_lookups@.remove(target)
    &&& n0.active_lookups@.dom().contains(target) ==> dropped_from_lookup(
        n0.active_lookups@[target],
        n1.active_lookups@[target],
        id,
    )
}

/// One step of expiring requests: the request `nonce` expires if it is
/// still pending, otherwise nothing changes.
pub open spec fn expire_step(n0: KademliaNode, n1: KademliaNode, nonce: Id) -> bool {
    if n0.pending_requests@.dom().contains(nonce) {
        request_expired(n0, n1, nonce)
    } else {
        n1 == n0
    }
}

/// `n1` is `n0` after expiring, in order, those requests of `nonces` still
/// pending when their turn comes.
pub open spec fn requests_expired(n0: KademliaNode, n1: KademliaNode, nonces: Seq<Id>) -> bool {
    exists|states: Seq<KademliaNode>|
        #![trigger states.len(), states[0]]
        states.len() == nonces.len() + 1 && states[0] == n0 && states[nonces.len() as int] == n1
            && forall|i: int| 0 <= i < nonces.len() ==> expire_step(#[trigger] states[i], states[i + 1], nonces[i])
}

impl NodeLookup {
    /// Drops node `id` from the lookup: it is no longer pending, and the
    /// first shortlisted contact with that identifier is removed.
    pub fn drop_node(&mut self, id: Id)
        ensures
            dropped_from_lookup(*old(self), *final(self), id),
            forall|i: int| 0 <= i < final(self).shortlist@.len() ==> old(self).shortlist@.contains(#[trigger] final(self).shortlist@[i]),
            sorted_by_distance(old(self).shortlist@, old(self).target) ==> sorted_by_distance(final(self).shortlist@, final(self).target),
    {
        self.pending.remove(&id);
        match position_of_id(&self.shortlist, id) {
            Some(pos) => {
                let ghost s0 = self.shortlist@;
                self.shortlist.remove(pos);
                proof {
                    if sorted_by_distance(s0, self.target) {
                        crate::routing::lemma_sorted_remove(s0, self.target, pos as int);
                    }
                    assert forall|p: int| first_with_id(s0, id, p) implies self.shortlist@ == s0.remove(p) by {
                        if p < pos {
                            assert(s0[p].id != id);
                        } else if p > pos {
                            assert(s0[pos as int].id != id);
                        }
                    }
                    assert forall|i: int| 0 <= i < self.shortlist@.len() implies s0.contains(#[trigger] self.shortlist@[i]) by {
                        if i < pos {
                            assert(self.shortlist@[i] == s0[i]);
                        } else {
                            assert(self.shortlist@[i] == s0[i + 1]);
                        }
                    }
                }
            },
            None => {
                assert forall|i: int| 0 <= i < self.shortlist@.len() implies old(self).shortlist@.contains(#[trigger] self.shortlist@[i]) by {
                    assert(self.shortlist@[i] == old(self).shortlist@[i]);
                }
            },
        }
    }
}

impl KademliaNode {
    /// The pending requests sent more than ten seconds ago, each once. How
    /// long ago is read from the clock, one reading per request;
    /// `overdue` picks the requests.
    pub fn requests_timed_out(&self) -> (r: Vec<Id>)
        ensures
            r@.no_duplicates(),
            exists|keys: Seq<Id>, elapsed: Seq<u128>|
                #![trigger overdue_keys(keys, elapsed, REQ_TIMEOUT_NANOS)]
                keys.no_duplicates() && keys.len() == elapsed.len()
                    && (forall|n: Id| #[trigger] keys.contains(n) <==> self.pending_requests@.dom().contains(n))
                    && r@ == overdue_keys(keys, elapsed, REQ_TIMEOUT_NANOS),
    {
        let keys = self.pending_requests.keys();
        let mut elapsed: Vec<u128> = Vec::new();
        let mut i: usize = 0;
        while i < keys.len()
            invariant
                i <= keys@.len(),
                elapsed@.len() == i,
                forall|n: Id| #[trigger] keys@.contains(n) <==> self.pending_requests@.dom().contains(n),
            decreases keys@.len() - i,
        {
            proof {
                assert(keys@.contains(keys@[i as int]));
            }
            let sent_at = match self.pending_requests.get(&keys[i]).unwrap() {
                PendingRequest::Ping { sent_at, .. } => sent_at,
                PendingRequest::EvictionCheck { sent_at, .. } => sent_at,
                PendingRequest::FindNode { sent_at, .. } => sent_at,
                PendingRequest::FindValue { sent_at, .. } => sent_at,
                PendingRequest::Store { sent_at, .. } => sent_at,
            };
            elapsed.push(elapsed_nanos(sent_at));
            i = i + 1;
        }
        overdue(&keys, &elapsed, REQ_TIMEOUT_NANOS)
    }

    /// Handles the time-out of the pending request `nonce`: drops it,
    /// evicts its recipient, gives an eviction check's candidate the freed
    /// place, and drops a lookup request's recipient from its lookup.
    pub fn expire_request(&mut self, nonce: Id)
        requires
            old(self).wf(),
            old(self).pending_requests@.dom().contains(nonce),
        ensures
            final(self).wf(),
            request_expired(*old(self), *final(self), nonce),
    {
        let req = *self.pending_requests.get(&nonce).unwrap();
        match req {
            PendingRequest::EvictionCheck { candidate, recipient, .. } => {
                self.routing_table.evict(recipient);
                self.routing_table.add(candidate);
            },
            PendingRequest::FindNode { target, recipient, .. } => {
                self.routing_table.evict(recipient);
                self.drop_from_lookup(target, recipient.id);
            },
            PendingRequest::FindValue { target, recipient, .. } => {
                self.routing_table.evict(recipient);
                self.drop_from_lookup(target, recipient.id);
            },
            PendingRequest::Ping { recipient, .. } => {
                self.routing_table.evict(recipient);
            },
            PendingRequest::Store { recipient, .. } => {
                self.routing_table.evict(recipient);
            },
        }
        self.pending_requests.remove(&nonce);
        proof {
            assert forall|n: Id| #[trigger] self.pending_requests@.dom().contains(n)
                implies request_avoids(self.pending_requests@[n], self.id) by {
                assert(old(self).pending_requests@.dom().contains(n));
            }
        }
    }

    fn drop_from_lookup(&mut self, target: Id, id: Id)
        requires
            old(self).wf(),
        ensures
            final(self).wf(),
            lookup_dropped(*old(self), *final(self), target, id),
            final(self).id == old(self).id,
            final(self).k == old(self).k,
            final(self).routing_table == old(self).routing_table,
            final(self).pending_requests == old(self).pending_requests,
            final(self).completed_lookups == old(self).completed_lookups,
            final(self).store == old(self).store,
            final(self).active_stores == old(self).active_stores,
            final(self).completed_stores == old(self).completed_stores,
            final(self).init_refresh_needed == old(self).init_refresh_needed,
    {
        match self.active_lookups.remove(&target) {
            Some(mut lookup_state) => {
                lookup_state.drop_node(id);
                self.active_lookups.insert(target, lookup_state);
                proof {
                    assert(self.active_lookups@.dom() =~= old(self).active_lookups@.dom());
                    assert(self.active_lookups@.remove(target) =~= old(self).active_lookups@.remove(target));
                    assert forall|t: Id| #[trigger] self.active_lookups@.dom().contains(t)
                        implies lookup_consistent(self.active_lookups@[t], t, self.id) by {
                        assert(old(self).active_lookups@.dom().contains(t));
                        if t != target {
                            assert(self.active_lookups@[t] == old(self).active_lookups@.remove(target)[t]);
                        }
                    }
                }
            },
            None => {
                assert(self.active_lookups@ =~= old(self).active_lookups@);
            },
        }
    }

    /// Expires the requests `timed_out` (as found by `requests_timed_out`),
    /// in order, skipping any no longer pending.
    pub fn check_pending_requests(&mut self, timed_out: &Vec<Id>)
        requires
            old(self).wf(),
        ensures
            final(self).wf(),
            requests_expired(*old(self), *final(self), timed_out@),
    {
        let mut j: usize = 0;
        let ghost mut states: Seq<KademliaNode> = seq![*self];
        while j < timed_out.len()
            invariant
                self.wf(),
                j <= timed_out@.len(),
                states.len() == j + 1,
                states[0] == *old(self),
                states[j as int] == *self,
                forall|i: int| 0 <= i < j ==> expire_step(#[trigger] states[i], states[i + 1], timed_out@[i]),
            decreases timed_out@.len() - j,
        {
            let ghost before = *self;
            let nonce = timed_out[j];
            if self.pending_requests.contains_key(&nonce) {
                self.expire_request(nonce);
            }
            proof {
                assert(expire_step(before, *self, nonce));
                states = states.push(*self);
            }
            j = j + 1;
        }
        assert(states.len() == timed_out@.len() + 1 && states[0] == *old(self));
    }
}

/// What one round of a lookup led to.
enum RoundOutcome {
    /// The lookup converged. `refresh` is set when it was the first
    /// self-lookup; `store` holds the value being published under the
    /// target, with the contacts to store it at.
    Finished { refresh: bool, store: Option<(ActiveStoreEntry, Vec<Contact>)> },
    /// A new round was started with these requests.
    Continued(Vec<Outgoing>),
}

/// The node's first self-lookup converges in a round over `due`, so every
/// empty bucket is then refreshed.
pub open spec fn starts_init_refresh_spec(n: KademliaNode, due: Seq<Id>) -> bool {
    &&& n.init_refresh_needed
    &&& due.contains(n.id)
    &&& n.active_lookups@.dom().contains(n.id)
    &&& n.active_lookups@[n.id].finished()
}

/// `n1` is `n0` after a round of the converged lookup `t`: its shortlist is
/// recorded as the lookup's result; a value being published under `t`
/// moves to the completed stores with no confirmation yet.
pub open spec fn round_finished(n0: KademliaNode, n1: KademliaNode, t: Id) -> bool {
    &&& n1.completed_lookups@.dom() == n0.completed_lookups@.dom().insert(t)
    &&& n1.completed_lookups@.remove(t) == n0.completed_lookups@.remove(t)
    &&& n1.completed_lookups@[t] matches LookupResult::Contacts(c) && c@ == n0.active_lookups@[t].shortlist@
    &&& n1.active_lookups@ == n0.active_lookups@
    &&& n1.init_refresh_needed == (n0.init_refresh_needed && t != n0.id)
    &&& if n0.active_stores@.dom().contains(t) {
        &&& n1.active_stores@ == n0.active_stores@.remove(t)
        &&& n1.completed_stores@.dom() == n0.completed_stores@.dom().insert(t)
        &&& n1.completed_stores@.remove(t) == n0.completed_stores@.remove(t)
        &&& n1.completed_stores@[t]@.len() == 0
    } else {
        &&& n1.active_stores@ == n0.active_stores@
        &&& n1.completed_stores == n0.completed_stores
    }
}

/// `n1` is `n0` after starting a new round of the unconverged lookup `t`,
/// `out` being its requests.
pub open spec fn round_continued(n0: KademliaNode, n1: KademliaNode, t: Id, out: Seq<Outgoing>) -> bool {
    &&& n1.active_lookups@.dom() == n0.active_lookups@.dom()
    &&& n1.active_lookups@.remove(t) == n0.active_lookups@.remove(t)
    &&& exists|r: Seq<Contact>|
        round_started(n0.active_lookups@[t], n1.active_lookups@[t], r, ALPHA as int)
            && queries_for(out, n0.id, n0.active_lookups@[t].lookup_type, t, r)
    &&& n1.completed_lookups == n0.completed_lookups
    &&& n1.active_stores == n0.active_stores
    &&& n1.completed_stores == n0.completed_stores
    &&& n1.init_refresh_needed == n0.init_refresh_needed
}

impl KademliaNode {
    /// The lookups whose current round started over 500 ms ago, each once.
    /// How long ago is read from the clock, one reading per lookup;
    /// `overdue` picks the lookups.
    pub fn lookups_due(&self) -> (r: Vec<Id>)
        ensures
            r@.no_duplicates(),
            exists|keys: Seq<Id>, elapsed: Seq<u128>|
                #![trigger overdue_keys(keys, elapsed, LOOKUP_ROUND_INTERVAL_NANOS)]
                keys.no_duplicates() && keys.len() == elapsed.len()
                    && (forall|t: Id| #[trigger] keys.contains(t) <==> self.active_lookups@.dom().contains(t))
                    && r@ == overdue_keys(keys, elapsed, LOOKUP_ROUND_INTERVAL_NANOS),
    {
        let keys = self.active_lookups.keys();
        let mut elapsed: Vec<u128> = Vec::new();
        let mut i: usize = 0;
        while i < keys.len()
            invariant
                i <= keys@.len(),
                elapsed@.len() == i,
                forall|n: Id| #[trigger] keys@.contains(n) <==> self.active_lookups@.dom().contains(n),
            decreases keys@.len() - i,
        {
            proof {
                assert(keys@.contains(keys@[i as int]));
            }
            let lookup_state = self.active_lookups.get(&keys[i]).unwrap();
            elapsed.push(elapsed_nanos(&lookup_state.last_round_at));
            i = i + 1;
        }
        overdue(&keys, &elapsed, LOOKUP_ROUND_INTERVAL_NANOS)
    }

    /// Whether a round over `due` would complete the first self-lookup and so
    /// refresh every empty bucket.
    pub fn starts_init_refresh(&self, due: &Vec<Id>) -> (r: bool)
        ensures
            r == starts_init_refresh_spec(*self, due@),
    {
        if !self.init_refresh_needed {
            return false;
        }
        let mut found = false;
        let mut i: usize = 0;
        while i < due.len()
            invariant
                i <= due@.len(),
                found == exists|j: int| 0 <= j < i && due@[j] == self.id,
            decreases due@.len() - i,
        {
            if due[i] == self.id {
                found = true;
            }
            i = i + 1;
        }
        if !found {
            return false;
        }
        match self.active_lookups.get(&self.id) {
            Some(lookup_state) => lookup_state.is_finished(),
            None => false,
        }
    }

    /// One round of the lookup of `t`: records its result if it has
    /// converged, else queries the next contacts of its shortlist.
    fn lookup_round(&mut self, t: Id) -> (r: RoundOutcome)
        requires
            old(self).wf(),
            old(self).active_lookups@.dom().contains(t),
        ensures
            final(self).wf(),
            final(self).id == old(self).id,
            final(self).k == old(self).k,
            final(self).routing_table == old(self).routing_table,
            final(self).pending_requests == old(self).pending_requests,
            final(self).store == old(self).store,
            old(self).active_lookups@[t].finished() ==> r is Finished && round_finished(*old(self), *final(self), t),
            old(self).active_lookups@[t].finished() ==> (r matches RoundOutcome::Finished { refresh, store } && refresh
                == (old(self).init_refresh_needed && t == old(self).id) && (store is Some <==> old(self).active_stores@.dom().contains(t))
                && (store matches Some(st) ==> st.1@ == old(self).active_lookups@[t].shortlist@
                    && st.0 == old(self).active_stores@[t]
                    && forall|i: int| 0 <= i < st.1@.len() ==> #[trigger] st.1@[i].id != old(self).id)),
            !old(self).active_lookups@[t].finished() ==> (r matches RoundOutcome::Continued(out)
                && round_continued(*old(self), *final(self), t, out@) && outgoing_avoids(out@, old(self).id)),
    {
        let lookup_state = self.active_lookups.remove(&t).unwrap();
        let ghost l0 = lookup_state;
        assert(lookup_consistent(l0, t, self.id));
        if lookup_state.is_finished() {
            let shortlist = lookup_state.shortlist.clone();
            assert(shortlist@ =~= l0.shortlist@);
            let shortlist_again = lookup_state.shortlist.clone();
            assert(shortlist_again@ =~= l0.shortlist@);
            self.active_lookups.insert(t, lookup_state);
            assert(self.active_lookups@ =~= old(self).active_lookups@);
            self.completed_lookups.insert(t, LookupResult::Contacts(shortlist));
            assert(self.completed_lookups@.remove(t) =~= old(self).completed_lookups@.remove(t));
            let mut refresh = false;
            if t == self.id && self.init_refresh_needed {
                self.init_refresh_needed = false;
                refresh = true;
            }
            let store = match self.active_stores.remove(&t) {
                Some(entry) => {
                    self.completed_stores.insert(t, Vec::new());
                    assert(self.completed_stores@.remove(t) =~= old(self).completed_stores@.remove(t));
                    Some((entry, shortlist_again))
                },
                None => None,
            };
            assert(self.completed_lookups@.dom() =~= old(self).completed_lookups@.dom().insert(t));
            assert(self.completed_lookups@[t] matches LookupResult::Contacts(c) && c@ == old(self).active_lookups@[t].shortlist@);
            assert(self.active_lookups@ == old(self).active_lookups@);
            assert(self.init_refresh_needed == (old(self).init_refresh_needed && t != old(self).id));
            proof {
                if old(self).active_stores@.dom().contains(t) {
                    assert(self.completed_stores@.dom() =~= old(self).completed_stores@.dom().insert(t));
                    assert(self.completed_stores@[t]@.len() == 0);
                } else {
                    assert(self.active_stores@ =~= old(self).active_stores@);
                }
                assert(round_finished(*old(self), *self, t));
            }
            RoundOutcome::Finished { refresh, store }
        } else {
            let mut lookup_state = lookup_state;
            let to_query = lookup_state.start_round(ALPHA);
            let lookup_type = lookup_state.lookup_type;
            proof {
                assert forall|i: int| 0 <= i < to_query@.len() implies #[trigger] to_query@[i].id != self.id by {
                    let pred = |c: Contact| !l0.queried@.contains(c.id);
                    let u = unqueried(l0.shortlist@, l0.queried@);
                    assert(to_query@[i] == u[i]);
                    assert(u.contains(u[i]));
                    l0.shortlist@.lemma_filter_contains_rev(pred, u[i]);
                    let p = choose|p: int| 0 <= p < l0.shortlist@.len() && l0.shortlist@[p] == u[i];
                    assert(l0.shortlist@[p].id != self.id);
                }
            }
            let mut out: Vec<Outgoing> = Vec::new();
            let mut j: usize = 0;
            while j < to_query.len()
                invariant
                    j <= to_query@.len(),
                    forall|i: int| 0 <= i < to_query@.len() ==> #[trigger] to_query@[i].id != self.id,
                    out@.len() == j,
                    forall|i: int| 0 <= i < j ==> query_for(#[trigger] out@[i], self.id, lookup_type, t, to_query@[i]),
                    forall|i: int| 0 <= i < j ==> follow_up_avoids(#[trigger] out@[i].follow_up, self.id),
                decreases to_query@.len() - j,
            {
                let contact = to_query[j];
                let nonce = Id::generate_id();
                let o = match lookup_type {
                    LookupType::FindNode => Outgoing {
                        message: send_find_node(self, contact.addr, nonce, t),
                        follow_up: SendFollowUp::Await {
                            nonce,
                            request: PendingRequest::FindNode { target: t, recipient: contact, sent_at: instant_now() },
                            required: true,
                        },
                    },
                    LookupType::FindValue => Outgoing {
                        message: send_find_value(self, contact.addr, nonce, t),
                        follow_up: SendFollowUp::Await {
                            nonce,
                            request: PendingRequest::FindValue { target: t, recipient: contact, sent_at: instant_now() },
                            required: true,
                        },
                    },
                };
                out.push(o);
                j = j + 1;
            }
            self.active_lookups.insert(t, lookup_state);
            proof {
                assert(self.active_lookups@.dom() =~= old(self).active_lookups@.dom());
                assert(self.active_lookups@.remove(t) =~= old(self).active_lookups@.remove(t));
                assert forall|x: Id| #[trigger] self.active_lookups@.dom().contains(x)
                    implies lookup_consistent(self.active_lookups@[x], x, self.id) by {
                    if x != t {
                        assert(self.active_lookups@[x] == old(self).active_lookups@.remove(t)[x]);
                    }
                }
                assert(round_started(l0, self.active_lookups@[t], to_query@, ALPHA as int));
                assert(l0 == old(self).active_lookups@[t]);
                assert(queries_for(out@, old(self).id, l0.lookup_type, t, to_query@));
            }
            RoundOutcome::Continued(out)
        }
    }
}

/// The contacts the next round of `l` queries: the first `ALPHA` contacts
/// of its shortlist not queried yet.
pub open spec fn next_round(l: NodeLookup) -> Seq<Contact> {
    first_n(unqueried(l.shortlist@, l.queried@), ALPHA as int)
}

/// Every message of `out` is a STORE of `key`, `value` and `time` to the
/// matching contact of `cs`.
pub open spec fn stores_for(out: Seq<Outgoing>, own: Id, key: Id, value: Seq<u8>, time: i64, cs: Seq<Contact>) -> bool {
    &&& out.len() == cs.len()
    &&& forall|j: int| 0 <= j < out.len() ==> store_for(#[trigger] out[j], own, key, value, time, cs[j])
}

/// `task` stores the value of the converged lookup of its key at that
/// lookup's shortlist, as found in `n0`.
pub open spec fn store_task_of(task: (Id, ActiveStoreEntry, Vec<Contact>), n0: KademliaNode) -> bool {
    &&& n0.active_lookups@.dom().contains(task.0)
    &&& n0.active_lookups@[task.0].finished()
    &&& n0.active_stores@.dom().contains(task.0)
    &&& task.1 == n0.active_stores@[task.0]
    &&& task.2@ == n0.active_lookups@[task.0].shortlist@
}

/// No contact of `s` has the identifier `own`.
pub open spec fn contacts_avoid(s: Seq<Contact>, own: Id) -> bool {
    forall|i: int| 0 <= i < s.len() ==> #[trigger] s[i].id != own
}

/// `t` is one of the lookups of `due` that have converged in `n`.
pub open spec fn converged_in(n: KademliaNode, due: Seq<Id>, t: Id) -> bool {
    &&& due.contains(t)
    &&& n.active_lookups@.dom().contains(t)
    &&& n.active_lookups@[t].finished()
}


/// `m1` has the entry of `m0` for `t`, or none when `m0` has none.
pub open spec fn same_entry<V>(m0: Map<Id, V>, m1: Map<Id, V>, t: Id) -> bool {
    &&& m1.dom().contains(t) == m0.dom().contains(t)
    &&& m0.dom().contains(t) ==> m1[t] == m0[t]
}

/// What a round of the lookup `t` of `n` sends: the requests of its next
/// round when it has not converged; nothing when it has, or when `n` has no
/// lookup of `t`.
pub open spec fn round_part(part: Seq<Outgoing>, n: KademliaNode, t: Id) -> bool {
    if n.active_lookups@.dom().contains(t) && !n.active_lookups@[t].finished() {
        queries_for(part, n.id, n.active_lookups@[t].lookup_type, t, next_round(n.active_lookups@[t]))
    } else {
        part.len() == 0
    }
}

/// The lookup of `t` in `n` has converged while a value is being published
/// under `t`.
pub open spec fn publishing_converged(n: KademliaNode, t: Id) -> bool {
    &&& n.active_lookups@.dom().contains(t)
    &&& n.active_lookups@[t].finished()
    &&& n.active_stores@.dom().contains(t)
}

/// `t` is a lookup of `due` that has converged in `n` while a value is
/// being published under `t`.
pub open spec fn publication_converged(n: KademliaNode, due: Seq<Id>, t: Id) -> bool {
    due.contains(t) && publishing_converged(n, t)
}

/// `publishing_converged` for `n`, as a predicate on keys.
pub open spec fn publishing_pred(n: KademliaNode) -> spec_fn(Id) -> bool {
    |t: Id| publishing_converged(n, t)
}

/// The keys of `due`, in order, whose publication is ready to be stored.
pub open spec fn publishing_keys(n: KademliaNode, due: Seq<Id>) -> Seq<Id> {
    due.filter(publishing_pred(n))
}

/// The STOREs of `task`'s value and publication time to each of its
/// contacts, in order; none when the value is too large to send.
pub open spec fn task_stores(part: Seq<Outgoing>, own: Id, task: (Id, ActiveStoreEntry, Vec<Contact>)) -> bool {
    if task.1.value@.len() <= MAX_VALUE_SIZE {
        stores_for(part, own, task.0, task.1.value@, task.1.original_publish_time, task.2@)
    } else {
        part.len() == 0
    }
}

/// The STOREs of the value published under `t` in `n`, once its lookup
/// converged: one to each contact of the lookup's shortlist, in order; none
/// when the value is too large to send.
pub open spec fn store_part(part: Seq<Outgoing>, n: KademliaNode, t: Id) -> bool {
    let e = n.active_stores@[t];
    if e.value@.len() <= MAX_VALUE_SIZE {
        stores_for(part, n.id, t, e.value@, e.original_publish_time, n.active_lookups@[t].shortlist@)
    } else {
        part.len() == 0
    }
}

/// `out` is what a pass over the due lookups `due` of `n` sends, in order:
/// the refreshes of the empty buckets when the first self-lookup converges,
/// then the round of each due lookup, then the STOREs of each value whose
/// lookup converged.
pub open spec fn due_rounds_sent(out: Seq<Outgoing>, n: KademliaNode, due: Seq<Id>) -> bool {
    exists|refresh: Seq<Outgoing>, rounds: Seq<Seq<Outgoing>>, stores: Seq<Seq<Outgoing>>|
        #![trigger refresh + rounds.flatten() + stores.flatten()]
        {
            &&& out == refresh + rounds.flatten() + stores.flatten()
            &&& if starts_init_refresh_spec(n, due) {
                refreshes_sent(refresh, n.id, empty_buckets(n.routing_table), n.routing_table.all_contacts())
            } else {
                refresh.len() == 0
            }
            &&& rounds.len() == due.len()
            &&& forall|q: int| 0 <= q < due.len() ==> round_part(#[trigger] rounds[q], n, due[q])
            &&& stores.len() == publishing_keys(n, due).len()
            &&& forall|q: int| 0 <= q < stores.len() ==> store_part(#[trigger] stores[q], n, publishing_keys(n, due)[q])
        }
}

/// `lookup_out` is the round of each lookup of `due` in `n`, in order, and
/// `tasks` the values to store of the converged lookups of `due` that
/// publish one, in order.
#[verifier::opaque]
spec fn rounds_planned(lookup_out: Seq<Outgoing>, tasks: Seq<(Id, ActiveStoreEntry, Vec<Contact>)>, n: KademliaNode, due: Seq<Id>) -> bool {
    &&& exists|rounds: Seq<Seq<Outgoing>>|
        #![trigger rounds.flatten()]
        rounds.len() == due.len() && lookup_out == rounds.flatten()
            && forall|q: int| 0 <= q < due.len() ==> round_part(#[trigger] rounds[q], n, due[q])
    &&& forall|q: int| 0 <= q < tasks.len() ==> store_task_of(#[trigger] tasks[q], n)
    &&& tasks.len() == publishing_keys(n, due).len()
    &&& forall|q: int| 0 <= q < tasks.len() ==> (#[trigger] tasks[q]).0 == publishing_keys(n, due)[q]
}

/// `out1` is `out0` followed by the STOREs of each task, in order.
#[verifier::opaque]
spec fn stores_appended(out0: Seq<Outgoing>, out1: Seq<Outgoing>, own: Id, tasks: Seq<(Id, ActiveStoreEntry, Vec<Contact>)>) -> bool {
    exists|parts: Seq<Seq<Outgoing>>|
        #![trigger parts.flatten()]
        parts.len() == tasks.len() && out1 == out0 + parts.flatten()
            && forall|q: int| 0 <= q < parts.len() ==> task_stores(#[trigger] parts[q], own, tasks[q])
}

/// The messages of a pass over the due lookups, put together.
proof fn lemma_due_rounds_sent(
    n: KademliaNode,
    due: Seq<Id>,
    refresh: Seq<Outgoing>,
    lookup_out: Seq<Outgoing>,
    tasks: Seq<(Id, ActiveStoreEntry, Vec<Contact>)>,
    out: Seq<Outgoing>,
)
    requires
        starts_init_refresh_spec(n, due) ==> refreshes_sent(refresh, n.id, empty_buckets(n.routing_table),
            n.routing_table.all_contacts()),
        !starts_init_refresh_spec(n, due) ==> refresh.len() == 0,
        rounds_planned(lookup_out, tasks, n, due),
        stores_appended(refresh + lookup_out, out, n.id, tasks),
    ensures
        due_rounds_sent(out, n, due),
{
    reveal(rounds_planned);
    reveal(stores_appended);
    let rounds = choose|rounds: Seq<Seq<Outgoing>>|
        #![trigger rounds.flatten()]
        rounds.len() == due.len() && lookup_out == rounds.flatten()
            && forall|q: int| 0 <= q < due.len() ==> round_part(#[trigger] rounds[q], n, due[q]);
    let stores = choose|parts: Seq<Seq<Outgoing>>|
        #![trigger parts.flatten()]
        parts.len() == tasks.len() && out == (refresh + lookup_out) + parts.flatten()
            && forall|q: int| 0 <= q < parts.len() ==> task_stores(#[trigger] parts[q], n.id, tasks[q]);
    let keys = publishing_keys(n, due);
    assert forall|q: int| 0 <= q < stores.len() implies store_part(#[trigger] stores[q], n, keys[q]) by {
        assert(task_stores(stores[q], n.id, tasks[q]));
        assert(store_task_of(tasks[q], n));
        assert(tasks[q].0 == keys[q]);
    }
    assert(out == refresh + rounds.flatten() + stores.flatten());
}

/// `n1` is `n0` after a round of each lookup of `due`, the converged ones
/// still in place and listed in `removed`, `init` telling whether the
/// first self-lookup converged.
#[verifier::opaque]
spec fn rounds_run(n0: KademliaNode, n1: KademliaNode, due: Seq<Id>, removed: Seq<Id>, init: bool) -> bool {
    &&& n1.id == n0.id
    &&& n1.k == n0.k
    &&& n1.routing_table == n0.routing_table
    &&& n1.pending_requests == n0.pending_requests
    &&& n1.store == n0.store
    &&& n1.active_lookups@.dom() == n0.active_lookups@.dom()
    &&& init == starts_init_refresh_spec(n0, due)
    &&& n1.init_refresh_needed == (n0.init_refresh_needed && !init)
    &&& forall|t: Id| #[trigger] n0.active_lookups@.dom().contains(t) && !due.contains(t)
        ==> n1.active_lookups@[t] == n0.active_lookups@[t]
    &&& forall|t: Id| #[trigger] due.contains(t) && n0.active_lookups@.dom().contains(t)
        && n0.active_lookups@[t].finished() ==> finished_here(n0, n1, t, removed)
    &&& forall|t: Id| #[trigger] due.contains(t) && n0.active_lookups@.dom().contains(t)
        && !n0.active_lookups@[t].finished() ==> round_started(n0.active_lookups@[t],
            n1.active_lookups@[t], next_round(n0.active_lookups@[t]), ALPHA as int)
    &&& forall|t: Id| #[trigger] removed.contains(t) ==> due.contains(t)
        && n0.active_lookups@.dom().contains(t) && n0.active_lookups@[t].finished()
    &&& forall|t: Id| !converged_in(n0, due, t)
        ==> #[trigger] same_entry(n0.completed_lookups@, n1.completed_lookups@, t)
    &&& forall|t: Id| !publication_converged(n0, due, t)
        ==> #[trigger] same_entry(n0.active_stores@, n1.active_stores@, t)
        && same_entry(n0.completed_stores@, n1.completed_stores@, t)
}

/// `n1` is `n0` without the lookups of `removed`.
#[verifier::opaque]
spec fn lookups_dropped(n0: KademliaNode, n1: KademliaNode, removed: Seq<Id>) -> bool {
    &&& n1.id == n0.id
    &&& n1.k == n0.k
    &&& n1.routing_table == n0.routing_table
    &&& n1.pending_requests == n0.pending_requests
    &&& n1.store == n0.store
    &&& n1.completed_lookups == n0.completed_lookups
    &&& n1.active_stores == n0.active_stores
    &&& n1.completed_stores == n0.completed_stores
    &&& n1.init_refresh_needed == n0.init_refresh_needed
    &&& forall|x: Id| #[trigger] n1.active_lookups@.dom().contains(x) <==> (n0.active_lookups@.dom().contains(x)
        && !removed.contains(x))
    &&& forall|x: Id| #[trigger] n1.active_lookups@.dom().contains(x) ==> n1.active_lookups@[x] == n0.active_lookups@[x]
}

/// The state after a pass over the due lookups: rounds run (`n1`), empty
/// buckets refreshed if the first self-lookup converged (`n2`), converged
/// lookups dropped (`n3`).
proof fn lemma_rounds_settled(n0: KademliaNode, n1: KademliaNode, n2: KademliaNode, n3: KademliaNode, due: Seq<Id>, removed: Seq<Id>, init: bool)
    requires
        rounds_run(n0, n1, due, removed, init),
        init ==> buckets_refreshed(n1, n2, empty_buckets(n1.routing_table)),
        !init ==> n2 == n1,
        lookups_dropped(n2, n3, removed),
    ensures
        n3.id == n0.id,
        n3.k == n0.k,
        n3.pending_requests == n0.pending_requests,
        n3.store == n0.store,
        forall|b: int| 0 <= b < 160 ==> #[trigger] n3.routing_table.bucket(b) == n0.routing_table.bucket(b),
        n3.init_refresh_needed == (n0.init_refresh_needed && !starts_init_refresh_spec(n0, due)),
        forall|t: Id| #[trigger] due.contains(t) && n0.active_lookups@.dom().contains(t)
            && n0.active_lookups@[t].finished() ==> {
            &&& !n3.active_lookups@.dom().contains(t)
            &&& n3.completed_lookups@.dom().contains(t)
            &&& n3.completed_lookups@[t] matches LookupResult::Contacts(c)
                && c@ == n0.active_lookups@[t].shortlist@
            &&& n0.active_stores@.dom().contains(t) ==> !n3.active_stores@.dom().contains(t)
                && n3.completed_stores@.dom().contains(t) && n3.completed_stores@[t]@.len() == 0
        },
        forall|t: Id| #[trigger] n0.active_lookups@.dom().contains(t) && !converged_in(n0, due, t)
            ==> n3.active_lookups@.dom().contains(t),
        forall|t: Id| #[trigger] n3.active_lookups@.dom().contains(t) ==> {
            ||| n0.active_lookups@.dom().contains(t) && !due.contains(t)
                && n3.active_lookups@[t] == n0.active_lookups@[t]
            ||| n0.active_lookups@.dom().contains(t) && due.contains(t) && !n0.active_lookups@[t].finished()
                && round_started(n0.active_lookups@[t], n3.active_lookups@[t],
                    next_round(n0.active_lookups@[t]), ALPHA as int)
            ||| starts_init_refresh_spec(n0, due)
                && n0.routing_table.bucket(bucket_of(n0.id, t)).len() == 0
                && fresh_lookup(n3.active_lookups@[t], LookupType::FindNode, t, n0.routing_table.all_contacts())
        },
        forall|t: Id| !converged_in(n0, due, t)
            ==> #[trigger] same_entry(n0.completed_lookups@, n3.completed_lookups@, t),
        forall|t: Id| !publication_converged(n0, due, t)
            ==> #[trigger] same_entry(n0.active_stores@, n3.active_stores@, t)
            && same_entry(n0.completed_stores@, n3.completed_stores@, t),
        starts_init_refresh_spec(n0, due) ==> forall|i: int| 0 <= i < 160
            && #[trigger] n0.routing_table.bucket(i).len() == 0 ==> exists|t: Id|
                #![trigger n3.active_lookups@.dom().contains(t)]
                bucket_of(n0.id, t) == i && (converged_in(n0, due, t)
                    || (n3.active_lookups@.dom().contains(t) && fresh_lookup(n3.active_lookups@[t],
                        LookupType::FindNode, t, n0.routing_table.all_contacts()))),
{
    reveal(rounds_run);
    reveal(lookups_dropped);
    assert forall|b: int| 0 <= b < 160 implies #[trigger] n3.routing_table.bucket(b) == n0.routing_table.bucket(b) by {
        if init {
            assert(n2.routing_table.bucket(b) == n1.routing_table.bucket(b));
        }
    }
    assert forall|t: Id| #[trigger] due.contains(t) && n0.active_lookups@.dom().contains(t)
        && n0.active_lookups@[t].finished() implies {
        &&& !n3.active_lookups@.dom().contains(t)
        &&& n3.completed_lookups@[t] matches LookupResult::Contacts(c)
            && c@ == n0.active_lookups@[t].shortlist@
        &&& n0.active_stores@.dom().contains(t) ==> !n3.active_stores@.dom().contains(t)
            && n3.completed_stores@.dom().contains(t) && n3.completed_stores@[t]@.len() == 0
    } by {
        assert(finished_here(n0, n1, t, removed));
    }
    assert forall|t: Id| #[trigger] n0.active_lookups@.dom().contains(t) && !converged_in(n0, due, t)
        implies n3.active_lookups@.dom().contains(t) by {
        assert(n1.active_lookups@.dom().contains(t));
        assert(n2.active_lookups@.dom().contains(t));
        assert(!removed.contains(t));
    }
    assert forall|t: Id| #[trigger] n3.active_lookups@.dom().contains(t) implies {
        ||| n0.active_lookups@.dom().contains(t) && !due.contains(t)
            && n3.active_lookups@[t] == n0.active_lookups@[t]
        ||| n0.active_lookups@.dom().contains(t) && due.contains(t) && !n0.active_lookups@[t].finished()
            && round_started(n0.active_lookups@[t], n3.active_lookups@[t],
                next_round(n0.active_lookups@[t]), ALPHA as int)
        ||| starts_init_refresh_spec(n0, due)
            && n0.routing_table.bucket(bucket_of(n0.id, t)).len() == 0
            && fresh_lookup(n3.active_lookups@[t], LookupType::FindNode, t, n0.routing_table.all_contacts())
    } by {
        assert(n2.active_lookups@.dom().contains(t));
        assert(!removed.contains(t));
        assert(n3.active_lookups@[t] == n2.active_lookups@[t]);
        let from_rounds = n1.active_lookups@.dom().contains(t) && n2.active_lookups@[t] == n1.active_lookups@[t];
        if init && !from_rounds {
            let ix = empty_buckets(n1.routing_table);
            lemma_empty_buckets_below(n1.routing_table, 160);
            let q = choose|q: int| 0 <= q < ix.len() && bucket_of(n1.id, t) == ix[q];
            assert(n1.routing_table.bucket(ix[q] as int).len() == 0);
        } else {
            assert(n1.active_lookups@.dom().contains(t) && n3.active_lookups@[t] == n1.active_lookups@[t]);
            assert(n0.active_lookups@.dom().contains(t));
            if due.contains(t) && n0.active_lookups@[t].finished() {
                assert(finished_here(n0, n1, t, removed));
            }
        }
    }
    assert forall|t: Id| !converged_in(n0, due, t)
        implies #[trigger] same_entry(n0.completed_lookups@, n3.completed_lookups@, t) by {
        assert(same_entry(n0.completed_lookups@, n1.completed_lookups@, t));
    }
    assert forall|t: Id| !publication_converged(n0, due, t)
        implies #[trigger] same_entry(n0.active_stores@, n3.active_stores@, t)
        && same_entry(n0.completed_stores@, n3.completed_stores@, t) by {
        assert(same_entry(n0.active_stores@, n1.active_stores@, t));
        assert(same_entry(n0.completed_stores@, n1.completed_stores@, t));
    }
    if init {
        let ix = empty_buckets(n1.routing_table);
        lemma_empty_buckets_below(n1.routing_table, 160);
        assert forall|i: int| 0 <= i < 160 && #[trigger] n0.routing_table.bucket(i).len() == 0 implies exists|t: Id|
            #![trigger n3.active_lookups@.dom().contains(t)]
            bucket_of(n0.id, t) == i && (converged_in(n0, due, t)
                || (n3.active_lookups@.dom().contains(t) && fresh_lookup(n3.active_lookups@[t],
                    LookupType::FindNode, t, n0.routing_table.all_contacts()))) by {
            assert(n1.routing_table.bucket(i) == n0.routing_table.bucket(i));
            assert(ix.contains(i as usize));
            let q = choose|q: int| 0 <= q < ix.len() && ix[q] == i as usize;
            assert(refreshed(n2, ix[q] as int, n1.routing_table.all_contacts()));
            let t = choose|t: Id|
                #![trigger n2.active_lookups@.dom().contains(t)]
                n2.active_lookups@.dom().contains(t) && bucket_of(n2.id, t) == ix[q] as int
                    && fresh_lookup(n2.active_lookups@[t], LookupType::FindNode, t, n1.routing_table.all_contacts());
            if !removed.contains(t) {
                assert(n3.active_lookups@.dom().contains(t));
                assert(n3.active_lookups@[t] == n2.active_lookups@[t]);
            }
        }
    }
}

/// What a pass over the due lookups leaves to do: the converged lookups to
/// drop, whether the first self-lookup converged, the requests of the
/// rounds started, and the values to store with their contacts.
struct DueRounds {
    remove_lookups: Vec<Id>,
    init_refresh: bool,
    lookup_out: Vec<Outgoing>,
    store_tasks: Vec<(Id, ActiveStoreEntry, Vec<Contact>)>,
}

impl KademliaNode {
    /// Runs one round of each lookup of `due`; the converged ones stay in
    /// place for the caller to drop.
    #[verifier::rlimit(50)]
    fn run_due_rounds(&mut self, due: &Vec<Id>) -> (run: DueRounds)
        requires
            old(self).wf(),
            due@.no_duplicates(),
        ensures
            final(self).wf(),
            final(self).id == old(self).id,
            final(self).k == old(self).k,
            final(self).routing_table == old(self).routing_table,
            run.init_refresh == starts_init_refresh_spec(*old(self), due@),
            rounds_run(*old(self), *final(self), due@, run.remove_lookups@, run.init_refresh),
            rounds_planned(run.lookup_out@, run.store_tasks@, *old(self), due@),
            forall|q: int| 0 <= q < run.store_tasks@.len() ==> contacts_avoid((#[trigger] run.store_tasks@[q]).2@, old(self).id),
            outgoing_avoids(run.lookup_out@, old(self).id),
    {
        let ghost a0 = self.active_lookups@;
        let ghost s0 = self.active_stores@;
        let mut remove_lookups: Vec<Id> = Vec::new();
        let mut init_refresh = false;
        let mut lookup_out: Vec<Outgoing> = Vec::new();
        let mut store_tasks: Vec<(Id, ActiveStoreEntry, Vec<Contact>)> = Vec::new();
        let ghost mut rounds: Seq<Seq<Outgoing>> = Seq::empty();
        let mut j: usize = 0;
        proof {
            assert(due@.take(0) =~= Seq::<Id>::empty());
            assert(publishing_keys(*old(self), due@.take(0)) =~= Seq::<Id>::empty());
            assert(lookup_out@ =~= rounds.flatten());
        }
        while j < due.len()
            invariant
                self.wf(),
                j <= due@.len(),
                due@.no_duplicates(),
                self.id == old(self).id,
                self.k == old(self).k,
                self.routing_table == old(self).routing_table,
                self.pending_requests == old(self).pending_requests,
                self.store == old(self).store,
                a0 == old(self).active_lookups@,
                s0 == old(self).active_stores@,
                self.active_lookups@.dom() == a0.dom(),
                init_refresh == (old(self).init_refresh_needed && due@.take(j as int).contains(self.id)
                    && a0.dom().contains(self.id) && a0[self.id].finished()),
                self.init_refresh_needed == (old(self).init_refresh_needed && !init_refresh),
                forall|t: Id| #[trigger] a0.dom().contains(t) && !due@.take(j as int).contains(t)
                    ==> self.active_lookups@[t] == a0[t],
                forall|t: Id| !due@.take(j as int).contains(t) ==> (#[trigger] self.active_stores@.dom().contains(t)
                    == s0.dom().contains(t)),
                forall|t: Id| !due@.take(j as int).contains(t) && #[trigger] s0.dom().contains(t)
                    ==> self.active_stores@[t] == s0[t],
                forall|t: Id| #[trigger] due@.take(j as int).contains(t) && a0.dom().contains(t) && a0[t].finished()
                    ==> finished_here(*old(self), *self, t, remove_lookups@),
                forall|t: Id| #[trigger] due@.take(j as int).contains(t) && a0.dom().contains(t) && !a0[t].finished()
                    ==> round_started(a0[t], self.active_lookups@[t], next_round(a0[t]), ALPHA as int),
                rounds.len() == j,
                lookup_out@ == rounds.flatten(),
                forall|q: int| 0 <= q < j ==> round_part(#[trigger] rounds[q], *old(self), due@[q]),
                forall|q: int| 0 <= q < store_tasks@.len() ==> store_task_of(#[trigger] store_tasks@[q], *old(self)),
                store_tasks@.len() == publishing_keys(*old(self), due@.take(j as int)).len(),
                forall|q: int| 0 <= q < store_tasks@.len()
                    ==> (#[trigger] store_tasks@[q]).0 == publishing_keys(*old(self), due@.take(j as int))[q],
                forall|t: Id| #[trigger] remove_lookups@.contains(t) ==> due@.take(j as int).contains(t)
                    && a0.dom().contains(t) && a0[t].finished(),
                forall|q: int| 0 <= q < store_tasks@.len() ==> contacts_avoid((#[trigger] store_tasks@[q]).2@, self.id),
                outgoing_avoids(lookup_out@, self.id),
                forall|t: Id| !converged_in(*old(self), due@.take(j as int), t)
                    ==> #[trigger] same_entry(old(self).completed_lookups@, self.completed_lookups@, t),
                forall|t: Id| !publication_converged(*old(self), due@.take(j as int), t)
                    ==> #[trigger] same_entry(old(self).active_stores@, self.active_stores@, t)
                    && same_entry(old(self).completed_stores@, self.completed_stores@, t),
            decreases due@.len() - j,
        {
            let t = due[j];
            let ghost before = *self;
            let ghost rl0 = remove_lookups@;
            let ghost lo0 = lookup_out@;
            let ghost st0 = store_tasks@;
            let ghost mut part: Seq<Outgoing> = Seq::empty();
            proof {
                assert(due@.take(j + 1) =~= due@.take(j as int).push(t));
                assert(!due@.take(j as int).contains(t)) by {
                    if due@.take(j as int).contains(t) {
                        let q = choose|q: int| 0 <= q < j && due@.take(j as int)[q] == t;
                        assert(due@[q] == due@[j as int]);
                    }
                }
            }
            if self.active_lookups.contains_key(&t) {
                proof {
                    assert(self.active_lookups@[t] == a0[t]);
                }
                let outcome = self.lookup_round(t);
                proof {
                    assert forall|x: Id| x != t implies {
                        &&& self.active_lookups@.dom().contains(x) == before.active_lookups@.dom().contains(x)
                        &&& self.active_lookups@[x] == before.active_lookups@[x]
                        &&& self.completed_lookups@.dom().contains(x) == before.completed_lookups@.dom().contains(x)
                        &&& self.completed_lookups@[x] == before.completed_lookups@[x]
                        &&& self.active_stores@.dom().contains(x) == before.active_stores@.dom().contains(x)
                        &&& (before.active_stores@.dom().contains(x) ==> self.active_stores@[x] == before.active_stores@[x])
                        &&& self.completed_stores@.dom().contains(x) == before.completed_stores@.dom().contains(x)
                        &&& self.completed_stores@[x] == before.completed_stores@[x]
                    } by {
                        assert(self.active_lookups@.remove(t)[x] == self.active_lookups@[x]);
                        assert(before.active_lookups@.remove(t)[x] == before.active_lookups@[x]);
                        assert(self.active_lookups@.remove(t).dom().contains(x) == self.active_lookups@.dom().contains(x));
                        assert(before.active_lookups@.remove(t).dom().contains(x) == before.active_lookups@.dom().contains(x));
                        assert(self.completed_lookups@.remove(t)[x] == self.completed_lookups@[x]);
                        assert(before.completed_lookups@.remove(t)[x] == before.completed_lookups@[x]);
                        assert(self.completed_stores@.remove(t)[x] == self.completed_stores@[x]);
                        assert(before.completed_stores@.remove(t)[x] == before.completed_stores@[x]);
                        assert(before.active_stores@.remove(t).dom().contains(x) == before.active_stores@.dom().contains(x));
                        if before.active_stores@.dom().contains(x) {
                            assert(before.active_stores@.remove(t)[x] == before.active_stores@[x]);
                        }
                    }
                    assert(others_unchanged(before, *self, t));
                }
                match outcome {
                    RoundOutcome::Finished { refresh, store } => {
                        remove_lookups.push(t);
                        if refresh {
                            init_refresh = true;
                        }
                        match store {
                            Some((entry, contacts)) => {
                                store_tasks.push((t, entry, contacts));
                                proof {
                                    assert(s0.dom().contains(t));
                                    assert(publishing_converged(*old(self), t));
                                    assert(before.active_stores@[t] == s0[t]);
                                    assert(store_task_of(store_tasks@[st0.len() as int], *old(self)));
                                    assert forall|q: int| 0 <= q < store_tasks@.len() implies store_task_of(#[trigger] store_tasks@[q], *old(self))
                                        && contacts_avoid(store_tasks@[q].2@, self.id) by {
                                        if q < st0.len() {
                                            assert(store_tasks@[q] == st0[q]);
                                        }
                                    }
                                }
                            },
                            None => {},
                        }
                    },
                    RoundOutcome::Continued(mut more) => {
                        let ghost m0 = more@;
                        lookup_out.append(&mut more);
                        proof {
                            assert forall|i: int| 0 <= i < lookup_out@.len() implies follow_up_avoids(#[trigger] lookup_out@[i].follow_up, self.id) by {
                                if i < lo0.len() {
                                    assert(lookup_out@[i] == lo0[i]);
                                } else {
                                    assert(lookup_out@[i] == m0[i - lo0.len()]);
                                }
                            }
                            let r = choose|r: Seq<Contact>|
                                round_started(before.active_lookups@[t], self.active_lookups@[t], r, ALPHA as int)
                                    && queries_for(m0, before.id, before.active_lookups@[t].lookup_type, t, r);
                            assert(r == next_round(a0[t]));
                            assert(round_part(m0, *old(self), t));
                            part = m0;
                        }
                    },
                }
            }
            proof {
                if !before.active_lookups@.dom().contains(t) {
                    assert(others_unchanged(before, *self, t));
                }
                assert(lookup_out@.subrange(0, lo0.len() as int) =~= lo0);
                let tj = due@.take(j + 1);
                let t0 = due@.take(j as int);
                assert forall|x: Id| #[trigger] remove_lookups@.contains(x) implies tj.contains(x)
                    && a0.dom().contains(x) && a0[x].finished() by {
                    if x != t {
                        assert(rl0.contains(x));
                    }
                }
                assert forall|x: Id| #[trigger] tj.contains(x) && a0.dom().contains(x) && a0[x].finished()
                    implies finished_here(*old(self), *self, x, remove_lookups@) by {
                    if x != t {
                        assert(t0.contains(x));
                        assert(finished_here(*old(self), before, x, rl0));
                        assert(rl0.contains(x));
                        assert(self.active_lookups@[x] == before.active_lookups@[x]);
                    }
                }
                assert forall|x: Id| #[trigger] tj.contains(x) && a0.dom().contains(x) && !a0[x].finished()
                    implies round_started(a0[x], self.active_lookups@[x], next_round(a0[x]), ALPHA as int) by {
                    if x != t {
                        assert(t0.contains(x));
                        assert(self.active_lookups@[x] == before.active_lookups@[x]);
                    } else {
                        let r = choose|r: Seq<Contact>| round_started(before.active_lookups@[t], self.active_lookups@[t], r, ALPHA as int)
                            && queries_for(part, before.id, before.active_lookups@[t].lookup_type, t, r);
                    }
                }
                assert(round_part(part, *old(self), t));
                let rounds1 = rounds.push(part);
                rounds.lemma_flatten_push(part);
                assert(lookup_out@ =~= rounds1.flatten());
                assert forall|q: int| 0 <= q < j + 1 implies round_part(#[trigger] rounds1[q], *old(self), due@[q]) by {
                    if q < j {
                        assert(rounds1[q] == rounds[q]);
                    }
                }
                rounds = rounds1;
                t0.lemma_filter_push(t, publishing_pred(*old(self)));
                let keys0 = publishing_keys(*old(self), t0);
                let keys1 = publishing_keys(*old(self), tj);
                if publishing_converged(*old(self), t) {
                    assert(keys1 == keys0.push(t));
                    assert(store_tasks@.len() == st0.len() + 1);
                    assert forall|q: int| 0 <= q < store_tasks@.len() implies (#[trigger] store_tasks@[q]).0 == keys1[q] by {
                        if q < st0.len() {
                            assert(store_tasks@[q] == st0[q]);
                        }
                    }
                } else {
                    assert(keys1 == keys0);
                    assert(store_tasks@ == st0);
                }
                assert forall|x: Id| !tj.contains(x) implies (#[trigger] self.active_stores@.dom().contains(x)
                    == s0.dom().contains(x)) by {
                    assert(!t0.contains(x));
                    assert(x != t);
                }
                assert forall|x: Id| !tj.contains(x) && #[trigger] s0.dom().contains(x)
                    implies self.active_stores@[x] == s0[x] by {
                    assert(!t0.contains(x));
                    assert(x != t);
                }
                assert forall|x: Id| #[trigger] a0.dom().contains(x) && !tj.contains(x)
                    implies self.active_lookups@[x] == a0[x] by {
                    assert(!t0.contains(x));
                    assert(self.active_lookups@[x] == before.active_lookups@[x]);
                }
                assert forall|x: Id| !converged_in(*old(self), tj, x)
                    implies #[trigger] same_entry(old(self).completed_lookups@, self.completed_lookups@, x) by {
                    assert(!converged_in(*old(self), t0, x));
                    assert(same_entry(old(self).completed_lookups@, before.completed_lookups@, x));
                }
                assert forall|x: Id| !publication_converged(*old(self), tj, x)
                    implies #[trigger] same_entry(old(self).active_stores@, self.active_stores@, x)
                    && same_entry(old(self).completed_stores@, self.completed_stores@, x) by {
                    assert(!publication_converged(*old(self), t0, x));
                    assert(same_entry(old(self).active_stores@, before.active_stores@, x));
                    assert(same_entry(old(self).completed_stores@, before.completed_stores@, x));
                    if x == t {
                        assert(before.active_stores@.dom().contains(t) == s0.dom().contains(t));
                    }
                }
            }
            j = j + 1;
        }
        assert(due@.take(due@.len() as int) =~= due@);
        let run = DueRounds { remove_lookups, init_refresh, lookup_out, store_tasks };
        assert(rounds_planned(run.lookup_out@, run.store_tasks@, *old(self), due@)) by {
            reveal(rounds_planned);
            assert(run.lookup_out@ == rounds.flatten());
        }
        assert(rounds_run(*old(self), *self, due@, run.remove_lookups@, run.init_refresh)) by {
            reveal(rounds_run);
        }
        run
    }

    /// Sends the STOREs of each task, in order, after the messages already
    /// in `out`.
    fn send_store_tasks(&mut self, tasks: Vec<(Id, ActiveStoreEntry, Vec<Contact>)>, out: &mut Vec<Outgoing>)
        requires
            old(self).wf(),
            forall|q: int| 0 <= q < tasks@.len() ==> contacts_avoid((#[trigger] tasks@[q]).2@, old(self).id),
            outgoing_avoids(old(out)@, old(self).id),
        ensures
            *final(self) == *old(self),
            outgoing_avoids(final(out)@, old(self).id),
            stores_appended(old(out)@, final(out)@, old(self).id, tasks@),
    {
        let ghost all = tasks@;
        let ghost out0 = out@;
        let mut rest = tasks;
        let ghost mut parts: Seq<Seq<Outgoing>> = Seq::empty();
        assert(out@ =~= out0 + parts.flatten());
        while rest.len() > 0
            invariant
                self.wf(),
                *self == *old(self),
                parts.len() <= all.len(),
                rest@ == all.subrange(parts.len() as int, all.len() as int),
                forall|q: int| 0 <= q < all.len() ==> contacts_avoid((#[trigger] all[q]).2@, self.id),
                outgoing_avoids(out@, self.id),
                out@ == out0 + parts.flatten(),
                forall|q: int| 0 <= q < parts.len() ==> task_stores(#[trigger] parts[q], self.id, all[q]),
            decreases rest@.len(),
        {
            let ghost rest0 = rest@;
            let ghost done = parts.len() as int;
            let (key, entry, contacts) = rest.remove(0);
            proof {
                assert(rest0[0] == all[done]);
                assert(contacts_avoid(all[done].2@, self.id));
            }
            let mut more = self.send_stores(contacts, key, entry);
            let ghost o0 = out@;
            let ghost m0 = more@;
            out.append(&mut more);
            proof {
                assert(rest@ =~= all.subrange(done + 1, all.len() as int));
                assert forall|i: int| 0 <= i < out@.len() implies follow_up_avoids(#[trigger] out@[i].follow_up, self.id) by {
                    if i < o0.len() {
                        assert(out@[i] == o0[i]);
                    } else {
                        assert(out@[i] == m0[i - o0.len()]);
                    }
                }
                assert(task_stores(m0, self.id, all[done]));
                let parts1 = parts.push(m0);
                parts.lemma_flatten_push(m0);
                assert(out@ =~= out0 + parts1.flatten());
                assert forall|q: int| 0 <= q < parts1.len() implies task_stores(#[trigger] parts1[q], self.id, all[q]) by {
                    if q < done {
                        assert(parts1[q] == parts[q]);
                    }
                }
                parts = parts1;
            }
        }
        assert(parts.len() == all.len());
        assert(stores_appended(out0, out@, self.id, all)) by {
            reveal(stores_appended);
        }
    }

    /// Runs a round of each lookup of `due` (as found by `lookups_due`):
    /// converged lookups record their shortlist as their result and are
    /// dropped, and a value being published under their target is sent to
    /// that shortlist; the others query their next contacts. When the first
    /// self-lookup converges, every empty bucket is then refreshed: each gets
    /// a fresh lookup of an identifier in it, which is dropped again only if
    /// that identifier is the target of a converged lookup of `due`.
    #[verifier::spinoff_prover]
    pub fn check_active_lookups(&mut self, due: &Vec<Id>) -> (out: Vec<Outgoing>)
        requires
            old(self).wf(),
            due@.no_duplicates(),
            old(self).routing_table.all_contacts().len() > 0 || !starts_init_refresh_spec(*old(self), due@),
        ensures
            final(self).wf(),
            final(self).id == old(self).id,
            final(self).k == old(self).k,
            final(self).pending_requests == old(self).pending_requests,
            final(self).store == old(self).store,
            forall|b: int| 0 <= b < 160 ==> #[trigger] final(self).routing_table.bucket(b) == old(self).routing_table.bucket(b),
            final(self).init_refresh_needed == (old(self).init_refresh_needed && !starts_init_refresh_spec(*old(self), due@)),
            forall|t: Id| #[trigger] due@.contains(t) && old(self).active_lookups@.dom().contains(t)
                && old(self).active_lookups@[t].finished() ==> {
                &&& !final(self).active_lookups@.dom().contains(t)
                &&& final(self).completed_lookups@.dom().contains(t)
                &&& final(self).completed_lookups@[t] matches LookupResult::Contacts(c)
                    && c@ == old(self).active_lookups@[t].shortlist@
                &&& old(self).active_stores@.dom().contains(t) ==> !final(self).active_stores@.dom().contains(t)
                    && final(self).completed_stores@.dom().contains(t) && final(self).completed_stores@[t]@.len() == 0
            },
            forall|t: Id| #[trigger] old(self).active_lookups@.dom().contains(t) && !converged_in(*old(self), due@, t)
                ==> final(self).active_lookups@.dom().contains(t),
            forall|t: Id| #[trigger] final(self).active_lookups@.dom().contains(t) ==> {
                ||| old(self).active_lookups@.dom().contains(t) && !due@.contains(t)
                    && final(self).active_lookups@[t] == old(self).active_lookups@[t]
                ||| old(self).active_lookups@.dom().contains(t) && due@.contains(t) && !old(self).active_lookups@[t].finished()
                    && round_started(old(self).active_lookups@[t], final(self).active_lookups@[t],
                        next_round(old(self).active_lookups@[t]), ALPHA as int)
                ||| starts_init_refresh_spec(*old(self), due@)
                    && old(self).routing_table.bucket(bucket_of(old(self).id, t)).len() == 0
                    && fresh_lookup(final(self).active_lookups@[t], LookupType::FindNode, t, old(self).routing_table.all_contacts())
            },
            forall|t: Id| !converged_in(*old(self), due@, t)
                ==> #[trigger] same_entry(old(self).completed_lookups@, final(self).completed_lookups@, t),
            forall|t: Id| !publication_converged(*old(self), due@, t)
                ==> #[trigger] same_entry(old(self).active_stores@, final(self).active_stores@, t)
                && same_entry(old(self).completed_stores@, final(self).completed_stores@, t),
            starts_init_refresh_spec(*old(self), due@) ==> forall|i: int| 0 <= i < 160
                && #[trigger] old(self).routing_table.bucket(i).len() == 0 ==> exists|t: Id|
                    #![trigger final(self).active_lookups@.dom().contains(t)]
                    bucket_of(old(self).id, t) == i && (converged_in(*old(self), due@, t)
                        || (final(self).active_lookups@.dom().contains(t) && fresh_lookup(final(self).active_lookups@[t],
                            LookupType::FindNode, t, old(self).routing_table.all_contacts()))),
            due_rounds_sent(out@, *old(self), due@),
            outgoing_avoids(out@, old(self).id),
    {
        let run = self.run_due_rounds(due);
        let DueRounds { remove_lookups, init_refresh, mut lookup_out, store_tasks } = run;
        let ghost s1 = *self;
        let mut out: Vec<Outgoing> = Vec::new();
        if init_refresh {
            proof {
                reveal(rounds_run);
            }
            out = self.init_refresh();
        }
        let ghost s2 = *self;
        let ghost o_refresh = out@;
        let ghost o_lookup = lookup_out@;
        out.append(&mut lookup_out);
        proof {
            assert forall|i: int| 0 <= i < out@.len() implies follow_up_avoids(#[trigger] out@[i].follow_up, self.id) by {
                if i < o_refresh.len() {
                    assert(out@[i] == o_refresh[i]);
                } else {
                    assert(out@[i] == o_lookup[i - o_refresh.len()]);
                }
            }
        }
        let ghost o_mid = out@;
        let ghost tasks = store_tasks@;
        self.send_store_tasks(store_tasks, &mut out);
        proof {
            reveal(rounds_run);
            assert(o_mid == o_refresh + o_lookup);
            lemma_due_rounds_sent(*old(self), due@, o_refresh, o_lookup, tasks, out@);
        }
        self.drop_lookups(&remove_lookups);
        proof {
            lemma_rounds_settled(*old(self), s1, s2, *self, due@, remove_lookups@, init_refresh);
        }
        out
    }

    /// Drops the lookups of `removed`.
    fn drop_lookups(&mut self, removed: &Vec<Id>)
        requires
            old(self).wf(),
        ensures
            final(self).wf(),
            lookups_dropped(*old(self), *final(self), removed@),
    {
        let mut r: usize = 0;
        while r < removed.len()
            invariant
                self.wf(),
                r <= removed@.len(),
                self.id == old(self).id,
                self.k == old(self).k,
                self.routing_table == old(self).routing_table,
                self.pending_requests == old(self).pending_requests,
                self.store == old(self).store,
                self.completed_lookups == old(self).completed_lookups,
                self.active_stores == old(self).active_stores,
                self.completed_stores == old(self).completed_stores,
                self.init_refresh_needed == old(self).init_refresh_needed,
                forall|x: Id| #[trigger] self.active_lookups@.dom().contains(x) <==> (old(self).active_lookups@.dom().contains(x)
                    && !removed@.take(r as int).contains(x)),
                forall|x: Id| #[trigger] self.active_lookups@.dom().contains(x) ==> self.active_lookups@[x] == old(self).active_lookups@[x],
            decreases removed@.len() - r,
        {
            let x = removed[r];
            self.active_lookups.remove(&x);
            proof {
                assert(removed@.take(r + 1) =~= removed@.take(r as int).push(x));
                assert forall|y: Id| #[trigger] self.active_lookups@.dom().contains(y) implies lookup_consistent(self.active_lookups@[y], y, self.id) by {
                    assert(old(self).active_lookups@.dom().contains(y));
                }
            }
            r = r + 1;
        }
        assert(removed@.take(removed@.len() as int) =~= removed@);
        assert(lookups_dropped(*old(self), *self, removed@)) by {
            reveal(lookups_dropped);
        }
    }
}

/// Apart from the lookup `t`, the lookups, results and stores of `n0` are
/// those of `n1`.
pub open spec fn others_unchanged(n0: KademliaNode, n1: KademliaNode, t: Id) -> bool {
    forall|x: Id| x != t ==> {
        &&& n1.active_lookups@.dom().contains(x) == n0.active_lookups@.dom().contains(x)
        &&& n1.active_lookups@[x] == n0.active_lookups@[x]
        &&& n1.completed_lookups@.dom().contains(x) == n0.completed_lookups@.dom().contains(x)
        &&& n1.completed_lookups@[x] == n0.completed_lookups@[x]
        &&& n1.active_stores@.dom().contains(x) == n0.active_stores@.dom().contains(x)
        &&& (n0.active_stores@.dom().contains(x) ==> n1.active_stores@[x] == n0.active_stores@[x])
        &&& n1.completed_stores@.dom().contains(x) == n0.completed_stores@.dom().contains(x)
        &&& n1.completed_stores@[x] == n0.completed_stores@[x]
    }
}

/// In `n1`, the converged lookup `t` of `n0` is still present, marked for
/// removal in `removed`, has its shortlist recorded as its result, and has
/// moved its value being published, if any, to the completed stores.
pub open spec fn finished_here(n0: KademliaNode, n1: KademliaNode, t: Id, removed: Seq<Id>) -> bool {
    &&& n1.active_lookups@[t] == n0.active_lookups@[t]
    &&& removed.contains(t)
    &&& n1.completed_lookups@.dom().contains(t)
    &&& n1.completed_lookups@[t] matches LookupResult::Contacts(c) && c@ == n0.active_lookups@[t].shortlist@
    &&& n0.active_stores@.dom().contains(t) ==> !n1.active_stores@.dom().contains(t)
        && n1.completed_stores@.dom().contains(t) && n1.completed_stores@[t]@.len() == 0
}

/// `l1` is `l0` with node `id` no longer pending (the closest node without
/// the value aside).
pub open spec fn no_longer_pending(l0: NodeLookup, l1: NodeLookup, id: Id) -> bool {
    &&& l1.lookup_type == l0.lookup_type
    &&& l1.target == l0.target
    &&& l1.closest_node == l0.closest_node
    &&& l1.old_closest_node == l0.old_closest_node
    &&& l1.shortlist@ == l0.shortlist@
    &&& l1.queried@ == l0.queried@
    &&& l1.pending@ == l0.pending@.remove(id)
}

/// The closest node that answered a value lookup of `target` without the
/// value, after `sender` did: `sender` if there was none or it is strictly
/// closer.
pub open spec fn closest_without_value_after(old_c: Option<Contact>, sender: Contact, target: Id) -> Option<Contact> {
    match old_c {
        None => Some(sender),
        Some(c) => if bytes_lt(distance_key(target, sender), distance_key(target, c)) { Some(sender) } else { Some(c) },
    }
}

/// `n1` is `n0` except, possibly, for the lookup of `target`, which stays
/// present or absent.
pub open spec fn only_lookup_changed(n0: KademliaNode, n1: KademliaNode, target: Id) -> bool {
    &&& n1.id == n0.id
    &&& n1.k == n0.k
    &&& n1.routing_table == n0.routing_table
    &&& n1.pending_requests == n0.pending_requests
    &&& n1.completed_lookups == n0.completed_lookups
    &&& n1.store == n0.store
    &&& n1.active_stores == n0.active_stores
    &&& n1.completed_stores == n0.completed_stores
    &&& n1.init_refresh_needed == n0.init_refresh_needed
    &&& n1.active_lookups@.dom() == n0.active_lookups@.dom()
    &&& n1.active_lookups@.remove(target) == n0.active_lookups@.remove(target)
}

/// `n1` is `n0` after the reply `res` of `sender` to a FIND_NODE request:
/// the lookup of its target, if any, no longer waits for `sender` and
/// takes in the returned contacts.
pub open spec fn find_node_reply_taken(n0: KademliaNode, n1: KademliaNode, sender: Id, res: FindNodeResponse) -> bool {
    &&& only_lookup_changed(n0, n1, res.target)
    &&& n0.active_lookups@.dom().contains(res.target) ==> exists|l: NodeLookup|
        no_longer_pending(n0.active_lookups@[res.target], l, sender)
            && l.closest_without_value == n0.active_lookups@[res.target].closest_without_value
            && absorbed(l, n1.active_lookups@[res.target], res.contacts@, n0.id, n0.k as int)
}

/// `n1` is `n0` after the reply `res` of `sender` to a FIND_VALUE request.
/// With contacts: like a FIND_NODE reply, and `sender` may become the
/// closest node without the value. With the value: the lookup, if any,
/// completes with it and is dropped, and `out` stores the value at the
/// closest node that answered without it, if any.
pub open spec fn find_value_reply_taken(
    n0: KademliaNode,
    n1: KademliaNode,
    sender: Contact,
    res: FindValueResponse,
    out: Seq<Outgoing>,
) -> bool {
    let t = res.target;
    &&& n1.id == n0.id
    &&& n1.k == n0.k
    &&& n1.routing_table == n0.routing_table
    &&& n1.pending_requests == n0.pending_requests
    &&& n1.store == n0.store
    &&& n1.active_stores == n0.active_stores
    &&& n1.completed_stores == n0.completed_stores
    &&& n1.init_refresh_needed == n0.init_refresh_needed
    &&& match res.result {
        LookupResult::Contacts(cs) => {
            &&& out.len() == 0
            &&& only_lookup_changed(n0, n1, t)
            &&& n0.active_lookups@.dom().contains(t) ==> exists|l: NodeLookup|
                no_longer_pending(n0.active_lookups@[t], l, sender.id)
                    && l.closest_without_value == closest_without_value_after(n0.active_lookups@[t].closest_without_value, sender, t)
                    && absorbed(l, n1.active_lookups@[t], cs@, n0.id, n0.k as int)
        },
        LookupResult::Value(v, time) => {
            &&& n1.active_lookups@ == n0.active_lookups@.remove(t)
            &&& if n0.active_lookups@.dom().contains(t) {
                &&& n1.completed_lookups@.dom() == n0.completed_lookups@.dom().insert(t)
                &&& n1.completed_lookups@.remove(t) == n0.completed_lookups@.remove(t)
                &&& n1.completed_lookups@[t] matches LookupResult::Value(v1, time1) && v1@ == v@ && time1 == time
                &&& match n0.active_lookups@[t].closest_without_value {
                    Some(c) => if v@.len() <= MAX_VALUE_SIZE {
                        out.len() == 1 && store_for(out[0], n0.id, t, v@, time, c)
                    } else {
                        out.len() == 0
                    },
                    None => out.len() == 0,
                }
            } else {
                &&& n1.completed_lookups == n0.completed_lookups
                &&& out.len() == 0
            }
        },
    }
}

/// `n1` is `n0` after the reply `res` of `sender` to a STORE request: on
/// success `sender` is appended to the confirmations of the key, if the
/// key is one this node published.
pub open spec fn store_reply_taken(n0: KademliaNode, n1: KademliaNode, sender: Contact, res: StoreResponse) -> bool {
    &&& n1.id == n0.id
    &&& n1.k == n0.k
    &&& n1.routing_table == n0.routing_table
    &&& n1.pending_requests == n0.pending_requests
    &&& n1.active_lookups == n0.active_lookups
    &&& n1.completed_lookups == n0.completed_lookups
    &&& n1.store == n0.store
    &&& n1.active_stores == n0.active_stores
    &&& n1.init_refresh_needed == n0.init_refresh_needed
    &&& if (res.status is Stored) && n0.completed_stores@.dom().contains(res.key) {
        &&& n1.completed_stores@.dom() == n0.completed_stores@.dom()
        &&& n1.completed_stores@.remove(res.key) == n0.completed_stores@.remove(res.key)
        &&& n1.completed_stores@[res.key]@ == n0.completed_stores@[res.key]@.push(sender)
    } else {
        n1.completed_stores@ == n0.completed_stores@
    }
}

impl KademliaNode {
    fn take_find_node_reply(&mut self, sender: Id, res: FindNodeResponse)
        requires
            old(self).wf(),
        ensures
            final(self).wf(),
            find_node_reply_taken(*old(self), *final(self), sender, res),
    {
        let target = res.target;
        match self.active_lookups.remove(&target) {
            Some(mut lookup_state) => {
                lookup_state.pending.remove(&sender);
                let ghost l = lookup_state;
                lookup_state.absorb_contacts(&res.contacts, self.id, self.k);
                self.active_lookups.insert(target, lookup_state);
                proof {
                    assert(self.active_lookups@.dom() =~= old(self).active_lookups@.dom());
                    assert(self.active_lookups@.remove(target) =~= old(self).active_lookups@.remove(target));
                    assert(no_longer_pending(old(self).active_lookups@[target], l, sender));
                    assert forall|x: Id| #[trigger] self.active_lookups@.dom().contains(x)
                        implies lookup_consistent(self.active_lookups@[x], x, self.id) by {
                        if x != target {
                            assert(self.active_lookups@[x] == old(self).active_lookups@.remove(target)[x]);
                        }
                    }
                }
            },
            None => {
                assert(self.active_lookups@ =~= old(self).active_lookups@);
            },
        }
    }

    fn take_find_value_reply(&mut self, sender: Contact, res: FindValueResponse) -> (out: Vec<Outgoing>)
        requires
            old(self).wf(),
            sender.id != old(self).id,
        ensures
            final(self).wf(),
            find_value_reply_taken(*old(self), *final(self), sender, res, out@),
            outgoing_avoids(out@, old(self).id),
    {
        let target = res.target;
        let mut out: Vec<Outgoing> = Vec::new();
        match res.result {
            LookupResult::Contacts(contacts) => {
                match self.active_lookups.remove(&target) {
                    Some(mut lookup_state) => {
                        lookup_state.pending.remove(&sender.id);
                        lookup_state.note_reply_without_value(sender);
                        let ghost l = lookup_state;
                        lookup_state.absorb_contacts(&contacts, self.id, self.k);
                        self.active_lookups.insert(target, lookup_state);
                        proof {
                            assert(no_longer_pending(old(self).active_lookups@[target], l, sender.id));
                            assert(l.closest_without_value == closest_without_value_after(old(self).active_lookups@[target].closest_without_value, sender, target));
                            assert(absorbed(l, self.active_lookups@[target], contacts@, old(self).id, old(self).k as int));
                            assert(self.active_lookups@.dom() =~= old(self).active_lookups@.dom());
                            assert(self.active_lookups@.remove(target) =~= old(self).active_lookups@.remove(target));
                            assert forall|x: Id| #[trigger] self.active_lookups@.dom().contains(x)
                                implies lookup_consistent(self.active_lookups@[x], x, self.id) by {
                                if x != target {
                                    assert(self.active_lookups@[x] == old(self).active_lookups@.remove(target)[x]);
                                }
                            }
                        }
                    },
                    None => {
                        assert(self.active_lookups@ =~= old(self).active_lookups@);
                    },
                }
            },
            LookupResult::Value(value, time) => {
                let mut store_contact: Option<Contact> = None;
                match self.active_lookups.remove(&target) {
                    Some(lookup_state) => {
                        let copy = value.clone();
                        assert(copy@ =~= value@);
                        self.completed_lookups.insert(target, LookupResult::Value(copy, time));
                        assert(self.completed_lookups@.remove(target) =~= old(self).completed_lookups@.remove(target));
                        store_contact = lookup_state.closest_without_value;
                    },
                    None => {
                        assert(old(self).active_lookups@.remove(target) =~= old(self).active_lookups@);
                    },
                }
                match store_contact {
                    Some(c) => {
                        let nonce = Id::generate_id();
                        match send_store(self, c.addr, nonce, target, value, time) {
                            Ok(message) => {
                                out.push(Outgoing {
                                    message,
                                    follow_up: SendFollowUp::Await {
                                        nonce,
                                        request: PendingRequest::Store { recipient: c, sent_at: instant_now() },
                                        required: false,
                                    },
                                });
                            },
                            Err(_) => {},
                        }
                    },
                    None => {},
                }
                proof {
                    assert forall|x: Id| #[trigger] self.active_lookups@.dom().contains(x)
                        implies lookup_consistent(self.active_lookups@[x], x, self.id) by {
                        assert(self.active_lookups@[x] == old(self).active_lookups@.remove(target)[x]);
                    }
                    assert(self.active_lookups@ == old(self).active_lookups@.remove(target));
                    if old(self).active_lookups@.dom().contains(target) {
                        assert(self.completed_lookups@.dom() =~= old(self).completed_lookups@.dom().insert(target));
                    }
                }
            },
        }
        out
    }

    fn take_store_reply(&mut self, sender: Contact, res: StoreResponse)
        requires
            old(self).wf(),
        ensures
            final(self).wf(),
            store_reply_taken(*old(self), *final(self), sender, res),
    {
        match res.status {
            StoreStatus::Error(_) => {},
            StoreStatus::Stored => {
                match self.completed_stores.remove(&res.key) {
                    Some(mut confirmed) => {
                        confirmed.push(sender);
                        self.completed_stores.insert(res.key, confirmed);
                        assert(self.completed_stores@.dom() =~= old(self).completed_stores@.dom());
                        assert(self.completed_stores@.remove(res.key) =~= old(self).completed_stores@.remove(res.key));
                    },
                    None => {
                        assert(self.completed_stores@ =~= old(self).completed_stores@);
                    },
                }
            },
        }
    }
}

/// `n1` is `n0` with the pending request `nonce` dropped.
pub open spec fn request_answered(n0: KademliaNode, n1: KademliaNode, nonce: Id) -> bool {
    &&& n1.id == n0.id
    &&& n1.k == n0.k
    &&& n1.routing_table == n0.routing_table
    &&& n1.pending_requests@ == n0.pending_requests@.remove(nonce)
    &&& n1.active_lookups == n0.active_lookups
    &&& n1.completed_lookups == n0.completed_lookups
    &&& n1.store == n0.store
    &&& n1.active_stores == n0.active_stores
    &&& n1.completed_stores == n0.completed_stores
    &&& n1.init_refresh_needed == n0.init_refresh_needed
}

/// The messages a packet from `sender` leads to before the packet itself
/// is handled: when the sender's bucket is full (`r` is `PingRequired`), a
/// ping to the bucket's head that decides which of the two stays.
pub open spec fn eviction_part(out: Seq<Outgoing>, r: AddContactResult, sender: Contact, own: Id) -> bool {
    match r {
        AddContactResult::PingRequired(head) => {
            &&& out.len() == 1
            &&& out[0].message.dest == head.addr
            &&& out[0].follow_up matches SendFollowUp::EvictionCheck { nonce, candidate, recipient }
                && candidate == sender && recipient == head
                && out[0].message.packet == Packet::PingRequest(PingRequest { header: header_of(own, nonce) })
        },
        _ => out.len() == 0,
    }
}

/// Number of eviction pings that an outcome of `add_contact` calls for.
pub open spec fn eviction_count(r: AddContactResult) -> int {
    if r is PingRequired { 1 } else { 0 }
}

/// `n1` and `out` are `n0` and the messages after handling `packet` from
/// `sender`, whose table already holds the sender.
pub open spec fn packet_taken(n0: KademliaNode, n1: KademliaNode, sender: Contact, packet: Packet, out: Seq<Outgoing>) -> bool {
    let nonce = packet_header(packet).nonce;
    let src = sender.addr;
    match packet {
        Packet::PingRequest(req) => {
            &&& n1 == n0
            &&& out.len() == 1 && out[0].follow_up is Reply
            &&& out[0].message == Message {
                dest: src,
                packet: Packet::PingResponse(PingResponse { header: header_of(n0.id, req.header.nonce) }),
            }
        },
        Packet::PingResponse(_) => out.len() == 0 && request_answered(n0, n1, nonce),
        Packet::FindNodeRequest(req) => {
            &&& n1 == n0
            &&& out.len() == 1 && out[0].follow_up is Reply
            &&& find_node_reply(n0, src, req.header.nonce, req.target, out[0].message)
        },
        Packet::FindNodeResponse(res) => out.len() == 0 && exists|m: KademliaNode|
            request_answered(n0, m, nonce) && find_node_reply_taken(m, n1, sender.id, res),
        Packet::FindValueRequest(req) => {
            &&& n1 == n0
            &&& out.len() == 1 && out[0].follow_up is Reply
            &&& find_value_reply(n0, src, req.header.nonce, req.target, out[0].message)
        },
        Packet::FindValueResponse(res) => exists|m: KademliaNode|
            request_answered(n0, m, nonce) && find_value_reply_taken(m, n1, sender, res, out),
        Packet::StoreRequest(req) => {
            &&& replica_stored(n0, n1, req)
            &&& out.len() == 1 && out[0].follow_up is Reply
            &&& out[0].message == store_ack(n0.id, src, req)
        },
        Packet::StoreResponse(res) => out.len() == 0 && exists|m: KademliaNode|
            request_answered(n0, m, nonce) && store_reply_taken(m, n1, sender, res),
    }
}

impl KademliaNode {
    /// Handles a packet received from `src_addr`: the sender is added to
    /// (or refreshed in) the routing table, with an eviction ping when its
    /// bucket is full; then requests are answered, and responses settle
    /// their pending request and feed their lookup or store.
    pub fn handle_packet(&mut self, src_addr: PeerAddr, packet: Packet) -> (out: Vec<Outgoing>)
        requires
            old(self).wf(),
            packet_header(packet).sender_id != old(self).id,
            old(self).k > 0 || old(self).routing_table.bucket(bucket_of(old(self).id, packet_header(packet).sender_id)).len() > 0,
        ensures
            final(self).wf(),
            outgoing_avoids(out@, old(self).id),
            exists|m: KademliaNode, r: AddContactResult|
                #![trigger contact_added(old(self).routing_table, m.routing_table, Contact { addr: src_addr, id: packet_header(packet).sender_id }, r)]
                {
                    let sender = Contact { addr: src_addr, id: packet_header(packet).sender_id };
                    let e = eviction_count(r);
                    &&& contact_added(old(self).routing_table, m.routing_table, sender, r)
                    &&& m == KademliaNode { routing_table: m.routing_table, ..*old(self) }
                    &&& eviction_part(out@.subrange(0, e), r, sender, old(self).id)
                    &&& packet_taken(m, *final(self), sender, packet, out@.subrange(e, out@.len() as int))
                },
    {
        let header = *packet.header();
        let sender_id = header.sender_id;
        let nonce = header.nonce;
        let sender_contact = Contact { addr: src_addr, id: sender_id };
        let mut out: Vec<Outgoing> = Vec::new();
        let r = self.routing_table.add_contact(sender_contact);
        let ghost mid = *self;
        let e: usize = match r {
            AddContactResult::PingRequired(least_recently_seen) => {
                proof {
                    crate::routing::lemma_bucket_of_range(old(self).id, sender_id);
                    crate::routing::lemma_placed_avoids_own(old(self).routing_table, bucket_of(old(self).id, sender_id), 0);
                }
                let evict_check_nonce = Id::generate_id();
                out.push(Outgoing {
                    message: send_ping(self, least_recently_seen.addr, evict_check_nonce),
                    follow_up: SendFollowUp::EvictionCheck {
                        nonce: evict_check_nonce,
                        candidate: sender_contact,
                        recipient: least_recently_seen,
                    },
                });
                1
            },
            _ => 0,
        };
        proof {
            assert(mid == KademliaNode { routing_table: mid.routing_table, ..*old(self) });
            assert(out@.subrange(0, e as int) =~= out@);
        }
        let ghost head_out = out@;
        let mut rest: Vec<Outgoing> = Vec::new();
        match packet {
            Packet::PingRequest(req) => {
                rest.push(Outgoing { message: handle_ping(self, src_addr, req), follow_up: SendFollowUp::Reply });
            },
            Packet::PingResponse(_) => {
                self.pending_requests.remove(&nonce);
            },
            Packet::FindNodeRequest(req) => {
                rest.push(Outgoing { message: handle_find_node(self, src_addr, req), follow_up: SendFollowUp::Reply });
            },
            Packet::FindNodeResponse(res) => {
                self.pending_requests.remove(&nonce);
                let ghost answered = *self;
                self.take_find_node_reply(sender_id, res);
                assert(request_answered(mid, answered, nonce));
            },
            Packet::FindValueRequest(req) => {
                rest.push(Outgoing { message: handle_find_value(self, src_addr, req), follow_up: SendFollowUp::Reply });
            },
            Packet::FindValueResponse(res) => {
                self.pending_requests.remove(&nonce);
                let ghost answered = *self;
                rest = self.take_find_value_reply(sender_contact, res);
                assert(request_answered(mid, answered, nonce));
            },
            Packet::StoreRequest(req) => {
                rest.push(Outgoing { message: handle_store(self, src_addr, req), follow_up: SendFollowUp::Reply });
            },
            Packet::StoreResponse(res) => {
                self.pending_requests.remove(&nonce);
                let ghost answered = *self;
                self.take_store_reply(sender_contact, res);
                assert(request_answered(mid, answered, nonce));
            },
        }
        proof {
            assert forall|n: Id| #[trigger] self.pending_requests@.dom().contains(n)
                implies request_avoids(self.pending_requests@[n], self.id) by {
                assert(mid.pending_requests@.dom().contains(n));
            }
        }
        let ghost rest0 = rest@;
        out.append(&mut rest);
        proof {
            assert(out@.subrange(0, e as int) =~= head_out);
            assert(out@.subrange(e as int, out@.len() as int) =~= rest0);
            assert forall|i: int| 0 <= i < out@.len() implies follow_up_avoids(#[trigger] out@[i].follow_up, old(self).id) by {
                if i < e {
                    assert(out@[i] == head_out[i]);
                } else {
                    assert(out@[i] == rest0[i - e]);
                }
            }
            assert(packet_taken(mid, *self, sender_contact, packet, rest0));
        }
        out
    }
}

/// A value a node publishes is what the node's own value lookup of the key
/// then finds, at once and without sending anything.
pub proof fn law_lookup_finds_published_value(
    n0: KademliaNode,
    n1: KademliaNode,
    n2: KademliaNode,
    k: Id,
    value: Seq<u8>,
    time: i64,
    out1: Seq<Outgoing>,
    out2: Seq<Outgoing>,
)
    requires
        published(n0, n1, k, value, time, out1),
        lookup_started(n1, n2, LookupType::FindValue, k, out2),
    ensures
        out2.len() == 0,
        n2.completed_lookups@[k] matches LookupResult::Value(v, t) && v@ == value && t == time,
{
}

/// The contacts that a completed lookup found are listed closest to its
/// key first, in every consistent state of the node.
pub proof fn law_lookup_results_sorted(n: KademliaNode, key: Id)
    requires
        n.wf(),
        n.completed_lookups@.dom().contains(key),
        n.completed_lookups@[key] is Contacts,
    ensures
        n.completed_lookups@[key] matches LookupResult::Contacts(c) && sorted_by_distance(c@, key),
{
}

/// A FIND_NODE reply never moves the closest node of its lookup farther
/// from the target.
pub proof fn law_find_node_reply_never_farther(n0: KademliaNode, n1: KademliaNode, sender: Id, res: FindNodeResponse)
    requires
        n0.wf(),
        find_node_reply_taken(n0, n1, sender, res),
        n0.active_lookups@.dom().contains(res.target),
    ensures
        n1.active_lookups@.dom().contains(res.target),
        bytes_le(
            distance_key(res.target, n1.active_lookups@[res.target].closest_node),
            distance_key(res.target, n0.active_lookups@[res.target].closest_node),
        ),
{
    let l0 = n0.active_lookups@[res.target];
    let l = choose|l: NodeLookup|
        no_longer_pending(l0, l, sender)
            && l.closest_without_value == l0.closest_without_value
            && absorbed(l, n1.active_lookups@[res.target], res.contacts@, n0.id, n0.k as int);
    crate::lookup::law_closest_never_farther(l, n1.active_lookups@[res.target], res.contacts@, n0.id, n0.k as int);
    assert(l.target == l0.target);
}

/// A FIND_NODE reply keeps the identifiers of its lookup's shortlist
/// distinct when they were.
pub proof fn law_find_node_reply_keeps_ids_distinct(n0: KademliaNode, n1: KademliaNode, sender: Id, res: FindNodeResponse)
    requires
        find_node_reply_taken(n0, n1, sender, res),
        n0.active_lookups@.dom().contains(res.target),
        crate::routing::ids_unique(n0.active_lookups@[res.target].shortlist@),
    ensures
        n1.active_lookups@.dom().contains(res.target),
        crate::routing::ids_unique(n1.active_lookups@[res.target].shortlist@),
{
    let l0 = n0.active_lookups@[res.target];
    let l = choose|l: NodeLookup|
        no_longer_pending(l0, l, sender)
            && l.closest_without_value == l0.closest_without_value
            && absorbed(l, n1.active_lookups@[res.target], res.contacts@, n0.id, n0.k as int);
    crate::lookup::law_absorbed_keeps_ids_distinct(l, n1.active_lookups@[res.target], res.contacts@, n0.id, n0.k as int);
}

} // verus!
