# kademlia_rs

A Kademlia distributed hash table node whose logic is verified with Verus.

## Layout

- `src/` — the verified library.
  - `id.rs`: 160-bit identifiers, the XOR metric, leading-zero counts,
    identifiers drawn inside a bucket, SHA-1 keys, and the laws of the metric.
  - `routing.rs`: k-buckets and the routing table (add, evict, closest
    contacts), with the table's placement, uniqueness and capacity invariants.
  - `lookup.rs`: the state of an iterative lookup (shortlist, closest node,
    queried and pending nodes) and its rounds.
  - `protocol.rs`, `rpc.rs`: the wire messages, and the requests and replies
    a node builds.
  - `idmap.rs`: maps and sets keyed by identifier.
  - `node.rs`: the node's state machine — joining, storing, looking up,
    handling packets, time-outs, lookup rounds and bucket refreshes. Every
    operation returns the messages to send, each with what to record once
    it is sent.
  - `clock.rs`: the clock, behind small wrappers.
- `app/` — the program: command line, UDP socket, CBOR encoding and the
  receive loop that feeds packets and clock ticks to the node.
- `tests/` — tests run against the compiled library.
