use vstd::prelude::*;
use std::time::Instant;
use crate::clock::instant_now;
use crate::contact::Contact;
use crate::id::{
    Id, bytes_le, bytes_less, bytes_lt, is_leading_zero_count, leading_zero_bits,
    lemma_bytes_lt_total, lemma_bytes_lt_transitive, lemma_leading_zero_bits,
    lemma_leading_zero_count_unique, xor_seq,
};

verus! {

broadcast use vstd::seq_lib::group_seq_properties;

/// What `RoutingTable::add_contact` did with a contact.
pub enum AddContactResult {
    /// The contact was appended to its bucket.
    Added,
    /// The contact was already in its bucket and moved to the tail.
    Updated,
    /// The bucket is full: the caller should ping this least recently seen
    /// contact, and evict it if it does not answer.
    PingRequired(Contact),
}

/// A k-bucket: up to k contacts, least recently seen at the head.
pub struct KBucket {
    pub contacts: Vec<Contact>,
    pub last_update: Instant,
}

/// The routing table of a node: 160 k-buckets. Bucket `i` holds the contacts
/// whose distance to the node has exactly `i` leading zero bits.
pub struct RoutingTable {
    pub buckets: Vec<KBucket>,
    pub node_id: Id,
    pub k: usize,
}

/// The bucket that `id` falls into in the table of node `node_id`: the
/// number of leading zero bits of their distance.
pub open spec fn bucket_of(node_id: Id, id: Id) -> int {
    leading_zero_bits(xor_seq(node_id.id@, id.id@))
}

/// The contacts of a sequence of buckets, bucket after bucket.
pub open spec fn table_contacts(buckets: Seq<KBucket>) -> Seq<Contact>
    decreases buckets.len(),
{
    if buckets.len() == 0 {
        Seq::empty()
    } else {
        table_contacts(buckets.drop_last()) + buckets.last().contacts@
    }
}

/// `p` is the first position of `s` that holds a contact with identifier `id`.
pub open spec fn first_with_id(s: Seq<Contact>, id: Id, p: int) -> bool {
    &&& 0 <= p < s.len()
    &&& s[p].id == id
    &&& forall|q: int| 0 <= q < p ==> s[q].id != id
}

/// Some position of `s` holds a contact with identifier `id`.
pub open spec fn holds_id(s: Seq<Contact>, id: Id) -> bool {
    exists|p: int| 0 <= p < s.len() && s[p].id == id
}

/// No two contacts of `s` have the same identifier.
pub open spec fn ids_unique(s: Seq<Contact>) -> bool {
    forall|p: int, q: int| 0 <= p < s.len() && 0 <= q < s.len() && p != q ==> s[p].id != s[q].id
}

/// Distance of a contact to `target`, the key by which contacts are sorted.
pub open spec fn distance_key(target: Id, c: Contact) -> Seq<u8> {
    xor_seq(target.id@, c.id.id@)
}

/// `s` is sorted by increasing distance to `target`.
pub open spec fn sorted_by_distance(s: Seq<Contact>, target: Id) -> bool {
    forall|i: int, j: int|
        0 <= i < j < s.len() ==> bytes_le(
            #[trigger] distance_key(target, s[i]),
            #[trigger] distance_key(target, s[j]),
        )
}

/// The contacts of `s` at distance `d` from `target`, in their order in `s`.
pub open spec fn at_distance(s: Seq<Contact>, target: Id, d: Seq<u8>) -> Seq<Contact> {
    s.filter(|c: Contact| distance_key(target, c) == d)
}

/// `r` is `s` stably sorted by distance to `target`: sorted, and for every
/// distance the contacts at that distance come in the same order as in `s`.
pub open spec fn stable_sort_by_distance(r: Seq<Contact>, s: Seq<Contact>, target: Id) -> bool {
    &&& sorted_by_distance(r, target)
    &&& forall|d: Seq<u8>| #[trigger] at_distance(r, target, d) == at_distance(s, target, d)
}

/// `r` is the `n` contacts of `all` closest to `target` (all of them when
/// there are fewer), closest first, contacts at equal distance in their
/// order in `all`.
pub open spec fn closest_of(all: Seq<Contact>, target: Id, n: int, r: Seq<Contact>) -> bool {
    &&& r.len() == if n < all.len() { n } else { all.len() as int }
    &&& exists|s: Seq<Contact>|
        #![trigger stable_sort_by_distance(s, all, target)]
        s.len() == all.len() && stable_sort_by_distance(s, all, target) && r == s.subrange(0, r.len() as int)
}

/// Every contact of a stable sort of `all` is a contact of `all`.
pub proof fn lemma_stable_sort_members(s: Seq<Contact>, all: Seq<Contact>, target: Id)
    requires
        stable_sort_by_distance(s, all, target),
    ensures
        forall|i: int| 0 <= i < s.len() ==> all.contains(#[trigger] s[i]),
{
    assert forall|i: int| 0 <= i < s.len() implies all.contains(#[trigger] s[i]) by {
        let d = distance_key(target, s[i]);
        let pred = |c: Contact| distance_key(target, c) == d;
        s.lemma_filter_contains(pred, i);
        assert(at_distance(s, target, d) == at_distance(all, target, d));
        all.lemma_filter_contains_rev(pred, s[i]);
    }
}

/// The closest contacts that `get_closest_contacts` returns (any selection
/// `closest_of` describes) are sorted by distance to the target.
pub proof fn law_closest_contacts_sorted(all: Seq<Contact>, target: Id, n: int, r: Seq<Contact>)
    requires
        closest_of(all, target, n, r),
    ensures
        sorted_by_distance(r, target),
{
    let s = choose|s: Seq<Contact>|
        #![trigger stable_sort_by_distance(s, all, target)]
        s.len() == all.len() && stable_sort_by_distance(s, all, target) && r == s.subrange(0, r.len() as int);
    assert forall|i: int, j: int| 0 <= i < j < r.len() implies bytes_le(
        #[trigger] distance_key(target, r[i]),
        #[trigger] distance_key(target, r[j]),
    ) by {
        assert(r[i] == s[i]);
        assert(r[j] == s[j]);
    }
}

/// Removing a contact keeps a sequence sorted by distance.
pub proof fn lemma_sorted_remove(s: Seq<Contact>, target: Id, p: int)
    requires
        sorted_by_distance(s, target),
        0 <= p < s.len(),
    ensures
        sorted_by_distance(s.remove(p), target),
{
    let r = s.remove(p);
    assert forall|i: int, j: int| 0 <= i < j < r.len() implies bytes_le(
        #[trigger] distance_key(target, r[i]),
        #[trigger] distance_key(target, r[j]),
    ) by {
        let i0 = if i < p { i } else { i + 1 };
        let j0 = if j < p { j } else { j + 1 };
        assert(r[i] == s[i0]);
        assert(r[j] == s[j0]);
        assert(distance_key(target, s[i0]) == distance_key(target, r[i]));
        assert(distance_key(target, s[j0]) == distance_key(target, r[j]));
    }
}

/// The contacts at one distance, taken from a list whose identifiers are
/// distinct, have distinct identifiers.
proof fn lemma_at_distance_unique(s: Seq<Contact>, target: Id, d: Seq<u8>)
    requires
        ids_unique(s),
    ensures
        ids_unique(at_distance(s, target, d)),
    decreases s.len(),
{
    let pred = |c: Contact| distance_key(target, c) == d;
    if s.len() > 0 {
        let s0 = s.drop_last();
        let x = s.last();
        assert(s0.push(x) =~= s);
        assert forall|p: int, q: int| 0 <= p < s0.len() && 0 <= q < s0.len() && p != q implies s0[p].id != s0[q].id by {
            assert(s[p] == s0[p] && s[q] == s0[q]);
        }
        lemma_at_distance_unique(s0, target, d);
        s0.lemma_filter_push(x, pred);
        if pred(x) {
            let f0 = s0.filter(pred);
            let f = f0.push(x);
            assert forall|p: int| 0 <= p < f0.len() implies f0[p].id != x.id by {
                s0.lemma_filter_contains_rev(pred, f0[p]);
                let q = choose|q: int| 0 <= q < s0.len() && s0[q] == f0[p];
                assert(s[q] == s0[q]);
                assert(s[s.len() - 1] == x);
            }
            assert forall|p: int, q: int| 0 <= p < f.len() && 0 <= q < f.len() && p != q implies f[p].id != f[q].id by {
                if p < f0.len() && q < f0.len() {
                    assert(f[p] == f0[p] && f[q] == f0[q]);
                } else if p < f0.len() {
                    assert(f[p] == f0[p] && f[q] == x);
                } else {
                    assert(f[q] == f0[q] && f[p] == x);
                }
            }
        }
    }
}

/// Two contacts of `s` at distance `d` from `target` have different
/// identifiers when the contacts of `s` at that distance do.
proof fn lemma_unique_from_at_distance(s: Seq<Contact>, target: Id, d: Seq<u8>, p: int, q: int)
    requires
        ids_unique(at_distance(s, target, d)),
        0 <= p < s.len(),
        0 <= q < s.len(),
        p != q,
        distance_key(target, s[p]) == d,
        distance_key(target, s[q]) == d,
    ensures
        s[p].id != s[q].id,
    decreases s.len(),
{
    let pred = |c: Contact| distance_key(target, c) == d;
    let s0 = s.drop_last();
    let x = s.last();
    let last = s.len() - 1;
    assert(s0.push(x) =~= s);
    s0.lemma_filter_push(x, pred);
    let f0 = s0.filter(pred);
    if p < last && q < last {
        assert(s[p] == s0[p] && s[q] == s0[q]);
        if pred(x) {
            let f = f0.push(x);
            assert forall|a: int, b: int| 0 <= a < f0.len() && 0 <= b < f0.len() && a != b implies f0[a].id != f0[b].id by {
                assert(f[a] == f0[a] && f[b] == f0[b]);
            }
        }
        lemma_unique_from_at_distance(s0, target, d, p, q);
    } else {
        let o = if p == last { q } else { p };
        assert(s[o] == s0[o]);
        assert(s[last] == x);
        assert(pred(x));
        s0.lemma_filter_contains(pred, o);
        let k = choose|k: int| 0 <= k < f0.len() && f0[k] == s0[o];
        let f = f0.push(x);
        assert(f[k] == f0[k] && f[f0.len() as int] == x);
    }
}

/// A stable sort of a list whose identifiers are distinct has distinct
/// identifiers.
pub proof fn lemma_stable_sort_unique(s: Seq<Contact>, all: Seq<Contact>, target: Id)
    requires
        stable_sort_by_distance(s, all, target),
        ids_unique(all),
    ensures
        ids_unique(s),
{
    assert forall|p: int, q: int| 0 <= p < s.len() && 0 <= q < s.len() && p != q implies s[p].id != s[q].id by {
        if s[p].id == s[q].id {
            let d = distance_key(target, s[p]);
            assert(distance_key(target, s[q]) == d);
            lemma_at_distance_unique(all, target, d);
            assert(at_distance(s, target, d) == at_distance(all, target, d));
            lemma_unique_from_at_distance(s, target, d, p, q);
        }
    }
}

/// A selection of closest contacts from a list whose identifiers are
/// distinct has distinct identifiers.
pub proof fn lemma_closest_unique(all: Seq<Contact>, target: Id, n: int, r: Seq<Contact>)
    requires
        closest_of(all, target, n, r),
        ids_unique(all),
    ensures
        ids_unique(r),
{
    let s = choose|s: Seq<Contact>|
        #![trigger stable_sort_by_distance(s, all, target)]
        s.len() == all.len() && stable_sort_by_distance(s, all, target) && r == s.subrange(0, r.len() as int);
    lemma_stable_sort_unique(s, all, target);
    assert forall|p: int, q: int| 0 <= p < r.len() && 0 <= q < r.len() && p != q implies r[p].id != r[q].id by {
        assert(r[p] == s[p] && r[q] == s[q]);
    }
}

/// Every contact of a selection of closest contacts of `all` is in `all`.
pub proof fn lemma_closest_members(all: Seq<Contact>, target: Id, n: int, r: Seq<Contact>)
    requires
        closest_of(all, target, n, r),
    ensures
        forall|i: int| 0 <= i < r.len() ==> all.contains(#[trigger] r[i]),
{
    let s = choose|s: Seq<Contact>|
        #![trigger stable_sort_by_distance(s, all, target)]
        s.len() == all.len() && stable_sort_by_distance(s, all, target) && r == s.subrange(0, r.len() as int);
    lemma_stable_sort_members(s, all, target);
    assert forall|i: int| 0 <= i < r.len() implies all.contains(#[trigger] r[i]) by {
        assert(r[i] == s[i]);
    }
}

/// `t1` is `t0` after `add_contact(c)` returned `r`: a contact already in
/// its bucket moves to the tail (`Updated`); a new contact is appended when
/// the bucket has fewer than k contacts (`Added`); otherwise the table is
/// unchanged and the head of the bucket is returned (`PingRequired`).
pub open spec fn contact_added(t0: RoutingTable, t1: RoutingTable, c: Contact, r: AddContactResult) -> bool {
    let i = bucket_of(t0.node_id, c.id);
    let b = t0.bucket(i);
    &&& t1.same_except(&t0, i)
    &&& match r {
        AddContactResult::Updated => exists|p: int| first_with_id(b, c.id, p) && t1.bucket(i) == b.remove(p).push(c),
        AddContactResult::Added => {
            &&& !holds_id(b, c.id)
            &&& b.len() < t0.k
            &&& t1.bucket(i) == b.push(c)
        },
        AddContactResult::PingRequired(head) => {
            &&& !holds_id(b, c.id)
            &&& b.len() >= t0.k
            &&& head == b[0]
            &&& t1.bucket(i) == b
        },
    }
}

/// `t1` is `t0` with the first contact having `c`'s identifier removed from
/// `c`'s bucket, or unchanged when there is none.
pub open spec fn contact_evicted(t0: RoutingTable, t1: RoutingTable, c: Contact) -> bool {
    let i = bucket_of(t0.node_id, c.id);
    let b = t0.bucket(i);
    &&& t1.same_except(&t0, i)
    &&& !holds_id(b, c.id) ==> t1.bucket(i) == b
    &&& forall|p: int| first_with_id(b, c.id, p) ==> t1.bucket(i) == b.remove(p)
}

/// `t1` is `t0` with `c` appended to the tail of its bucket.
pub open spec fn contact_appended(t0: RoutingTable, t1: RoutingTable, c: Contact) -> bool {
    let i = bucket_of(t0.node_id, c.id);
    &&& t1.same_except(&t0, i)
    &&& t1.bucket(i) == t0.bucket(i).push(c)
}

/// After `evict(c)` on a table whose buckets hold each identifier once, no
/// contact with `c`'s identifier is left in `c`'s bucket.
pub proof fn law_evict_removes(t0: RoutingTable, t1: RoutingTable, c: Contact)
    requires
        t0.wf(),
        t0.unique(),
        0 <= bucket_of(t0.node_id, c.id) < 160,
        contact_evicted(t0, t1, c),
    ensures
        !holds_id(t1.bucket(bucket_of(t0.node_id, c.id)), c.id),
{
    let i = bucket_of(t0.node_id, c.id);
    let b = t0.bucket(i);
    if holds_id(b, c.id) {
        let p = choose|p: int| 0 <= p < b.len() && b[p].id == c.id;
        assert(first_with_id(b, c.id, p)) by {
            assert forall|q: int| 0 <= q < p implies b[q].id != c.id by {
                assert(ids_unique(b));
            }
        }
        let r = b.remove(p);
        assert(t1.bucket(i) == r);
        if holds_id(r, c.id) {
            let q = choose|q: int| 0 <= q < r.len() && r[q].id == c.id;
            if q < p {
                assert(r[q] == b[q]);
            } else {
                assert(r[q] == b[q + 1]);
            }
        }
    }
}

/// After `add_contact(c)` adds or refreshes `c`, `c` is the most recently
/// seen contact of its bucket: its tail.
pub proof fn law_added_contact_is_tail(t0: RoutingTable, t1: RoutingTable, c: Contact, r: AddContactResult)
    requires
        contact_added(t0, t1, c, r),
        !(r is PingRequired),
    ensures
        t1.bucket(bucket_of(t0.node_id, c.id)).len() > 0,
        t1.bucket(bucket_of(t0.node_id, c.id)).last() == c,
{
}

/// The distance from a node to itself selects no bucket: it has 160 leading
/// zero bits.
pub proof fn lemma_bucket_of_self(id: Id)
    ensures
        bucket_of(id, id) == 160,
{
    crate::id::law_distance_to_self_is_zero(id);
    crate::id::law_leading_zeros_all_zero(xor_seq(id.id@, id.id@));
    lemma_leading_zero_bits(xor_seq(id.id@, id.id@));
    lemma_leading_zero_count_unique(xor_seq(id.id@, id.id@), 160, leading_zero_bits(xor_seq(id.id@, id.id@)));
}

/// A bucket index lies in 0..=160, and is 160 only for the node itself.
pub proof fn lemma_bucket_of_range(node_id: Id, id: Id)
    ensures
        0 <= bucket_of(node_id, id) <= 160,
        bucket_of(node_id, id) == 160 <==> id == node_id,
{
    let d = xor_seq(node_id.id@, id.id@);
    assert(d.len() == 20);
    lemma_leading_zero_bits(d);
    crate::id::law_leading_zeros_all_zero(d);
    crate::id::law_distance_zero_iff_equal(node_id, id);
    if id == node_id {
        lemma_leading_zero_count_unique(d, 160, leading_zero_bits(d));
    }
}

/// In a table whose contacts sit in their buckets, no contact has the
/// node's own identifier.
pub proof fn lemma_placed_avoids_own(t: RoutingTable, i: int, j: int)
    requires
        t.placed(),
        0 <= i < 160,
        0 <= j < t.bucket(i).len(),
    ensures
        t.bucket(i)[j].id != t.node_id,
{
    lemma_bucket_of_self(t.node_id);
    assert(bucket_of(t.node_id, t.bucket(i)[j].id) == i);
}

/// Position of the first contact of `contacts` with identifier `id`.
pub(crate) fn position_of_id(contacts: &Vec<Contact>, id: Id) -> (r: Option<usize>)
    ensures
        match r {
            Some(p) => first_with_id(contacts@, id, p as int),
            None => !holds_id(contacts@, id),
        },
{
    let mut i: usize = 0;
    while i < contacts.len()
        invariant
            i <= contacts.len(),
            forall|q: int| 0 <= q < i ==> contacts@[q].id != id,
        decreases contacts.len() - i,
    {
        if contacts[i].id == id {
            return Some(i);
        }
        i = i + 1;
    }
    None
}

/// The position at which a contact at distance `key` from `target` goes into
/// the sorted `sorted`: after every contact that is not farther.
fn insertion_point(sorted: &Vec<Contact>, target: Id, key: &Id) -> (p: usize)
    ensures
        p <= sorted.len(),
        forall|q: int| 0 <= q < p ==> !bytes_lt(key.id@, #[trigger] distance_key(target, sorted@[q])),
        p < sorted.len() ==> bytes_lt(key.id@, distance_key(target, sorted@[p as int])),
{
    let mut p: usize = 0;
    while p < sorted.len()
        invariant
            p <= sorted.len(),
            forall|q: int| 0 <= q < p ==> !bytes_lt(key.id@, #[trigger] distance_key(target, sorted@[q])),
        decreases sorted.len() - p,
    {
        let kq = target.distance(sorted[p].id);
        if bytes_less(&key.id, &kq.id) {
            return p;
        }
        p = p + 1;
    }
    p
}

proof fn lemma_insert_sorted(r: Seq<Contact>, target: Id, p: int, x: Contact)
    requires
        sorted_by_distance(r, target),
        0 <= p <= r.len(),
        forall|q: int| 0 <= q < p ==> !bytes_lt(distance_key(target, x), #[trigger] distance_key(target, r[q])),
        p < r.len() ==> bytes_lt(distance_key(target, x), distance_key(target, r[p])),
    ensures
        sorted_by_distance(r.insert(p, x), target),
        forall|d: Seq<u8>| #[trigger] at_distance(r.insert(p, x), target, d) == if distance_key(target, x) == d {
            at_distance(r, target, d).push(x)
        } else {
            at_distance(r, target, d)
        },
{
    let s = r.insert(p, x);
    let kx = distance_key(target, x);
    assert forall|q: int| p <= q < r.len() implies bytes_lt(kx, #[trigger] distance_key(target, r[q])) by {
        if q > p {
            assert(bytes_le(distance_key(target, r[p]), distance_key(target, r[q])));
            if distance_key(target, r[p]) != distance_key(target, r[q]) {
                lemma_bytes_lt_transitive(kx, distance_key(target, r[p]), distance_key(target, r[q]));
            }
        }
    }
    assert forall|i: int, j: int| 0 <= i < j < s.len() implies bytes_le(
        #[trigger] distance_key(target, s[i]),
        #[trigger] distance_key(target, s[j]),
    ) by {
        if j < p {
            assert(s[i] == r[i] && s[j] == r[j]);
        } else if j == p {
            assert(s[i] == r[i]);
            assert(!bytes_lt(kx, distance_key(target, r[i])));
            lemma_bytes_lt_total(kx, distance_key(target, r[i]));
        } else if i == p {
            assert(s[j] == r[j - 1]);
        } else if i < p {
            assert(s[i] == r[i] && s[j] == r[j - 1]);
        } else {
            assert(s[i] == r[i - 1] && s[j] == r[j - 1]);
        }
    }
    assert forall|d: Seq<u8>| #[trigger] at_distance(s, target, d) == if kx == d {
        at_distance(r, target, d).push(x)
    } else {
        at_distance(r, target, d)
    } by {
        let pred = |c: Contact| distance_key(target, c) == d;
        let front = r.subrange(0, p);
        let back = r.subrange(p, r.len() as int);
        assert(s == front.push(x) + back);
        assert(r == front + back);
        Seq::filter_distributes_over_add(front.push(x), back, pred);
        Seq::filter_distributes_over_add(front, back, pred);
        front.lemma_filter_push(x, pred);
        if kx == d {
            assert forall|q: int| 0 <= q < back.len() implies !pred(#[trigger] back[q]) by {
                assert(back[q] == r[p + q]);
                assert(bytes_lt(kx, distance_key(target, r[p + q])));
            }
            back.lemma_all_neg_filter_empty(pred);
            assert(back.filter(pred) =~= Seq::<Contact>::empty());
        }
    }
}

/// Stable sort of `contacts` by increasing distance to `target`.
pub fn sort_by_distance(contacts: &mut Vec<Contact>, target: Id)
    ensures
        final(contacts)@.len() == old(contacts)@.len(),
        stable_sort_by_distance(final(contacts)@, old(contacts)@, target),
{
    let mut sorted: Vec<Contact> = Vec::new();
    let n = contacts.len();
    let mut i: usize = 0;
    assert(contacts@.take(0) =~= Seq::<Contact>::empty());
    while i < n
        invariant
            n == contacts.len(),
            i <= n,
            sorted@.len() == i,
            sorted_by_distance(sorted@, target),
            forall|d: Seq<u8>| #[trigger] at_distance(sorted@, target, d) == at_distance(contacts@.take(i as int), target, d),
        decreases n - i,
    {
        let c = contacts[i];
        let key = target.distance(c.id);
        let p = insertion_point(&sorted, target, &key);
        proof {
            lemma_insert_sorted(sorted@, target, p as int, c);
            assert(contacts@.take(i + 1) == contacts@.take(i as int).push(c));
            assert forall|d: Seq<u8>| #[trigger] at_distance(sorted@.insert(p as int, c), target, d)
                == at_distance(contacts@.take(i + 1), target, d) by {
                let pred = |x: Contact| distance_key(target, x) == d;
                contacts@.take(i as int).lemma_filter_push(c, pred);
                assert(at_distance(sorted@, target, d) == at_distance(contacts@.take(i as int), target, d));
            }
        }
        sorted.insert(p, c);
        i = i + 1;
    }
    assert(contacts@.take(n as int) =~= contacts@);
    *contacts = sorted;
}

impl KBucket {
    /// An empty bucket.
    pub fn new() -> (r: KBucket)
        ensures
            r.contacts@ == Seq::<Contact>::empty(),
    {
        KBucket { contacts: Vec::new(), last_update: instant_now() }
    }
}

impl RoutingTable {
    /// The table has its 160 buckets.
    pub open spec fn wf(&self) -> bool {
        self.buckets@.len() == 160
    }

    /// The contacts of bucket `i`.
    pub open spec fn bucket(&self, i: int) -> Seq<Contact> {
        self.buckets@[i].contacts@
    }

    /// Every contact sits in the bucket that its distance to the node selects.
    pub open spec fn placed(&self) -> bool {
        forall|i: int, j: int|
            0 <= i < 160 && 0 <= j < self.bucket(i).len() ==> bucket_of(self.node_id, #[trigger] self.bucket(i)[j].id) == i
    }

    /// No bucket holds two contacts with the same identifier.
    pub open spec fn unique(&self) -> bool {
        forall|i: int| 0 <= i < 160 ==> ids_unique(#[trigger] self.bucket(i))
    }

    /// No bucket holds more than k contacts.
    pub open spec fn within_capacity(&self) -> bool {
        forall|i: int| 0 <= i < 160 ==> #[trigger] self.bucket(i).len() <= self.k
    }

    /// Every contact of the table, bucket after bucket.
    pub open spec fn all_contacts(&self) -> Seq<Contact> {
        table_contacts(self.buckets@)
    }

    /// Buckets other than `i` are the same in `self` and `other`.
    pub open spec fn same_except(&self, other: &RoutingTable, i: int) -> bool {
        &&& self.node_id == other.node_id
        &&& self.k == other.k
        &&& self.buckets@.len() == other.buckets@.len()
        &&& forall|j: int| 0 <= j < 160 && j != i ==> #[trigger] self.bucket(j) == other.bucket(j)
    }

    /// An empty table for node `id` with bucket size `k`.
    pub fn new(id: Id, k: usize) -> (r: RoutingTable)
        ensures
            r.wf(),
            r.node_id == id,
            r.k == k,
            forall|i: int| 0 <= i < 160 ==> #[trigger] r.bucket(i) == Seq::<Contact>::empty(),
            r.placed(),
            r.unique(),
            r.within_capacity(),
    {
        let mut buckets: Vec<KBucket> = Vec::new();
        let mut i: usize = 0;
        while i < 160
            invariant
                i <= 160,
                buckets@.len() == i,
                forall|j: int| 0 <= j < i ==> #[trigger] buckets@[j].contacts@ == Seq::<Contact>::empty(),
            decreases 160 - i,
        {
            buckets.push(KBucket::new());
            i = i + 1;
        }
        RoutingTable { buckets, node_id: id, k }
    }

    /// Index of the bucket that `target_id` falls into: the number of leading
    /// zero bits of its distance to the node; 160 for the node's own id.
    pub fn get_bucket_index(&self, target_id: Id) -> (r: usize)
        ensures
            r as int == bucket_of(self.node_id, target_id),
            r <= 160,
            r == 160 <==> target_id == self.node_id,
    {
        let dist = self.node_id.distance(target_id);
        let lz = dist.leading_zeros();
        proof {
            lemma_leading_zero_bits(dist.id@);
            lemma_leading_zero_count_unique(dist.id@, lz as int, leading_zero_bits(dist.id@));
            crate::id::law_leading_zeros_all_zero(dist.id@);
            crate::id::law_distance_zero_iff_equal(self.node_id, target_id);
        }
        lz as usize
    }
}

impl RoutingTable {
    /// Adds a contact to its bucket. A contact already present is moved to
    /// the tail; otherwise it is appended if the bucket has room; otherwise
    /// the head of the bucket (the least recently seen contact) is returned
    /// for the caller to ping, and the table is left as it was.
    pub fn add_contact(&mut self, contact: Contact) -> (r: AddContactResult)
        requires
            old(self).wf(),
            contact.id != old(self).node_id,
            old(self).k > 0 || old(self).bucket(bucket_of(old(self).node_id, contact.id)).len() > 0,
        ensures
            final(self).wf(),
            contact_added(*old(self), *final(self), contact, r),
            r is PingRequired ==> *final(self) == *old(self),
            old(self).placed() ==> final(self).placed(),
            old(self).unique() ==> final(self).unique(),
            old(self).within_capacity() ==> final(self).within_capacity(),
    {
        let index = self.get_bucket_index(contact.id);
        let ghost b = self.bucket(index as int);
        let found = position_of_id(&self.buckets[index].contacts, contact.id);
        if found.is_none() && self.buckets[index].contacts.len() >= self.k {
            let least_recently_seen = self.buckets[index].contacts[0];
            proof {
                lemma_bucket_change_keeps(*old(self), *self, index as int, contact.id);
            }
            return AddContactResult::PingRequired(least_recently_seen);
        }
        let bucket = &mut self.buckets[index];
        let r = match found {
            Some(pos) => {
                bucket.contacts.remove(pos);
                bucket.contacts.push(contact);
                bucket.last_update = instant_now();
                proof {
                    lemma_remove_push_keeps(b, pos as int, contact);
                }
                AddContactResult::Updated
            },
            None => {
                bucket.contacts.push(contact);
                bucket.last_update = instant_now();
                proof {
                    lemma_push_keeps_unique(b, contact);
                }
                AddContactResult::Added
            },
        };
        proof {
            lemma_bucket_change_keeps(*old(self), *self, index as int, contact.id);
        }
        r
    }
}

impl RoutingTable {
    /// Removes the head (least recently seen contact) of the bucket that
    /// `contact` falls into.
    pub fn evict_head(&mut self, contact: Contact)
        requires
            old(self).wf(),
            contact.id != old(self).node_id,
            old(self).bucket(bucket_of(old(self).node_id, contact.id)).len() > 0,
        ensures
            final(self).wf(),
            final(self).same_except(old(self), bucket_of(old(self).node_id, contact.id)),
            final(self).bucket(bucket_of(old(self).node_id, contact.id))
                == old(self).bucket(bucket_of(old(self).node_id, contact.id)).remove(0),
            old(self).placed() ==> final(self).placed(),
            old(self).unique() ==> final(self).unique(),
            old(self).within_capacity() ==> final(self).within_capacity(),
    {
        let index = self.get_bucket_index(contact.id);
        let ghost b = self.bucket(index as int);
        let bucket = &mut self.buckets[index];
        bucket.contacts.remove(0);
        bucket.last_update = instant_now();
        proof {
            lemma_remove_keeps(b, 0, contact.id);
            lemma_bucket_change_keeps(*old(self), *self, index as int, contact.id);
        }
    }

    /// Removes the first contact with `contact`'s identifier from its bucket;
    /// does nothing if there is none.
    pub fn evict(&mut self, contact: Contact)
        requires
            old(self).wf(),
            contact.id != old(self).node_id,
        ensures
            final(self).wf(),
            contact_evicted(*old(self), *final(self), contact),
            old(self).placed() ==> final(self).placed(),
            old(self).unique() ==> final(self).unique(),
            old(self).within_capacity() ==> final(self).within_capacity(),
    {
        let index = self.get_bucket_index(contact.id);
        let ghost b = self.bucket(index as int);
        let bucket = &mut self.buckets[index];
        match position_of_id(&bucket.contacts, contact.id) {
            Some(pos) => {
                bucket.contacts.remove(pos);
                bucket.last_update = instant_now();
                proof {
                    lemma_remove_keeps(b, pos as int, contact.id);
                    lemma_first_with_id_unique(b, contact.id, pos as int);
                }
            },
            None => {
                proof {
                    lemma_remove_keeps(b, 0, contact.id);
                }
            },
        }
        proof {
            lemma_bucket_change_keeps(*old(self), *self, index as int, contact.id);
        }
    }

    /// Appends `contact` to the tail of its bucket, without checking for
    /// duplicates or capacity.
    pub fn add(&mut self, contact: Contact)
        requires
            old(self).wf(),
            contact.id != old(self).node_id,
        ensures
            final(self).wf(),
            contact_appended(*old(self), *final(self), contact),
            old(self).placed() ==> final(self).placed(),
    {
        let index = self.get_bucket_index(contact.id);
        let ghost b = self.bucket(index as int);
        let bucket = &mut self.buckets[index];
        bucket.contacts.push(contact);
        bucket.last_update = instant_now();
        proof {
            assert forall|j: int| 0 <= j < b.push(contact).len() implies #[trigger] b.push(contact)[j].id == contact.id
                || exists|q: int| 0 <= q < b.len() && b.push(contact)[j].id == b[q].id by {
                if j < b.len() {
                    assert(b.push(contact)[j] == b[j]);
                }
            }
            if old(self).placed() {
                assert forall|a: int, j: int| 0 <= a < 160 && 0 <= j < self.bucket(a).len() implies bucket_of(self.node_id, #[trigger] self.bucket(a)[j].id) == a by {
                    if a != index {
                        assert(self.bucket(a) == old(self).bucket(a));
                    } else if j < b.len() {
                        assert(self.bucket(a)[j] == b[j]);
                    }
                }
            }
        }
    }

    /// The `n` contacts of the table closest to `target`, closest first; all
    /// of them if the table holds fewer than `n`. Contacts at equal distance
    /// keep their order in the table.
    pub fn get_closest_contacts(&self, target: Id, n: usize) -> (r: Vec<Contact>)
        requires
            self.wf(),
        ensures
            closest_of(self.all_contacts(), target, n as int, r@),
    {
        let mut contacts: Vec<Contact> = Vec::new();
        let mut i: usize = 0;
        while i < 160
            invariant
                self.wf(),
                i <= 160,
                contacts@ == table_contacts(self.buckets@.subrange(0, i as int)),
            decreases 160 - i,
        {
            let bucket = &self.buckets[i];
            let mut j: usize = 0;
            let ghost before = contacts@;
            while j < bucket.contacts.len()
                invariant
                    j <= bucket.contacts.len(),
                    contacts@ == before + bucket.contacts@.subrange(0, j as int),
                decreases bucket.contacts.len() - j,
            {
                contacts.push(bucket.contacts[j]);
                j = j + 1;
                assert(contacts@ =~= before + bucket.contacts@.subrange(0, j as int));
            }
            proof {
                let upto = self.buckets@.subrange(0, i + 1);
                assert(upto.drop_last() =~= self.buckets@.subrange(0, i as int));
                assert(bucket.contacts@.subrange(0, j as int) =~= bucket.contacts@);
            }
            i = i + 1;
        }
        assert(self.buckets@.subrange(0, 160) =~= self.buckets@);
        let ghost all = contacts@;
        sort_by_distance(&mut contacts, target);
        let ghost sorted = contacts@;
        contacts.truncate(n);
        assert(stable_sort_by_distance(sorted, all, target));
        contacts
    }
}

impl RoutingTable {
    /// Whether the table holds no contact.
    pub fn is_empty(&self) -> (r: bool)
        requires
            self.wf(),
        ensures
            r == (self.all_contacts().len() == 0),
    {
        let mut i: usize = 0;
        while i < 160
            invariant
                self.wf(),
                i <= 160,
                table_contacts(self.buckets@.subrange(0, i as int)).len() == 0,
            decreases 160 - i,
        {
            proof {
                let upto = self.buckets@.subrange(0, i + 1);
                assert(upto.drop_last() =~= self.buckets@.subrange(0, i as int));
            }
            if self.buckets[i].contacts.len() > 0 {
                proof {
                    lemma_table_contacts_len_grows(self.buckets@, i as int + 1, 160);
                    assert(self.buckets@.subrange(0, 160) =~= self.buckets@);
                }
                return false;
            }
            i = i + 1;
        }
        assert(self.buckets@.subrange(0, 160) =~= self.buckets@);
        true
    }
}

/// Two tables whose buckets hold the same contacts hold the same contacts.
pub proof fn lemma_same_contacts(b1: Seq<KBucket>, b2: Seq<KBucket>)
    requires
        b1.len() == b2.len(),
        forall|i: int| 0 <= i < b1.len() ==> #[trigger] b1[i].contacts@ == b2[i].contacts@,
    ensures
        table_contacts(b1) == table_contacts(b2),
    decreases b1.len(),
{
    if b1.len() > 0 {
        lemma_same_contacts(b1.drop_last(), b2.drop_last());
        assert(b1.last().contacts@ == b2.last().contacts@);
    }
}

proof fn lemma_table_contacts_len_grows(b: Seq<KBucket>, i: int, j: int)
    requires
        0 <= i <= j <= b.len(),
    ensures
        table_contacts(b.subrange(0, i)).len() <= table_contacts(b.subrange(0, j)).len(),
    decreases j - i,
{
    if i < j {
        lemma_table_contacts_len_grows(b, i, j - 1);
        assert(b.subrange(0, j).drop_last() =~= b.subrange(0, j - 1));
    }
}

proof fn lemma_remove_keeps(b: Seq<Contact>, p: int, c: Id)
    requires
        0 <= p < b.len() || b.len() == 0,
    ensures
        b.len() > 0 ==> ids_drawn_from(b.remove(p), b, c),
        b.len() > 0 ==> (ids_unique(b) ==> ids_unique(b.remove(p))),
        ids_drawn_from(b, b, c),
{
    assert forall|j: int| 0 <= j < b.len() implies #[trigger] b[j].id == c || exists|q: int| 0 <= q < b.len() && b[j].id == b[q].id by {
        assert(b[j].id == b[j].id);
    }
    if b.len() > 0 {
        let s = b.remove(p);
        assert forall|j: int| 0 <= j < s.len() implies #[trigger] s[j].id == c || exists|q: int| 0 <= q < b.len() && s[j].id == b[q].id by {
            if j < p {
                assert(s[j] == b[j]);
            } else {
                assert(s[j] == b[j + 1]);
            }
        }
        if ids_unique(b) {
            assert forall|i: int, j: int| 0 <= i < s.len() && 0 <= j < s.len() && i != j implies s[i].id != s[j].id by {
                let oi = if i < p { i } else { i + 1 };
                let oj = if j < p { j } else { j + 1 };
                assert(s[i] == b[oi]);
                assert(s[j] == b[oj]);
            }
        }
    }
}

proof fn lemma_first_with_id_unique(b: Seq<Contact>, c: Id, p: int)
    requires
        first_with_id(b, c, p),
    ensures
        forall|q: int| first_with_id(b, c, q) ==> q == p,
{
    assert forall|q: int| first_with_id(b, c, q) implies q == p by {
        if q < p {
            assert(b[q].id != c);
        } else if p < q {
            assert(b[p].id != c);
        }
    }
}

/// The identifiers of `s` are `c` or identifiers of `b`.
pub open spec fn ids_drawn_from(s: Seq<Contact>, b: Seq<Contact>, c: Id) -> bool {
    forall|j: int| 0 <= j < s.len() ==> #[trigger] s[j].id == c || exists|q: int| 0 <= q < b.len() && s[j].id == b[q].id
}

/// Changing one bucket of a table, to contacts whose identifiers were already
/// in it or belong to it, keeps the table's invariants.
proof fn lemma_bucket_change_keeps(t0: RoutingTable, t1: RoutingTable, i: int, c: Id)
    requires
        t0.wf(),
        t1.same_except(&t0, i),
        0 <= i < 160,
        bucket_of(t0.node_id, c) == i,
        ids_drawn_from(t1.bucket(i), t0.bucket(i), c),
        ids_unique(t0.bucket(i)) ==> ids_unique(t1.bucket(i)),
        t1.bucket(i).len() <= t0.bucket(i).len() || t1.bucket(i).len() <= t0.k,
    ensures
        t1.wf(),
        t0.placed() ==> t1.placed(),
        t0.unique() ==> t1.unique(),
        t0.within_capacity() ==> t1.within_capacity(),
{
    if t0.placed() {
        assert forall|a: int, j: int| 0 <= a < 160 && 0 <= j < t1.bucket(a).len() implies bucket_of(t1.node_id, #[trigger] t1.bucket(a)[j].id) == a by {
            if a != i {
                assert(t1.bucket(a) == t0.bucket(a));
            } else {
                if t1.bucket(a)[j].id != c {
                    let q = choose|q: int| 0 <= q < t0.bucket(i).len() && t1.bucket(a)[j].id == t0.bucket(i)[q].id;
                    assert(bucket_of(t0.node_id, t0.bucket(i)[q].id) == i);
                }
            }
        }
    }
    if t0.unique() {
        assert forall|a: int| 0 <= a < 160 implies ids_unique(#[trigger] t1.bucket(a)) by {
            if a != i {
                assert(t1.bucket(a) == t0.bucket(a));
            }
        }
    }
    if t0.within_capacity() {
        assert forall|a: int| 0 <= a < 160 implies #[trigger] t1.bucket(a).len() <= t1.k by {
            if a != i {
                assert(t1.bucket(a) == t0.bucket(a));
            } else {
                assert(t0.bucket(i).len() <= t0.k);
            }
        }
    }
}

/// Moving the first contact with `c`'s identifier to the tail, as `c`, keeps
/// the identifiers of a bucket unique and its length.
proof fn lemma_remove_push_keeps(b: Seq<Contact>, p: int, c: Contact)
    requires
        first_with_id(b, c.id, p),
    ensures
        b.remove(p).push(c).len() == b.len(),
        ids_unique(b) ==> ids_unique(b.remove(p).push(c)),
        ids_drawn_from(b.remove(p).push(c), b, c.id),
{
    let s = b.remove(p).push(c);
    assert forall|j: int| 0 <= j < s.len() implies #[trigger] s[j].id == c.id || exists|q: int| 0 <= q < b.len() && s[j].id == b[q].id by {
        if j < p {
            assert(s[j] == b[j]);
        } else if j < b.len() - 1 {
            assert(s[j] == b[j + 1]);
        }
    }
    if ids_unique(b) {
        assert forall|i: int, j: int| 0 <= i < s.len() && 0 <= j < s.len() && i != j implies s[i].id != s[j].id by {
            let oi = if i < p { i } else if i < b.len() - 1 { i + 1 } else { p };
            let oj = if j < p { j } else if j < b.len() - 1 { j + 1 } else { p };
            assert(s[i].id == b[oi].id);
            assert(s[j].id == b[oj].id);
        }
    }
}

proof fn lemma_push_keeps_unique(b: Seq<Contact>, c: Contact)
    requires
        !holds_id(b, c.id),
    ensures
        ids_unique(b) ==> ids_unique(b.push(c)),
        ids_drawn_from(b.push(c), b, c.id),
{
    let s = b.push(c);
    assert forall|j: int| 0 <= j < s.len() implies #[trigger] s[j].id == c.id || exists|q: int| 0 <= q < b.len() && s[j].id == b[q].id by {
        if j < b.len() {
            assert(s[j] == b[j]);
        }
    }
    if ids_unique(b) {
        assert forall|i: int, j: int| 0 <= i < s.len() && 0 <= j < s.len() && i != j implies s[i].id != s[j].id by {
            if i < b.len() && j < b.len() {
                assert(s[i] == b[i] && s[j] == b[j]);
            } else if i < b.len() {
                assert(s[i] == b[i]);
            } else {
                assert(s[j] == b[j]);
            }
        }
    }
}

} // verus!

