use vstd::prelude::*;
use std::time::Instant;
use crate::clock::instant_now;
use crate::contact::Contact;
use crate::id::{Id, bytes_le, bytes_less, bytes_lt, lemma_bytes_lt_total};
use crate::idmap::IdSet;
use crate::routing::{stable_sort_by_distance, closest_of, distance_key, holds_id, ids_unique, lemma_closest_members, sort_by_distance};

verus! {

/// Kind of lookup: for the closest nodes, or for a stored value.
#[derive(Clone, Copy, PartialEq, Eq, Structural, Debug)]
pub enum LookupType {
    FindNode,
    FindValue,
}

/// State of an iterative lookup of `target`.
pub struct NodeLookup {
    pub lookup_type: LookupType,
    pub target: Id,
    pub closest_node: Contact,
    pub old_closest_node: Contact,
    /// Closest node that answered a value lookup with contacts rather than
    /// the value; the value is stored there once found.
    pub closest_without_value: Option<Contact>,
    pub shortlist: Vec<Contact>,
    /// Nodes a request has been sent to.
    pub queried: IdSet,
    /// Nodes a request has been sent to that have not answered yet.
    pub pending: IdSet,
    pub last_round_at: Instant,
}

/// `m` is the first position of `s` whose contact is closest to `target`.
pub open spec fn first_closest(s: Seq<Contact>, target: Id, m: int) -> bool {
    &&& 0 <= m < s.len()
    &&& forall|i: int| 0 <= i < m ==> bytes_lt(distance_key(target, s[m]), #[trigger] distance_key(target, s[i]))
    &&& forall|i: int| m <= i < s.len() ==> bytes_le(distance_key(target, s[m]), #[trigger] distance_key(target, s[i]))
}

/// Position of the first contact of a nonempty `contacts` closest to `target`.
pub fn closest_position(contacts: &Vec<Contact>, target: Id) -> (m: usize)
    requires
        contacts@.len() > 0,
    ensures
        first_closest(contacts@, target, m as int),
{
    let mut m: usize = 0;
    let mut best = target.distance(contacts[0].id);
    let mut i: usize = 1;
    while i < contacts.len()
        invariant
            0 <= m < i <= contacts@.len(),
            best.id@ == distance_key(target, contacts@[m as int]),
            forall|j: int| 0 <= j < m ==> bytes_lt(best.id@, #[trigger] distance_key(target, contacts@[j])),
            forall|j: int| m <= j < i ==> bytes_le(best.id@, #[trigger] distance_key(target, contacts@[j])),
        decreases contacts@.len() - i,
    {
        let d = target.distance(contacts[i].id);
        if bytes_less(&d.id, &best.id) {
            proof {
                assert forall|j: int| 0 <= j < i implies bytes_lt(d.id@, #[trigger] distance_key(target, contacts@[j])) by {
                    if distance_key(target, contacts@[j]) != best.id@ {
                        crate::id::lemma_bytes_lt_transitive(d.id@, best.id@, distance_key(target, contacts@[j]));
                    }
                }
            }
            m = i;
            best = d;
        } else {
            proof {
                lemma_bytes_lt_total(d.id@, best.id@);
            }
        }
        i = i + 1;
    }
    m
}

impl NodeLookup {
    /// A new lookup of `target` starting from `init_contacts`: its shortlist
    /// is `init_contacts`, its closest node is the first of them closest to
    /// the target, and nothing has been queried yet.
    pub fn new(lookup_type: LookupType, target: Id, init_contacts: Vec<Contact>) -> (r: NodeLookup)
        requires
            init_contacts@.len() > 0,
        ensures
            r.lookup_type == lookup_type,
            r.target == target,
            exists|m: int| first_closest(init_contacts@, target, m) && r.closest_node == init_contacts@[m],
            r.old_closest_node == r.closest_node,
            r.closest_without_value is None,
            r.shortlist@ == init_contacts@,
            r.queried@ == Set::<Id>::empty(),
            r.pending@ == Set::<Id>::empty(),
    {
        let m = closest_position(&init_contacts, target);
        let closest_node = init_contacts[m];
        NodeLookup {
            lookup_type,
            target,
            closest_node,
            old_closest_node: closest_node,
            closest_without_value: None,
            shortlist: init_contacts,
            queried: IdSet::new(),
            pending: IdSet::new(),
            last_round_at: instant_now(),
        }
    }
}

/// `s` followed by the contacts of `c`, in order, whose identifier is not
/// already present.
pub open spec fn append_new(s: Seq<Contact>, c: Seq<Contact>) -> Seq<Contact>
    decreases c.len(),
{
    if c.len() == 0 {
        s
    } else {
        let t = append_new(s, c.drop_last());
        if holds_id(t, c.last().id) {
            t
        } else {
            t.push(c.last())
        }
    }
}

/// The contacts of `c` whose identifier is not `own`.
pub open spec fn others(c: Seq<Contact>, own: Id) -> Seq<Contact> {
    c.filter(|x: Contact| x.id != own)
}

/// `l1` is `l0` after taking in the contacts `c` of a reply: the contacts
/// other than `own` are candidates; the closest node becomes the first
/// closest among the old closest node and the candidates; new candidates
/// join the shortlist, which is then cut down to the `k` closest.
pub open spec fn absorbed(l0: NodeLookup, l1: NodeLookup, c: Seq<Contact>, own: Id, k: int) -> bool {
    let e = others(c, own);
    &&& exists|m: int|
        first_closest(seq![l0.closest_node] + e, l0.target, m) && l1.closest_node == (seq![l0.closest_node] + e)[m]
    &&& closest_of(append_new(l0.shortlist@, e), l0.target, k, l1.shortlist@)
    &&& l1.lookup_type == l0.lookup_type
    &&& l1.target == l0.target
    &&& l1.old_closest_node == l0.old_closest_node
    &&& l1.closest_without_value == l0.closest_without_value
    &&& l1.queried@ == l0.queried@
    &&& l1.pending@ == l0.pending@
}

proof fn lemma_append_new_members(s: Seq<Contact>, c: Seq<Contact>, own: Id)
    requires
        forall|i: int| 0 <= i < s.len() ==> #[trigger] s[i].id != own,
        forall|i: int| 0 <= i < c.len() ==> #[trigger] c[i].id != own,
    ensures
        forall|i: int| 0 <= i < append_new(s, c).len() ==> #[trigger] append_new(s, c)[i].id != own,
    decreases c.len(),
{
    if c.len() > 0 {
        lemma_append_new_members(s, c.drop_last(), own);
        let t = append_new(s, c.drop_last());
        assert(c.last() == c[c.len() - 1]);
        if !holds_id(t, c.last().id) {
            assert forall|i: int| 0 <= i < t.push(c.last()).len() implies #[trigger] t.push(c.last())[i].id != own by {
                if i < t.len() {
                    assert(t.push(c.last())[i] == t[i]);
                }
            }
        }
    }
}

/// Appending only contacts whose identifier is not present yet keeps the
/// identifiers distinct.
proof fn lemma_append_new_unique(s: Seq<Contact>, c: Seq<Contact>)
    requires
        ids_unique(s),
    ensures
        ids_unique(append_new(s, c)),
    decreases c.len(),
{
    if c.len() > 0 {
        lemma_append_new_unique(s, c.drop_last());
        let t = append_new(s, c.drop_last());
        let x = c.last();
        if !holds_id(t, x.id) {
            let u = t.push(x);
            assert forall|p: int, q: int| 0 <= p < u.len() && 0 <= q < u.len() && p != q implies u[p].id != u[q].id by {
                if p < t.len() && q < t.len() {
                    assert(u[p] == t[p] && u[q] == t[q]);
                } else if p < t.len() {
                    assert(u[p] == t[p] && u[q] == x);
                } else {
                    assert(u[q] == t[q] && u[p] == x);
                }
            }
        }
    }
}

/// Taking in the contacts of a reply keeps the identifiers of the
/// shortlist distinct.
pub proof fn law_absorbed_keeps_ids_distinct(l0: NodeLookup, l1: NodeLookup, c: Seq<Contact>, own: Id, k: int)
    requires
        absorbed(l0, l1, c, own, k),
        ids_unique(l0.shortlist@),
    ensures
        ids_unique(l1.shortlist@),
{
    let full = append_new(l0.shortlist@, others(c, own));
    lemma_append_new_unique(l0.shortlist@, others(c, own));
    crate::routing::lemma_closest_unique(full, l0.target, k, l1.shortlist@);
}

impl NodeLookup {
    /// Takes in the contacts of a FIND_NODE or FIND_VALUE reply: skips
    /// `own`, moves the closest node to a strictly closer contact, adds
    /// contacts with new identifiers to the shortlist, then sorts the
    /// shortlist by distance to the target and keeps its first `k`.
    pub fn absorb_contacts(&mut self, contacts: &Vec<Contact>, own: Id, k: usize)
        ensures
            absorbed(*old(self), *final(self), contacts@, own, k as int),
            (forall|i: int| 0 <= i < old(self).shortlist@.len() ==> #[trigger] old(self).shortlist@[i].id != own)
                ==> (forall|i: int| 0 <= i < final(self).shortlist@.len() ==> #[trigger] final(self).shortlist@[i].id != own),
            ids_unique(old(self).shortlist@) ==> ids_unique(final(self).shortlist@),
    {
        let ghost l0 = *self;
        let ghost pred = |x: Contact| x.id != own;
        let target = self.target;
        let mut best = target.distance(self.closest_node.id);
        let ghost mut m: int = 0;
        let mut i: usize = 0;
        assert(contacts@.take(0) =~= Seq::<Contact>::empty());
        assert(others(contacts@.take(0), own) =~= Seq::<Contact>::empty()) by {
            reveal(Seq::filter);
        }
        assert(seq![l0.closest_node] + Seq::<Contact>::empty() =~= seq![l0.closest_node]);
        while i < contacts.len()
            invariant
                i <= contacts@.len(),
                self.target == target,
                target == l0.target,
                self.lookup_type == l0.lookup_type,
                self.old_closest_node == l0.old_closest_node,
                self.closest_without_value == l0.closest_without_value,
                self.queried@ == l0.queried@,
                self.pending@ == l0.pending@,
                pred == (|x: Contact| x.id != own),
                self.shortlist@ == append_new(l0.shortlist@, others(contacts@.take(i as int), own)),
                ({
                    let cand = seq![l0.closest_node] + others(contacts@.take(i as int), own);
                    &&& first_closest(cand, target, m)
                    &&& self.closest_node == cand[m]
                    &&& best.id@ == distance_key(target, cand[m])
                }),
            decreases contacts@.len() - i,
        {
            let contact = contacts[i];
            let ghost e0 = others(contacts@.take(i as int), own);
            proof {
                assert(contacts@.take(i + 1) == contacts@.take(i as int).push(contact));
                contacts@.take(i as int).lemma_filter_push(contact, pred);
            }
            if contact.id == own {
                assert(others(contacts@.take(i + 1), own) == e0);
                i = i + 1;
                continue;
            }
            let ghost cand0 = seq![l0.closest_node] + e0;
            let ghost cand1 = seq![l0.closest_node] + e0.push(contact);
            assert(others(contacts@.take(i + 1), own) == e0.push(contact));
            assert(cand1 =~= cand0.push(contact));
            let d = target.distance(contact.id);
            if bytes_less(&d.id, &best.id) {
                proof {
                    assert forall|j: int| 0 <= j < cand0.len() implies bytes_lt(d.id@, #[trigger] distance_key(target, cand1[j])) by {
                        assert(cand1[j] == cand0[j]);
                        if j < m {
                            crate::id::lemma_bytes_lt_transitive(d.id@, best.id@, distance_key(target, cand0[j]));
                        } else if distance_key(target, cand0[j]) != best.id@ {
                            crate::id::lemma_bytes_lt_transitive(d.id@, best.id@, distance_key(target, cand0[j]));
                        }
                    }
                    m = cand0.len() as int;
                }
                self.closest_node = contact;
                best = d;
            } else {
                proof {
                    lemma_bytes_lt_total(d.id@, best.id@);
                    assert forall|j: int| 0 <= j < m implies bytes_lt(best.id@, #[trigger] distance_key(target, cand1[j])) by {
                        assert(cand1[j] == cand0[j]);
                    }
                    assert forall|j: int| m <= j < cand1.len() implies bytes_le(best.id@, #[trigger] distance_key(target, cand1[j])) by {
                        if j < cand0.len() {
                            assert(cand1[j] == cand0[j]);
                        }
                    }
                }
            }
            let mut present = false;
            let mut q: usize = 0;
            while q < self.shortlist.len()
                invariant
                    q <= self.shortlist@.len(),
                    present == exists|p: int| 0 <= p < q && self.shortlist@[p].id == contact.id,
                decreases self.shortlist@.len() - q,
            {
                if self.shortlist[q].id == contact.id {
                    present = true;
                }
                q = q + 1;
            }
            if !present {
                self.shortlist.push(contact);
            }
            proof {
                let e1 = e0.push(contact);
                assert(e1.drop_last() =~= e0);
                assert(e1.last() == contact);
            }
            i = i + 1;
        }
        proof {
            assert(contacts@.take(contacts@.len() as int) =~= contacts@);
            let e = others(contacts@, own);
            assert forall|j: int| 0 <= j < e.len() implies #[trigger] e[j].id != own by {
                contacts@.lemma_filter_pred(pred, j);
            }
            if forall|j: int| 0 <= j < l0.shortlist@.len() ==> #[trigger] l0.shortlist@[j].id != own {
                lemma_append_new_members(l0.shortlist@, e, own);
            }
        }
        let ghost full = self.shortlist@;
        sort_by_distance(&mut self.shortlist, target);
        let ghost sorted = self.shortlist@;
        self.shortlist.truncate(k);
        proof {
            assert(stable_sort_by_distance(sorted, full, target));
            assert(self.shortlist@ == sorted.subrange(0, self.shortlist@.len() as int));
            assert(closest_of(full, target, k as int, self.shortlist@));
            lemma_closest_members(full, target, k as int, self.shortlist@);
            if forall|j: int| 0 <= j < full.len() ==> #[trigger] full[j].id != own {
                assert forall|j: int| 0 <= j < self.shortlist@.len() implies #[trigger] self.shortlist@[j].id != own by {
                    assert(full.contains(self.shortlist@[j]));
                }
            }
            if ids_unique(l0.shortlist@) {
                law_absorbed_keeps_ids_distinct(l0, *self, contacts@, own, k as int);
            }
        }
    }
}

/// Taking in the contacts of a reply never moves the closest node farther
/// from the target.
pub proof fn law_closest_never_farther(l0: NodeLookup, l1: NodeLookup, c: Seq<Contact>, own: Id, k: int)
    requires
        absorbed(l0, l1, c, own, k),
    ensures
        l1.target == l0.target,
        bytes_le(distance_key(l0.target, l1.closest_node), distance_key(l0.target, l0.closest_node)),
{
    let cand = seq![l0.closest_node] + others(c, own);
    let m = choose|m: int| first_closest(cand, l0.target, m) && l1.closest_node == cand[m];
    assert(cand[0] == l0.closest_node);
    if m > 0 {
        assert(bytes_lt(distance_key(l0.target, cand[m]), distance_key(l0.target, cand[0])));
    }
}

/// A converged lookup awaits no reply, and its closest node did not change
/// during its last round.
pub proof fn law_converged_lookup_awaits_nobody(l: NodeLookup)
    requires
        l.finished(),
    ensures
        l.pending@ == Set::<Id>::empty(),
        forall|id: Id| !l.pending@.contains(id),
        l.closest_node.id == l.old_closest_node.id,
{
}

/// Merging the contacts `c` into `s` keeps every contact of `s`, in front;
/// every contact of `c` then has its identifier present; and nothing but
/// contacts of `s` and of `c` is added.
proof fn lemma_append_new_keeps_all(s: Seq<Contact>, c: Seq<Contact>)
    ensures
        append_new(s, c).len() >= s.len(),
        append_new(s, c).subrange(0, s.len() as int) == s,
        forall|j: int| 0 <= j < c.len() ==> holds_id(append_new(s, c), #[trigger] c[j].id),
        forall|y: Contact| #[trigger] append_new(s, c).contains(y) ==> s.contains(y) || c.contains(y),
    decreases c.len(),
{
    if c.len() > 0 {
        let c0 = c.drop_last();
        let x = c.last();
        lemma_append_new_keeps_all(s, c0);
        let t = append_new(s, c0);
        if holds_id(t, x.id) {
            assert forall|j: int| 0 <= j < c.len() implies holds_id(append_new(s, c), #[trigger] c[j].id) by {
                if j < c0.len() {
                    assert(c[j] == c0[j]);
                }
            }
            assert forall|y: Contact| #[trigger] append_new(s, c).contains(y) implies s.contains(y) || c.contains(y) by {
                if c0.contains(y) {
                    let j = choose|j: int| 0 <= j < c0.len() && c0[j] == y;
                    assert(c[j] == y);
                }
            }
        } else {
            let u = t.push(x);
            assert(u.subrange(0, s.len() as int) =~= t.subrange(0, s.len() as int));
            assert forall|j: int| 0 <= j < c.len() implies holds_id(u, #[trigger] c[j].id) by {
                if j < c0.len() {
                    assert(c[j] == c0[j]);
                    let p = choose|p: int| 0 <= p < t.len() && t[p].id == c0[j].id;
                    assert(u[p] == t[p]);
                } else {
                    assert(u[t.len() as int] == x);
                }
            }
            assert forall|y: Contact| #[trigger] u.contains(y) implies s.contains(y) || c.contains(y) by {
                let p = choose|p: int| 0 <= p < u.len() && u[p] == y;
                if p < t.len() {
                    assert(t[p] == y);
                    assert(t.contains(y));
                    if c0.contains(y) {
                        let j = choose|j: int| 0 <= j < c0.len() && c0[j] == y;
                        assert(c[j] == y);
                    }
                } else {
                    assert(c[c.len() - 1] == y);
                }
            }
        }
    }
}

/// Taking in a reply considers every contact it carries: the new shortlist
/// is the closest `k` of a list that starts with the old shortlist, holds
/// the identifier of every contact of the reply other than the node
/// itself, and holds nothing else.
pub proof fn law_absorbed_considers_every_contact(l0: NodeLookup, l1: NodeLookup, c: Seq<Contact>, own: Id, k: int)
    requires
        absorbed(l0, l1, c, own, k),
    ensures
        exists|merged: Seq<Contact>|
            #![trigger closest_of(merged, l0.target, k, l1.shortlist@)]
            closest_of(merged, l0.target, k, l1.shortlist@)
                && merged.subrange(0, l0.shortlist@.len() as int) == l0.shortlist@
                && (forall|j: int| 0 <= j < c.len() && c[j].id != own ==> holds_id(merged, #[trigger] c[j].id))
                && (forall|y: Contact| #[trigger] merged.contains(y)
                    ==> l0.shortlist@.contains(y) || (c.contains(y) && y.id != own)),
{
    let pred = |x: Contact| x.id != own;
    let e = others(c, own);
    let merged = append_new(l0.shortlist@, e);
    lemma_append_new_keeps_all(l0.shortlist@, e);
    assert forall|j: int| 0 <= j < c.len() && c[j].id != own implies holds_id(merged, #[trigger] c[j].id) by {
        c.lemma_filter_contains(pred, j);
        let i = choose|i: int| 0 <= i < e.len() && e[i] == c[j];
        assert(holds_id(merged, e[i].id));
    }
    assert forall|y: Contact| #[trigger] merged.contains(y) implies l0.shortlist@.contains(y) || (c.contains(y) && y.id != own) by {
        if !l0.shortlist@.contains(y) {
            assert(e.contains(y));
            c.lemma_filter_contains_rev(pred, y);
            let i = choose|i: int| 0 <= i < e.len() && e[i] == y;
            c.lemma_filter_pred(pred, i);
        }
    }
    assert(closest_of(merged, l0.target, k, l1.shortlist@));
}

/// The contacts of `s` whose identifier is not in `queried`, in order.
pub open spec fn unqueried(s: Seq<Contact>, queried: Set<Id>) -> Seq<Contact> {
    s.filter(|c: Contact| !queried.contains(c.id))
}

/// The first `n` elements of `s`, or all of `s` when it is shorter.
pub open spec fn first_n(s: Seq<Contact>, n: int) -> Seq<Contact> {
    if n < s.len() { s.take(n) } else { s }
}

/// `s1` is `s0` with the identifiers of the contacts `c` added.
pub open spec fn with_ids_of(s0: Set<Id>, s1: Set<Id>, c: Seq<Contact>) -> bool {
    forall|x: Id| #[trigger] s1.contains(x) <==> (s0.contains(x) || exists|j: int| 0 <= j < c.len() && c[j].id == x)
}

/// `l1` is `l0` after starting a round that queries `r`: the first
/// `alpha` never-queried contacts of the shortlist, now queried and
/// pending; the current closest node is remembered as the old one.
pub open spec fn round_started(l0: NodeLookup, l1: NodeLookup, r: Seq<Contact>, alpha: int) -> bool {
    &&& r == first_n(unqueried(l0.shortlist@, l0.queried@), alpha)
    &&& l1.old_closest_node == l0.closest_node
    &&& l1.closest_node == l0.closest_node
    &&& l1.lookup_type == l0.lookup_type
    &&& l1.target == l0.target
    &&& l1.closest_without_value == l0.closest_without_value
    &&& l1.shortlist@ == l0.shortlist@
    &&& with_ids_of(l0.queried@, l1.queried@, r)
    &&& with_ids_of(l0.pending@, l1.pending@, r)
}

impl NodeLookup {
    /// The lookup has converged: the closest node did not change during the
    /// last round and no queried node is still to answer.
    pub open spec fn finished(&self) -> bool {
        &&& self.closest_node.id == self.old_closest_node.id
        &&& self.pending@ == Set::<Id>::empty()
    }

    /// Whether the lookup has converged.
    pub fn is_finished(&self) -> (r: bool)
        ensures
            r == self.finished(),
            r == (self.closest_node.id == self.old_closest_node.id && self.pending@ == Set::<Id>::empty()),
    {
        self.closest_node.id == self.old_closest_node.id && self.pending.is_empty()
    }

    /// Starts a new round: remembers the current closest node and marks the
    /// first `alpha` contacts of the shortlist that were never queried as
    /// queried and pending; returns them.
    pub fn start_round(&mut self, alpha: usize) -> (r: Vec<Contact>)
        ensures
            round_started(*old(self), *final(self), r@, alpha as int),
    {
        self.last_round_at = instant_now();
        self.old_closest_node = self.closest_node;
        let ghost q0 = self.queried@;
        let ghost pred = |c: Contact| !q0.contains(c.id);
        let mut to_query: Vec<Contact> = Vec::new();
        let mut i: usize = 0;
        assert(self.shortlist@.take(0) =~= Seq::<Contact>::empty());
        assert(unqueried(self.shortlist@.take(0), q0) =~= Seq::<Contact>::empty()) by {
            reveal(Seq::filter);
        }
        while i < self.shortlist.len() && to_query.len() < alpha
            invariant
                self.old_closest_node == old(self).closest_node,
                self.closest_node == old(self).closest_node,
                self.lookup_type == old(self).lookup_type,
                self.target == old(self).target,
                self.closest_without_value == old(self).closest_without_value,
                self.shortlist@ == old(self).shortlist@,
                i <= self.shortlist@.len(),
                self.queried@ == q0,
                self.pending@ == old(self).pending@,
                pred == (|c: Contact| !q0.contains(c.id)),
                to_query@ == unqueried(self.shortlist@.take(i as int), q0),
                to_query@.len() <= alpha,
            decreases self.shortlist@.len() - i,
        {
            let c = self.shortlist[i];
            proof {
                assert(self.shortlist@.take(i + 1) == self.shortlist@.take(i as int).push(c));
                self.shortlist@.take(i as int).lemma_filter_push(c, pred);
            }
            if !self.queried.contains(&c.id) {
                to_query.push(c);
            }
            i = i + 1;
        }
        proof {
            let s = self.shortlist@;
            assert(s == s.take(i as int) + s.skip(i as int));
            Seq::filter_distributes_over_add(s.take(i as int), s.skip(i as int), pred);
            if to_query@.len() == alpha {
                assert(unqueried(s, q0).take(alpha as int) =~= to_query@);
            } else {
                assert(s.take(i as int) =~= s);
            }
        }
        let mut j: usize = 0;
        let ghost p0 = self.pending@;
        while j < to_query.len()
            invariant
                self.old_closest_node == old(self).closest_node,
                self.closest_node == old(self).closest_node,
                self.lookup_type == old(self).lookup_type,
                self.target == old(self).target,
                self.closest_without_value == old(self).closest_without_value,
                self.shortlist@ == old(self).shortlist@,
                j <= to_query@.len(),
                with_ids_of(q0, self.queried@, to_query@.take(j as int)),
                with_ids_of(p0, self.pending@, to_query@.take(j as int)),
            decreases to_query@.len() - j,
        {
            let id = to_query[j].id;
            self.pending.insert(id);
            self.queried.insert(id);
            proof {
                let t1 = to_query@.take(j + 1);
                let t0 = to_query@.take(j as int);
                assert forall|x: Id| #[trigger] self.queried@.contains(x) <==> (q0.contains(x) || exists|m: int| 0 <= m < t1.len() && t1[m].id == x) by {
                    if exists|m: int| 0 <= m < t1.len() && t1[m].id == x {
                        let m = choose|m: int| 0 <= m < t1.len() && t1[m].id == x;
                        if m < j {
                            assert(t0[m].id == x);
                        }
                    }
                    if exists|m: int| 0 <= m < t0.len() && t0[m].id == x {
                        let m = choose|m: int| 0 <= m < t0.len() && t0[m].id == x;
                        assert(t1[m].id == x);
                    }
                    assert(t1[j as int].id == id);
                }
                assert forall|x: Id| #[trigger] self.pending@.contains(x) <==> (p0.contains(x) || exists|m: int| 0 <= m < t1.len() && t1[m].id == x) by {
                    if exists|m: int| 0 <= m < t1.len() && t1[m].id == x {
                        let m = choose|m: int| 0 <= m < t1.len() && t1[m].id == x;
                        if m < j {
                            assert(t0[m].id == x);
                        }
                    }
                    if exists|m: int| 0 <= m < t0.len() && t0[m].id == x {
                        let m = choose|m: int| 0 <= m < t0.len() && t0[m].id == x;
                        assert(t1[m].id == x);
                    }
                    assert(t1[j as int].id == id);
                }
            }
            j = j + 1;
        }
        assert(to_query@.take(to_query@.len() as int) =~= to_query@);
        to_query
    }

    /// Records that `sender` answered a value lookup with contacts: it
    /// becomes the closest such node if it is strictly closer to the target
    /// than the one recorded so far, or if none is.
    pub fn note_reply_without_value(&mut self, sender: Contact)
        ensures
            final(self).closest_without_value == match old(self).closest_without_value {
                None => Some(sender),
                Some(c) => if bytes_lt(distance_key(old(self).target, sender), distance_key(old(self).target, c)) {
                    Some(sender)
                } else {
                    Some(c)
                },
            },
            final(self).lookup_type == old(self).lookup_type,
            final(self).target == old(self).target,
            final(self).closest_node == old(self).closest_node,
            final(self).old_closest_node == old(self).old_closest_node,
            final(self).shortlist@ == old(self).shortlist@,
            final(self).queried@ == old(self).queried@,
            final(self).pending@ == old(self).pending@,
    {
        let replace = match self.closest_without_value {
            None => true,
            Some(c) => {
                let ds = self.target.distance(sender.id);
                let dc = self.target.distance(c.id);
                bytes_less(&ds.id, &dc.id)
            },
        };
        if replace {
            self.closest_without_value = Some(sender);
        }
    }
}

} // verus!
