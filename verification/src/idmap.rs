use vstd::prelude::*;
use crate::id::Id;

verus! {

/// A map keyed by identifiers, kept as a vector of entries with distinct keys.
pub struct IdMap<V> {
    entries: Vec<(Id, V)>,
}

/// The keys of a sequence of entries are distinct.
pub open spec fn keys_distinct<V>(s: Seq<(Id, V)>) -> bool {
    forall|i: int, j: int| 0 <= i < s.len() && 0 <= j < s.len() && i != j ==> s[i].0 != s[j].0
}

/// Some entry of `s` has key `k`.
pub open spec fn has_key<V>(s: Seq<(Id, V)>, k: Id) -> bool {
    exists|i: int| 0 <= i < s.len() && s[i].0 == k
}

/// The position of an entry of `s` with key `k`.
pub open spec fn key_position<V>(s: Seq<(Id, V)>, k: Id) -> int {
    choose|i: int| 0 <= i < s.len() && s[i].0 == k
}

/// The map that a sequence of entries with distinct keys represents.
pub open spec fn entries_map<V>(s: Seq<(Id, V)>) -> Map<Id, V> {
    Map::new(|k: Id| has_key(s, k), |k: Id| s[key_position(s, k)].1)
}

proof fn lemma_position_of_present_key<V>(s: Seq<(Id, V)>, i: int)
    requires
        keys_distinct(s),
        0 <= i < s.len(),
    ensures
        has_key(s, s[i].0),
        key_position(s, s[i].0) == i,
        entries_map(s).dom().contains(s[i].0),
        entries_map(s)[s[i].0] == s[i].1,
{
    assert(has_key(s, s[i].0));
}

proof fn lemma_push_entry<V>(s: Seq<(Id, V)>, k: Id, v: V)
    requires
        keys_distinct(s),
        !has_key(s, k),
    ensures
        keys_distinct(s.push((k, v))),
        entries_map(s.push((k, v))) == entries_map(s).insert(k, v),
{
    let t = s.push((k, v));
    assert(keys_distinct(t));
    assert forall|x: Id| #[trigger] entries_map(t).dom().contains(x) == entries_map(s).insert(k, v).dom().contains(x) by {
        if has_key(s, x) {
            let i = choose|i: int| 0 <= i < s.len() && s[i].0 == x;
            assert(t[i] == s[i]);
        }
        if has_key(t, x) && x != k {
            let i = choose|i: int| 0 <= i < t.len() && t[i].0 == x;
            assert(i < s.len());
            assert(s[i] == t[i]);
        }
        if x == k {
            assert(t[s.len() as int].0 == k);
        }
    }
    assert forall|x: Id| entries_map(t).dom().contains(x) implies #[trigger] entries_map(t)[x] == entries_map(s).insert(k, v)[x] by {
        if x == k {
            lemma_position_of_present_key(t, s.len() as int);
        } else {
            let i = choose|i: int| 0 <= i < t.len() && t[i].0 == x;
            assert(i < s.len());
            lemma_position_of_present_key(t, i);
            lemma_position_of_present_key(s, i);
        }
    }
    assert(entries_map(t) =~= entries_map(s).insert(k, v));
}

proof fn lemma_update_entry<V>(s: Seq<(Id, V)>, i: int, v: V)
    requires
        keys_distinct(s),
        0 <= i < s.len(),
    ensures
        keys_distinct(s.update(i, (s[i].0, v))),
        entries_map(s.update(i, (s[i].0, v))) == entries_map(s).insert(s[i].0, v),
{
    let k = s[i].0;
    let t = s.update(i, (k, v));
    assert(keys_distinct(t));
    assert forall|x: Id| #[trigger] entries_map(t).dom().contains(x) == entries_map(s).insert(k, v).dom().contains(x) by {
        if has_key(s, x) {
            let j = choose|j: int| 0 <= j < s.len() && s[j].0 == x;
            assert(t[j].0 == x);
        }
        if has_key(t, x) {
            let j = choose|j: int| 0 <= j < t.len() && t[j].0 == x;
            assert(s[j].0 == x);
        }
    }
    assert forall|x: Id| entries_map(t).dom().contains(x) implies #[trigger] entries_map(t)[x] == entries_map(s).insert(k, v)[x] by {
        let j = choose|j: int| 0 <= j < t.len() && t[j].0 == x;
        lemma_position_of_present_key(t, j);
        if j != i {
            lemma_position_of_present_key(s, j);
        }
    }
    assert(entries_map(t) =~= entries_map(s).insert(k, v));
}

proof fn lemma_remove_entry<V>(s: Seq<(Id, V)>, i: int)
    requires
        keys_distinct(s),
        0 <= i < s.len(),
    ensures
        keys_distinct(s.remove(i)),
        entries_map(s.remove(i)) == entries_map(s).remove(s[i].0),
{
    let k = s[i].0;
    let t = s.remove(i);
    assert forall|a: int, b: int| 0 <= a < t.len() && 0 <= b < t.len() && a != b implies t[a].0 != t[b].0 by {
        let oa = if a < i { a } else { a + 1 };
        let ob = if b < i { b } else { b + 1 };
        assert(t[a] == s[oa]);
        assert(t[b] == s[ob]);
    }
    assert forall|x: Id| #[trigger] entries_map(t).dom().contains(x) == entries_map(s).remove(k).dom().contains(x) by {
        if has_key(s, x) && x != k {
            let j = choose|j: int| 0 <= j < s.len() && s[j].0 == x;
            assert(j != i);
            if j < i {
                assert(t[j] == s[j]);
            } else {
                assert(t[j - 1] == s[j]);
            }
        }
        if has_key(t, x) {
            let j = choose|j: int| 0 <= j < t.len() && t[j].0 == x;
            let oj = if j < i { j } else { j + 1 };
            assert(t[j] == s[oj]);
        }
    }
    assert forall|x: Id| entries_map(t).dom().contains(x) implies #[trigger] entries_map(t)[x] == entries_map(s).remove(k)[x] by {
        let j = choose|j: int| 0 <= j < t.len() && t[j].0 == x;
        let oj = if j < i { j } else { j + 1 };
        assert(t[j] == s[oj]);
        lemma_position_of_present_key(t, j);
        lemma_position_of_present_key(s, oj);
    }
    assert(entries_map(t) =~= entries_map(s).remove(k));
}

impl<V> IdMap<V> {
    #[verifier::type_invariant]
    spec fn distinct_keys(&self) -> bool {
        keys_distinct(self.entries@)
    }

    /// The entries, in the order in which the map keeps them.
    pub closed spec fn entries(&self) -> Seq<(Id, V)> {
        self.entries@
    }

    /// An empty map.
    pub fn new() -> (r: IdMap<V>)
        ensures
            r@ == Map::<Id, V>::empty(),
    {
        let r = IdMap { entries: Vec::new() };
        assert(entries_map(r.entries@) =~= Map::<Id, V>::empty());
        r
    }

    /// Number of entries.
    pub fn len(&self) -> (r: usize)
        ensures
            r == self@.dom().len(),
    {
        proof {
            use_type_invariant(self);
            lemma_entries_map_len(self.entries@);
        }
        self.entries.len()
    }

    fn position(&self, k: &Id) -> (r: Option<usize>)
        ensures
            match r {
                Some(i) => i < self.entries@.len() && self.entries@[i as int].0 == *k,
                None => !has_key(self.entries@, *k),
            },
    {
        let mut i: usize = 0;
        while i < self.entries.len()
            invariant
                i <= self.entries@.len(),
                forall|j: int| 0 <= j < i ==> self.entries@[j].0 != *k,
            decreases self.entries@.len() - i,
        {
            if self.entries[i].0 == *k {
                return Some(i);
            }
            i = i + 1;
        }
        None
    }

    /// Whether `k` has an entry.
    pub fn contains_key(&self, k: &Id) -> (r: bool)
        ensures
            r == self@.dom().contains(*k),
    {
        self.position(k).is_some()
    }

    /// The value stored under `k`, if any.
    pub fn get(&self, k: &Id) -> (r: Option<&V>)
        ensures
            match r {
                Some(v) => self@.dom().contains(*k) && *v == self@[*k],
                None => !self@.dom().contains(*k),
            },
    {
        proof {
            use_type_invariant(self);
        }
        match self.position(k) {
            Some(i) => {
                proof {
                    lemma_position_of_present_key(self.entries@, i as int);
                }
                Some(&self.entries[i].1)
            },
            None => None,
        }
    }

    /// Stores `v` under `k`, replacing any earlier value.
    pub fn insert(&mut self, k: Id, v: V)
        ensures
            final(self)@ == old(self)@.insert(k, v),
    {
        proof {
            use_type_invariant(&*self);
        }
        match self.position(&k) {
            Some(i) => {
                let ghost s = self.entries@;
                proof {
                    lemma_update_entry(s, i as int, v);
                }
                let mut entries = Vec::new();
                std::mem::swap(&mut entries, &mut self.entries);
                entries.set(i, (k, v));
                assert(entries@ == s.update(i as int, (s[i as int].0, v)));
                self.entries = entries;
            },
            None => {
                proof {
                    lemma_push_entry(self.entries@, k, v);
                }
                let mut entries = Vec::new();
                std::mem::swap(&mut entries, &mut self.entries);
                entries.push((k, v));
                self.entries = entries;
            },
        }
    }

    /// Removes the entry of `k` and returns its value, if there was one.
    pub fn remove(&mut self, k: &Id) -> (r: Option<V>)
        ensures
            final(self)@ == old(self)@.remove(*k),
            match r {
                Some(v) => old(self)@.dom().contains(*k) && v == old(self)@[*k],
                None => !old(self)@.dom().contains(*k),
            },
    {
        proof {
            use_type_invariant(&*self);
        }
        match self.position(k) {
            Some(i) => {
                let ghost s = self.entries@;
                proof {
                    lemma_remove_entry(s, i as int);
                    lemma_position_of_present_key(s, i as int);
                }
                let mut entries = Vec::new();
                std::mem::swap(&mut entries, &mut self.entries);
                let (_, v) = entries.remove(i);
                self.entries = entries;
                Some(v)
            },
            None => {
                assert(old(self)@.remove(*k) =~= old(self)@);
                None
            },
        }
    }

    /// The keys, each once, in the order in which the map keeps them.
    pub fn keys(&self) -> (r: Vec<Id>)
        ensures
            r@.no_duplicates(),
            forall|k: Id| #[trigger] r@.contains(k) <==> self@.dom().contains(k),
    {
        proof {
            use_type_invariant(self);
        }
        let mut r: Vec<Id> = Vec::new();
        let mut i: usize = 0;
        while i < self.entries.len()
            invariant
                i <= self.entries@.len(),
                keys_distinct(self.entries@),
                r@.len() == i,
                forall|j: int| 0 <= j < i ==> #[trigger] r@[j] == self.entries@[j].0,
            decreases self.entries@.len() - i,
        {
            r.push(self.entries[i].0);
            i = i + 1;
        }
        proof {
            assert forall|k: Id| #[trigger] r@.contains(k) <==> self@.dom().contains(k) by {
                if self@.dom().contains(k) {
                    let j = choose|j: int| 0 <= j < self.entries@.len() && self.entries@[j].0 == k;
                    assert(r@[j] == k);
                }
            }
        }
        r
    }
}

impl<V> View for IdMap<V> {
    type V = Map<Id, V>;

    closed spec fn view(&self) -> Map<Id, V> {
        entries_map(self.entries@)
    }
}

proof fn lemma_entries_map_len<V>(s: Seq<(Id, V)>)
    requires
        keys_distinct(s),
    ensures
        entries_map(s).dom().finite(),
        entries_map(s).dom().len() == s.len(),
    decreases s.len(),
{
    if s.len() == 0 {
        assert(entries_map(s).dom() =~= Set::<Id>::empty());
    } else {
        let t = s.drop_last();
        assert(keys_distinct(t));
        lemma_entries_map_len(t);
        assert(!has_key(t, s.last().0)) by {
            if has_key(t, s.last().0) {
                let j = choose|j: int| 0 <= j < t.len() && t[j].0 == s.last().0;
                assert(s[j].0 == s[s.len() - 1].0);
            }
        }
        lemma_push_entry(t, s.last().0, s.last().1);
        assert(t.push((s.last().0, s.last().1)) =~= s);
    }
}

/// A set of identifiers, kept as a vector without repetitions.
pub struct IdSet {
    items: Vec<Id>,
}

impl IdSet {
    #[verifier::type_invariant]
    spec fn no_repeats(&self) -> bool {
        self.items@.no_duplicates()
    }

    /// An empty set.
    pub fn new() -> (r: IdSet)
        ensures
            r@ == Set::<Id>::empty(),
    {
        let r = IdSet { items: Vec::new() };
        assert(r.items@.to_set() =~= Set::<Id>::empty());
        r
    }

    fn position(&self, k: &Id) -> (r: Option<usize>)
        ensures
            match r {
                Some(i) => i < self.items@.len() && self.items@[i as int] == *k,
                None => !self.items@.contains(*k),
            },
    {
        let mut i: usize = 0;
        while i < self.items.len()
            invariant
                i <= self.items@.len(),
                forall|j: int| 0 <= j < i ==> self.items@[j] != *k,
            decreases self.items@.len() - i,
        {
            if self.items[i] == *k {
                return Some(i);
            }
            i = i + 1;
        }
        None
    }

    /// Whether `k` is in the set.
    pub fn contains(&self, k: &Id) -> (r: bool)
        ensures
            r == self@.contains(*k),
    {
        self.position(k).is_some()
    }

    /// Whether the set is empty.
    pub fn is_empty(&self) -> (r: bool)
        ensures
            r == (self@ == Set::<Id>::empty()),
    {
        if self.items.len() == 0 {
            assert(self.items@.to_set() =~= Set::<Id>::empty());
            true
        } else {
            assert(self@.contains(self.items@[0]));
            false
        }
    }

    /// Adds `k` to the set.
    pub fn insert(&mut self, k: Id)
        ensures
            final(self)@ == old(self)@.insert(k),
    {
        proof {
            use_type_invariant(&*self);
        }
        if self.position(&k).is_none() {
            let mut items = Vec::new();
            std::mem::swap(&mut items, &mut self.items);
            let ghost before = items@;
            items.push(k);
            proof {
                before.lemma_push_to_set_commute(k);
                assert(items@.no_duplicates()) by {
                    assert forall|i: int, j: int| 0 <= i < items@.len() && 0 <= j < items@.len() && i != j implies items@[i] != items@[j] by {
                        if i < before.len() && j < before.len() {
                        } else if i < before.len() {
                            assert(before.contains(items@[i]));
                        } else {
                            assert(before.contains(items@[j]));
                        }
                    }
                }
            }
            self.items = items;
        } else {
            assert(old(self)@.insert(k) =~= old(self)@);
        }
    }

    /// Removes `k` from the set.
    pub fn remove(&mut self, k: &Id)
        ensures
            final(self)@ == old(self)@.remove(*k),
    {
        proof {
            use_type_invariant(&*self);
        }
        match self.position(k) {
            Some(i) => {
                let mut items = Vec::new();
                std::mem::swap(&mut items, &mut self.items);
                let ghost before = items@;
                items.remove(i);
                proof {
                    assert(items@.no_duplicates()) by {
                        assert forall|a: int, b: int| 0 <= a < items@.len() && 0 <= b < items@.len() && a != b implies items@[a] != items@[b] by {
                            let oa = if a < i { a } else { a + 1 };
                            let ob = if b < i { b } else { b + 1 };
                            assert(items@[a] == before[oa]);
                            assert(items@[b] == before[ob]);
                        }
                    }
                    assert forall|x: Id| #[trigger] items@.to_set().contains(x) == before.to_set().remove(*k).contains(x) by {
                        if before.contains(x) && x != *k {
                            let j = choose|j: int| 0 <= j < before.len() && before[j] == x;
                            assert(j != i);
                            if j < i {
                                assert(items@[j] == x);
                            } else {
                                assert(items@[j - 1] == x);
                            }
                        }
                        if items@.contains(x) {
                            let j = choose|j: int| 0 <= j < items@.len() && items@[j] == x;
                            let oj = if j < i { j } else { j + 1 };
                            assert(items@[j] == before[oj]);
                        }
                    }
                    assert(items@.to_set() =~= before.to_set().remove(*k));
                }
                self.items = items;
            },
            None => {
                assert(old(self)@.remove(*k) =~= old(self)@);
            },
        }
    }
}

impl View for IdSet {
    type V = Set<Id>;

    closed spec fn view(&self) -> Set<Id> {
        self.items@.to_set()
    }
}

} // verus!

