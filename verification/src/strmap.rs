//! A map keyed by strings that keeps its keys in insertion order.
use vstd::prelude::*;

verus! {

/// A finite map from strings to values. Keys are kept in the order in
/// which they were first inserted; each key occurs once.
pub struct StrMap<V> {
    entries: Vec<(String, V)>,
}

/// The key of each entry, as a character sequence.
pub open spec fn keys_of<V>(entries: Seq<(String, V)>) -> Seq<Seq<char>> {
    entries.map_values(|e: (String, V)| e.0@)
}

impl<V> StrMap<V> {
    /// The keys, in order.
    pub closed spec fn key_order(&self) -> Seq<Seq<char>> {
        keys_of(self.entries@)
    }

    /// Position of key `k` among the entries.
    closed spec fn pos(&self, k: Seq<char>) -> int {
        self.key_order().index_of(k)
    }

    #[verifier::type_invariant]
    closed spec fn keys_distinct(&self) -> bool {
        self.key_order().no_duplicates()
    }

    /// Lookup by key: the value of the (only) entry with that key.
    pub closed spec fn spec_map(&self) -> Map<Seq<char>, V> {
        Map::new(
            |k: Seq<char>| self.key_order().contains(k),
            |k: Seq<char>| self.entries@[self.pos(k)].1,
        )
    }

    /// The keys of the map are the keys listed in its order.
    pub proof fn lemma_dom_is_keys(&self)
        ensures
            self@.dom() == self.key_order().to_set(),
    {
        assert(self.spec_map().dom() =~= self.key_order().to_set());
    }

    proof fn lemma_pos(&self, i: int)
        requires
            self.key_order().no_duplicates(),
            0 <= i < self.entries@.len(),
        ensures
            self.pos(self.entries@[i].0@) == i,
            self.spec_map().dom().contains(self.entries@[i].0@),
            self.spec_map()[self.entries@[i].0@] == self.entries@[i].1,
    {
        let ks = self.key_order();
        assert(ks[i] == self.entries@[i].0@);
        assert(ks.contains(ks[i]));
        ks.index_of_first_ensures(ks[i]);
        let j = ks.index_of(ks[i]);
        assert(ks[j] == ks[i]);
    }

    proof fn lemma_facts(&self)
        requires
            self.key_order().no_duplicates(),
        ensures
            self.spec_map().dom() == self.key_order().to_set(),
            self.spec_map().dom().finite(),
            self.spec_map().len() == self.key_order().len(),
            self.key_order().len() == self.entries@.len(),
    {
        let ks = self.key_order();
        assert(self.spec_map().dom() =~= ks.to_set());
        ks.unique_seq_to_set();
    }

    /// An empty map.
    pub fn new() -> (m: Self)
        ensures
            m@ == Map::<Seq<char>, V>::empty(),
            m.key_order() == Seq::<Seq<char>>::empty(),
    {
        let m = StrMap { entries: Vec::new() };
        assert(m.spec_map() =~= Map::<Seq<char>, V>::empty());
        assert(m.key_order() =~= Seq::<Seq<char>>::empty());
        m
    }

    /// Number of entries. Also states how the key order and the map agree.
    pub fn len(&self) -> (n: usize)
        ensures
            n == self.key_order().len(),
            n == self@.len(),
            self@.dom() == self.key_order().to_set(),
            self@.dom().finite(),
            self.key_order().no_duplicates(),
    {
        proof {
            use_type_invariant(self);
            self.lemma_facts();
        }
        self.entries.len()
    }

    /// The key at position `i` of the key order.
    pub fn key_at(&self, i: usize) -> (k: &String)
        requires
            i < self.key_order().len(),
        ensures
            k@ == self.key_order()[i as int],
            self@.dom().contains(k@),
    {
        proof {
            use_type_invariant(self);
            self.lemma_pos(i as int);
        }
        &self.entries[i].0
    }

    /// The value stored under the key at position `i`.
    pub fn value_at(&self, i: usize) -> (v: &V)
        requires
            i < self.key_order().len(),
        ensures
            self@.dom().contains(self.key_order()[i as int]),
            *v == self@[self.key_order()[i as int]],
    {
        proof {
            use_type_invariant(self);
            self.lemma_pos(i as int);
        }
        &self.entries[i].1
    }

    fn find(&self, k: &str) -> (r: Option<usize>)
        ensures
            match r {
                Some(i) => i < self.entries@.len() && self.entries@[i as int].0@ == k@,
                None => !self.key_order().contains(k@),
            },
    {
        let key = k.to_owned();
        let n = self.entries.len();
        let mut i: usize = 0;
        while i < n
            invariant
                n == self.entries@.len(),
                i <= n,
                key@ == k@,
                forall|j: int| 0 <= j < i ==> self.entries@[j].0@ != k@,
            decreases n - i,
        {
            if self.entries[i].0 == key {
                return Some(i);
            }
            i = i + 1;
        }
        proof {
            if self.key_order().contains(k@) {
                let j = choose|j: int| 0 <= j < self.key_order().len() && self.key_order()[j] == k@;
                assert(self.entries@[j].0@ == k@);
            }
        }
        None
    }

    /// Whether `k` is a key.
    pub fn contains_key(&self, k: &str) -> (b: bool)
        ensures
            b == self@.dom().contains(k@),
    {
        let r = self.find(k);
        proof {
            if let Some(i) = r {
                assert(self.key_order()[i as int] == k@);
            }
        }
        r.is_some()
    }

    /// The value stored under `k`, if any.
    pub fn get(&self, k: &str) -> (r: Option<&V>)
        ensures
            match r {
                Some(v) => self@.dom().contains(k@) && *v == self@[k@],
                None => !self@.dom().contains(k@),
            },
    {
        proof {
            use_type_invariant(self);
        }
        match self.find(k) {
            Some(i) => {
                proof {
                    self.lemma_pos(i as int);
                }
                Some(&self.entries[i].1)
            },
            None => None,
        }
    }

    /// Sets the value of `k` to `v`. A new key goes to the end of the key order;
    /// an existing key keeps its place.
    pub fn insert(&mut self, k: String, v: V)
        ensures
            final(self)@ == old(self)@.insert(k@, v),
            old(self)@.dom().contains(k@) ==> final(self).key_order() == old(self).key_order(),
            !old(self)@.dom().contains(k@) ==> final(self).key_order() == old(self).key_order().push(
                k@,
            ),
    {
        proof {
            use_type_invariant(&*self);
        }
        let ghost old_map = self.spec_map();
        let ghost old_keys = self.key_order();
        match self.find(k.as_str()) {
            Some(i) => {
                let mut entries: Vec<(String, V)> = Vec::new();
                std::mem::swap(&mut entries, &mut self.entries);
                entries.set(i, (k, v));
                assert(keys_of(entries@) =~= old_keys);
                self.entries = entries;
                proof {
                    assert(self.key_order() == old_keys);
                    assert(old_keys[i as int] == k@);
                    assert(old_map.dom().contains(k@));
                    assert(self.spec_map().dom() =~= old_map.insert(k@, v).dom());
                    assert forall|q: Seq<char>| #[trigger]
                        self.spec_map().dom().contains(q) implies self.spec_map()[q]
                        == old_map.insert(k@, v)[q] by {
                        let j = self.pos(q);
                        self.key_order().index_of_first_ensures(q);
                        if q == k@ {
                            self.lemma_pos(i as int);
                        } else {
                            assert(j != i);
                        }
                    }
                    assert(self.spec_map() =~= old_map.insert(k@, v));
                }
            },
            None => {
                let ghost kk = k@;
                let mut entries: Vec<(String, V)> = Vec::new();
                std::mem::swap(&mut entries, &mut self.entries);
                entries.push((k, v));
                assert(keys_of(entries@) =~= old_keys.push(kk));
                self.entries = entries;
                proof {
                    let ks = self.key_order();
                    assert(ks == old_keys.push(kk));
                    assert(ks[old_keys.len() as int] == kk);
                    assert forall|q: Seq<char>| #[trigger] ks.contains(q) <==> (old_keys.contains(q) || q == kk) by {
                        if ks.contains(q) && q != kk {
                            let j = choose|j: int| 0 <= j < ks.len() && ks[j] == q;
                            assert(old_keys[j] == q);
                        }
                        if old_keys.contains(q) {
                            let j = choose|j: int| 0 <= j < old_keys.len() && old_keys[j] == q;
                            assert(ks[j] == q);
                        }
                    }
                    assert(self.spec_map().dom() =~= old_map.insert(kk, v).dom());
                    assert forall|q: Seq<char>| #[trigger]
                        self.spec_map().dom().contains(q) implies self.spec_map()[q]
                        == old_map.insert(kk, v)[q] by {
                        ks.index_of_first_ensures(q);
                        let j = self.pos(q);
                        if q == kk {
                            assert(ks[old_keys.len() as int] == kk);
                            if j < old_keys.len() {
                                assert(old_keys[j] == kk);
                            }
                        } else {
                            assert(j != old_keys.len());
                            old_keys.index_of_first_ensures(q);
                            assert(old_keys.contains(q));
                            let j2 = old_keys.index_of(q);
                            assert(ks[j2] == q);
                        }
                    }
                    assert(self.spec_map() =~= old_map.insert(kk, v));
                }
            },
        }
    }
}

impl<V> StrMap<V> {
    /// Removes `k` and its value, if present; the other keys keep their order.
    pub fn remove(&mut self, k: &str) -> (r: Option<V>)
        ensures
            final(self)@ == old(self)@.remove(k@),
            match r {
                Some(v) => old(self)@.dom().contains(k@) && v == old(self)@[k@],
                None => !old(self)@.dom().contains(k@),
            },
            final(self).key_order() == old(self).key_order().remove_value(k@),
    {
        proof {
            use_type_invariant(&*self);
        }
        let ghost old_map = self.spec_map();
        let ghost old_keys = self.key_order();
        match self.find(k) {
            Some(i) => {
                let mut entries: Vec<(String, V)> = Vec::new();
                std::mem::swap(&mut entries, &mut self.entries);
                let ghost before = entries@;
                let removed = entries.remove(i);
                proof {
                    lemma_entry_position(before, i as int);
                }
                proof {
                    let ks = keys_of(entries@);
                    assert(ks =~= old_keys.remove(i as int));
                    assert(old_keys[i as int] == k@);
                    assert forall|a: int, b: int| 0 <= a < b < ks.len() implies ks[a] != ks[b] by {
                        let a2 = if a < i { a } else { a + 1 };
                        let b2 = if b < i { b } else { b + 1 };
                        assert(ks[a] == old_keys[a2]);
                        assert(ks[b] == old_keys[b2]);
                    }
                    assert(ks.no_duplicates());
                    assert forall|q: Seq<char>| ks.contains(q) <==> (old_keys.contains(q) && q != k@) by {
                        if ks.contains(q) {
                            let a = choose|a: int| 0 <= a < ks.len() && ks[a] == q;
                            let a2 = if a < i { a } else { a + 1 };
                            assert(old_keys[a2] == q);
                            assert(a2 != i);
                        }
                        if old_keys.contains(q) && q != k@ {
                            let a = choose|a: int| 0 <= a < old_keys.len() && old_keys[a] == q;
                            assert(a != i);
                            let a2 = if a < i { a } else { a - 1 };
                            assert(ks[a2] == q);
                        }
                    }
                    old_keys.index_of_first_ensures(k@);
                    assert(old_keys.index_of_first(k@) == Some(i as int));
                    assert(old_keys.remove_value(k@) =~= ks);
                }
                self.entries = entries;
                proof {
                    let ks = self.key_order();
                    assert forall|q: Seq<char>| #[trigger] self.spec_map().dom().contains(q) implies self.spec_map()[q] == old_map.remove(k@)[q] by {
                        ks.index_of_first_ensures(q);
                        let a = self.pos(q);
                        let a2 = if a < i { a } else { a + 1 };
                        assert(before[a2] == self.entries@[a]);
                        assert(old_keys[a2] == q);
                        self.lemma_pos(a);
                        lemma_key_position(old_keys, a2);
                    }
                    assert(self.spec_map().dom() =~= old_map.remove(k@).dom());
                    assert(self.spec_map() =~= old_map.remove(k@));
                }
                Some(removed.1)
            },
            None => {
                proof {
                    assert(old_map.remove(k@) =~= old_map);
                    old_keys.index_of_first_ensures(k@);
                }
                None
            },
        }
    }
}

/// The value at position `i` is the one the map gives for that key.
proof fn lemma_entry_position<V>(entries: Seq<(String, V)>, i: int)
    requires
        keys_of(entries).no_duplicates(),
        0 <= i < entries.len(),
    ensures
        keys_of(entries).index_of(entries[i].0@) == i,
{
    let ks = keys_of(entries);
    assert(ks[i] == entries[i].0@);
    assert(ks.contains(ks[i]));
    ks.index_of_first_ensures(ks[i]);
    let j = ks.index_of(ks[i]);
    assert(ks[j] == ks[i]);
}

/// In a sequence without duplicates, the position of the element at `i` is `i`.
proof fn lemma_key_position(ks: Seq<Seq<char>>, i: int)
    requires
        ks.no_duplicates(),
        0 <= i < ks.len(),
    ensures
        ks.index_of(ks[i]) == i,
{
    assert(ks.contains(ks[i]));
    ks.index_of_first_ensures(ks[i]);
}

/// The first `i + 1` elements are the first `i` and element `i`.
pub proof fn lemma_take_next_set<A>(ks: Seq<A>, i: int)
    requires
        0 <= i < ks.len(),
    ensures
        ks.take(i + 1).to_set() == ks.take(i).to_set().insert(ks[i]),
{
    let a = ks.take(i + 1);
    let b = ks.take(i);
    assert forall|q: A| a.to_set().contains(q) <==> b.to_set().insert(ks[i]).contains(q) by {
        if a.contains(q) {
            let j = choose|j: int| 0 <= j < a.len() && a[j] == q;
            if j < i {
                assert(b[j] == q);
            }
        }
        if b.contains(q) {
            let j = choose|j: int| 0 <= j < b.len() && b[j] == q;
            assert(a[j] == q);
        }
        if q == ks[i] {
            assert(a[i] == q);
        }
    }
    assert(a.to_set() =~= b.to_set().insert(ks[i]));
}

/// Without duplicates, dropping element `i` from the suffix at `i` removes exactly it.
pub proof fn lemma_skip_next_set<A>(ks: Seq<A>, i: int)
    requires
        0 <= i < ks.len(),
        ks.no_duplicates(),
    ensures
        ks.skip(i + 1).to_set() == ks.skip(i).to_set().remove(ks[i]),
        !ks.skip(i + 1).contains(ks[i]),
{
    let a = ks.skip(i + 1);
    let b = ks.skip(i);
    assert forall|q: A| a.to_set().contains(q) <==> b.to_set().remove(ks[i]).contains(q) by {
        if a.contains(q) {
            let j = choose|j: int| 0 <= j < a.len() && a[j] == q;
            assert(b[j + 1] == q);
            assert(ks[i + 1 + j] == q);
        }
        if b.contains(q) && q != ks[i] {
            let j = choose|j: int| 0 <= j < b.len() && b[j] == q;
            assert(j != 0);
            assert(a[j - 1] == q);
        }
    }
    assert(a.to_set() =~= b.to_set().remove(ks[i]));
    if a.contains(ks[i]) {
        let j = choose|j: int| 0 <= j < a.len() && a[j] == ks[i];
        assert(ks[i + 1 + j] == ks[i]);
    }
}

impl StrMap<String> {
    /// A copy of this map, with the same keys in the same order.
    pub fn duplicate(&self) -> (r: Self)
        ensures
            r@ == self@,
            r.key_order() == self.key_order(),
    {
        let n = self.len();
        let mut r: StrMap<String> = StrMap::new();
        let mut i: usize = 0;
        while i < n
            invariant
                n == self.key_order().len(),
                self.key_order().no_duplicates(),
                self@.dom() == self.key_order().to_set(),
                i <= n,
                r.key_order() == self.key_order().take(i as int),
                r@ == self@.restrict(self.key_order().take(i as int).to_set()),
            decreases n - i,
        {
            let k = self.key_at(i).clone();
            let v = self.value_at(i).clone();
            proof {
                let ks = self.key_order();
                if ks.take(i as int).contains(k@) {
                    let j = choose|j: int| 0 <= j < i && ks.take(i as int)[j] == k@;
                    assert(ks[j] == ks[i as int]);
                }
                assert(r@.dom() =~= ks.take(i as int).to_set());
            }
            r.insert(k, v);
            proof {
                let ks = self.key_order();
                assert(ks.take(i + 1) =~= ks.take(i as int).push(ks[i as int]));
                assert(r@ =~= self@.restrict(ks.take(i + 1).to_set()));
            }
            i = i + 1;
        }
        proof {
            let ks = self.key_order();
            assert(ks.take(n as int) =~= ks);
            assert(r@ =~= self@);
        }
        r
    }
}

impl<V> View for StrMap<V> {
    type V = Map<Seq<char>, V>;

    open spec fn view(&self) -> Map<Seq<char>, V> {
        self.spec_map()
    }
}

} // verus!
