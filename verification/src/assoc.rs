//! A map kept as a list of entries in strictly ascending key order.
use vstd::prelude::*;
use crate::order::{views, Key};
use crate::sort::reversed;

verus! {

/// Entries in strictly ascending key order, one per key.
pub struct SortedMap<K: Key, V> {
    entries: Vec<(K, V)>,
}

/// Every key is followed only by larger ones.
pub open spec fn ascending<K: Key>(keys: Seq<K::V>) -> bool {
    forall|i: int, j: int|
        0 <= i < j < keys.len() ==> K::le(#[trigger] keys[i], #[trigger] keys[j]) && keys[i] != keys[j]
}

impl<K: Key, V> View for SortedMap<K, V> {
    type V = Map<K::V, V>;

    closed spec fn view(&self) -> Map<K::V, V> {
        Map::new(
            |k: K::V| self.keys().contains(k),
            |k: K::V| self.entries@[self.keys().index_of(k)].1,
        )
    }
}

impl<K: Key, V> SortedMap<K, V> {
    /// The keys, in the order in which they are listed.
    pub closed spec fn keys(self) -> Seq<K::V> {
        Seq::new(self.entries@.len(), |i: int| self.entries@[i].0@)
    }

    /// The keys ascend.
    #[verifier::type_invariant]
    pub open spec fn wf(self) -> bool {
        ascending::<K>(self.keys())
    }

    proof fn lemma_at(self, i: int)
        requires
            self.wf(),
            0 <= i < self.entries@.len(),
        ensures
            self@.contains_key(self.entries@[i].0@),
            self@[self.entries@[i].0@] == self.entries@[i].1,
    {
        let k = self.keys()[i];
        assert(self.keys().contains(k));
        let j = self.keys().index_of(k);
        assert(self.keys()[j] == k);
        if j < i {
            assert(self.keys()[j] != self.keys()[i]);
        } else if i < j {
            assert(self.keys()[i] != self.keys()[j]);
        }
    }

    /// The map that holds nothing.
    pub fn new() -> (r: Self)
        ensures
            r@ == Map::<K::V, V>::empty(),
    {
        let r = SortedMap { entries: Vec::new() };
        assert(r@ =~= Map::<K::V, V>::empty());
        r
    }

    /// Where `k` stands or would have to be put: everything before that place
    /// is smaller, everything from there on is not.
    fn place(&self, k: &K) -> (at: usize)
        ensures
            at <= self.entries@.len(),
            forall|i: int| 0 <= i < at ==> !K::le(k@, #[trigger] self.keys()[i]),
            forall|i: int| at <= i < self.keys().len() ==> K::le(k@, #[trigger] self.keys()[i]),
    {
        proof {
            use_type_invariant(self);
        }
        let mut lo: usize = 0;
        let mut hi: usize = self.entries.len();
        while lo < hi
            invariant
                self.wf(),
                lo <= hi <= self.entries@.len(),
                forall|i: int| 0 <= i < lo ==> !K::le(k@, #[trigger] self.keys()[i]),
                forall|i: int| hi <= i < self.keys().len() ==> K::le(k@, #[trigger] self.keys()[i]),
            decreases hi - lo,
        {
            let mid: usize = lo + (hi - lo) / 2;
            assert(self.keys()[mid as int] == self.entries@[mid as int].0@);
            if k.leq(&self.entries[mid].0) {
                assert forall|i: int| mid <= i < self.keys().len() implies K::le(
                    k@,
                    #[trigger] self.keys()[i],
                ) by {
                    if i > mid {
                        K::le_transitive(k@, self.keys()[mid as int], self.keys()[i]);
                    }
                }
                hi = mid;
            } else {
                assert forall|i: int| 0 <= i <= mid implies !K::le(
                    k@,
                    #[trigger] self.keys()[i],
                ) by {
                    if i < mid && K::le(k@, self.keys()[i]) {
                        K::le_transitive(k@, self.keys()[i], self.keys()[mid as int]);
                    }
                }
                lo = mid + 1;
            }
        }
        lo
    }

    /// Whether the entry at `at` is the one for `k`, where `at` is the place of `k`.
    fn found(&self, k: &K, at: usize) -> (r: bool)
        requires
            at <= self.entries@.len(),
            forall|i: int| 0 <= i < at ==> !K::le(k@, #[trigger] self.keys()[i]),
            forall|i: int| at <= i < self.keys().len() ==> K::le(k@, #[trigger] self.keys()[i]),
        ensures
            r == self@.contains_key(k@),
            r ==> at < self.entries@.len() && self.keys()[at as int] == k@,
    {
        let r = at < self.entries.len() && self.entries[at].0.leq(k);
        proof {
            use_type_invariant(self);
            if r {
                K::le_antisymmetric(k@, self.keys()[at as int]);
                assert(self.keys().contains(k@));
            } else if self.keys().contains(k@) {
                let i = self.keys().index_of(k@);
                K::le_total(k@, k@);
                assert(self.keys()[i] == k@);
                assert(at <= i);
                if at < i {
                    assert(K::le(self.keys()[at as int], self.keys()[i]));
                }
            }
        }
        r
    }

    /// The value stored under `k`, if there is one.
    pub fn get(&self, k: &K) -> (r: Option<&V>)
        ensures
            r is Some <==> self@.contains_key(k@),
            r matches Some(v) ==> *v == self@[k@],
    {
        let at: usize = self.place(k);
        if self.found(k, at) {
            proof {
                use_type_invariant(self);
                self.lemma_at(at as int);
            }
            Some(&self.entries[at].1)
        } else {
            None
        }
    }

    /// Stores `v` under `k`, in place of what was there.
    pub fn set(&mut self, k: K, v: V)
        ensures
            final(self)@ == old(self)@.insert(k@, v),
    {
        proof {
            use_type_invariant(&*self);
        }
        let ghost before = *self;
        let at: usize = self.place(&k);
        let known = self.found(&k, at);
        let mut entries: Vec<(K, V)> = Vec::new();
        std::mem::swap(&mut entries, &mut self.entries);
        if known {
            let _ = entries.remove(at);
        }
        let ghost mid = entries@;
        entries.insert(at, (k, v));
        let ghost after = SortedMap { entries };
        proof {
            let n = after.entries@.len() as int;
            let shift: int = if known { 0 } else { 1 };
            assert(after.keys()[at as int] == k@);
            assert forall|i: int| 0 <= i < at implies #[trigger] after.keys()[i] == before.keys()[i]
                && after.entries@[i] == before.entries@[i] by {
                assert(after.entries@[i] == mid[i]);
            }
            assert forall|i: int| at < i < n implies #[trigger] after.keys()[i] == before.keys()[i
                - shift] && after.entries@[i] == before.entries@[i - shift] by {
                assert(after.entries@[i] == mid[i - 1]);
            }
            assert forall|i: int, j: int| 0 <= i < j < n implies K::le(
                #[trigger] after.keys()[i],
                #[trigger] after.keys()[j],
            ) && after.keys()[i] != after.keys()[j] by {
                K::le_total(k@, k@);
                if i < at {
                    assert(!K::le(k@, before.keys()[i]));
                    K::le_total(k@, before.keys()[i]);
                    if j == at {
                    } else if j < at {
                        assert(K::le(before.keys()[i], before.keys()[j]));
                    } else {
                        assert(K::le(before.keys()[i], before.keys()[j - shift]));
                    }
                } else if i == at {
                    assert(K::le(k@, before.keys()[j - shift]));
                    if known {
                        assert(before.keys()[at as int] == k@);
                        assert(before.keys()[at as int] != before.keys()[j]);
                    } else {
                        assert(before.keys().contains(before.keys()[j - 1]));
                    }
                } else {
                    assert(K::le(before.keys()[i - shift], before.keys()[j - shift]));
                }
            }
            assert(after.wf());
            assert(after@ =~= before@.insert(k@, v)) by {
                assert forall|q: K::V| after@.contains_key(q) <==> #[trigger] before@.insert(
                    k@,
                    v,
                ).contains_key(q) by {
                    if after.keys().contains(q) {
                        let i = after.keys().index_of(q);
                        if i != at {
                            let j = if i < at { i } else { i - shift };
                            assert(before.keys()[j] == q);
                            assert(before.keys().contains(q));
                        }
                    }
                    if before.keys().contains(q) {
                        let i = before.keys().index_of(q);
                        if i < at {
                            assert(after.keys()[i] == q);
                        } else if known && i == at {
                            assert(q == k@);
                            assert(after.keys()[at as int] == q);
                        } else {
                            assert(after.keys()[i + shift] == q);
                        }
                        assert(after.keys().contains(q));
                    }
                    assert(after.keys().contains(k@));
                }
                assert forall|q: K::V| #[trigger] after@.contains_key(q) implies after@[q]
                    == before@.insert(k@, v)[q] by {
                    let i = after.keys().index_of(q);
                    after.lemma_at(i);
                    if i < at {
                        before.lemma_at(i);
                    } else if i > at {
                        before.lemma_at(i - shift);
                        assert(after.keys()[at as int] != after.keys()[i]);
                    }
                    if i < at {
                        assert(after.keys()[i] != after.keys()[at as int]);
                    }
                }
            }
        }
        self.entries = entries;
        assert(self@ == after@);
    }

    /// How many entries there are.
    pub fn len(&self) -> (n: usize)
        ensures
            n == self.keys().len(),
    {
        self.entries.len()
    }

    /// The key and the value at position `i`.
    pub fn entry(&self, i: usize) -> (r: (&K, &V))
        requires
            i < self.keys().len(),
        ensures
            r.0@ == self.keys()[i as int],
            self@.contains_key(r.0@),
            *r.1 == self@[r.0@],
    {
        proof {
            use_type_invariant(self);
            self.lemma_at(i as int);
        }
        let e: &(K, V) = &self.entries[i];
        (&e.0, &e.1)
    }

    /// The keys in ascending order.
    pub fn into_keys(self) -> (r: Vec<K>)
        ensures
            views(r@) == self.keys(),
    {
        let mut entries: Vec<(K, V)> = self.entries;
        let mut out: Vec<K> = Vec::new();
        while entries.len() > 0
            invariant
                entries@.len() + out@.len() == self.keys().len(),
                forall|i: int| 0 <= i < entries@.len() ==> (#[trigger] entries@[i]).0@ == self.keys()[i],
                forall|i: int|
                    0 <= i < out@.len() ==> (#[trigger] out@[i])@ == self.keys()[self.keys().len() - 1
                        - i],
            decreases entries.len(),
        {
            let ghost n = entries@.len();
            if let Some((k, _)) = entries.pop() {
                out.push(k);
            }
        }
        let r: Vec<K> = reversed(out);
        assert(views(r@) =~= self.keys());
        r
    }

    /// The listed keys ascend, and they are the keys of the map.
    pub proof fn lemma_keys(self)
        requires
            self.wf(),
        ensures
            ascending::<K>(self.keys()),
            forall|k: K::V| self.keys().contains(k) <==> #[trigger] self@.contains_key(k),
            forall|i: int|
                0 <= i < self.keys().len() ==> self@.contains_key(#[trigger] self.keys()[i]),
    {
        assert forall|i: int| 0 <= i < self.keys().len() implies self@.contains_key(
            #[trigger] self.keys()[i],
        ) by {
            assert(self.keys().contains(self.keys()[i]));
        }
    }
}

/// A set kept in ascending order.
pub struct SortedSet<K: Key> {
    items: SortedMap<K, ()>,
}

impl<K: Key> View for SortedSet<K> {
    type V = Set<K::V>;

    closed spec fn view(&self) -> Set<K::V> {
        self.items@.dom()
    }
}

impl<K: Key> SortedSet<K> {
    /// The set that holds nothing.
    pub fn new() -> (r: Self)
        ensures
            r@ == Set::<K::V>::empty(),
    {
        let r = SortedSet { items: SortedMap::new() };
        assert(r@ =~= Set::<K::V>::empty());
        r
    }

    /// Puts `k` into the set.
    pub fn insert(&mut self, k: K)
        ensures
            final(self)@ == old(self)@.insert(k@),
    {
        self.items.set(k, ());
        assert(self@ =~= old(self)@.insert(k@));
    }

    /// Whether the set holds `k`.
    pub fn contains(&self, k: &K) -> (r: bool)
        ensures
            r == self@.contains(k@),
    {
        self.items.get(k).is_some()
    }

    /// The items in ascending order.
    pub fn into_vec(self) -> (r: Vec<K>)
        ensures
            ascending::<K>(views(r@)),
            forall|k: K::V| views(r@).contains(k) <==> #[trigger] self@.contains(k),
    {
        proof {
            use_type_invariant(&self.items);
            self.items.lemma_keys();
            assert forall|k: K::V| self.items.keys().contains(k) <==> #[trigger] self@.contains(
                k,
            ) by {
                assert(self.items@.contains_key(k) <==> self.items.keys().contains(k));
            }
        }
        self.items.into_keys()
    }
}

}
