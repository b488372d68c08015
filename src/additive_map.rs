use vstd::prelude::*;

use crate::assoc::{absent_from, fold_map, lemma_fold_absent, lemma_fold_lookup, lemma_fold_push, lemma_fold_update};
use crate::key::Key;

verus! {

/// A value that a later value of its type can be added to.
pub trait Additive: View + Sized {
    /// `a`, then `b`.
    spec fn spec_sum(a: Self::V, b: Self::V) -> Self::V;

    fn sum(self, other: Self) -> (r: Self)
        ensures
            r@ == Self::spec_sum(self@, other@),
    ;

    fn duplicate(&self) -> (r: Self)
        ensures
            r@ == self@,
    ;
}

/// The entries of an additive map, by the view of each value.
pub open spec fn viewed<V: View>(s: Seq<(Key, V)>) -> Seq<(Key, V::V)> {
    s.map_values(|e: (Key, V)| (e.0, e.1@))
}

/// A map from keys in which inserting at a key already present adds the new
/// value to the old one.
#[derive(Debug)]
pub struct AdditiveMap<V> {
    entries: Vec<(Key, V)>,
}

impl<V: View> View for AdditiveMap<V> {
    type V = Map<Key, V::V>;

    closed spec fn view(&self) -> Map<Key, V::V> {
        fold_map(viewed(self.entries@))
    }
}

/// What `insert_add(k, v)` makes of the map `m`.
pub open spec fn spec_insert_add<V: Additive>(m: Map<Key, V::V>, k: Key, v: V::V) -> Map<Key, V::V> {
    if m.contains_key(k) {
        m.insert(k, V::spec_sum(m[k], v))
    } else {
        m.insert(k, v)
    }
}

impl<V: Additive> AdditiveMap<V> {
    pub fn new() -> (r: AdditiveMap<V>)
        ensures
            r@ == Map::<Key, V::V>::empty(),
    {
        let r = AdditiveMap { entries: Vec::new() };
        assert(viewed(r.entries@) =~= Seq::<(Key, V::V)>::empty());
        r
    }

    /// The index of the last entry for `k`, if any.
    fn find(&self, k: &Key) -> (r: Option<usize>)
        ensures
            match r {
                Some(i) => i < self.entries@.len() && self.entries@[i as int].0 == *k
                    && absent_from(viewed(self.entries@), *k, i + 1),
                None => absent_from(viewed(self.entries@), *k, 0),
            },
    {
        let ghost s = viewed(self.entries@);
        let mut i: usize = self.entries.len();
        while i > 0
            invariant
                i <= self.entries@.len(),
                s == viewed(self.entries@),
                absent_from(s, *k, i as int),
            decreases i,
        {
            i = i - 1;
            if self.entries[i].0 == *k {
                return Some(i);
            }
        }
        None
    }

    /// Inserts `v` at `k`; where `k` is present, its value becomes the old value plus `v`.
    pub fn insert_add(&mut self, k: Key, v: V)
        ensures
            final(self)@ == spec_insert_add::<V>(old(self)@, k, v@),
    {
        let ghost s = viewed(self.entries@);
        match self.find(&k) {
            Some(i) => {
                proof {
                    lemma_fold_lookup(s, i as int);
                }
                let cur = self.entries[i].1.duplicate();
                let new = cur.sum(v);
                let ghost nv = new@;
                self.entries.set(i, (k, new));
                proof {
                    assert(viewed(self.entries@) =~= s.update(i as int, (k, nv)));
                    lemma_fold_update(s, i as int, nv);
                }
            },
            None => {
                proof {
                    lemma_fold_absent(s, k);
                }
                let ghost nv = v@;
                self.entries.push((k, v));
                proof {
                    assert(viewed(self.entries@) =~= s.push((k, nv)));
                    lemma_fold_push(s, k, nv);
                }
            },
        }
    }

    /// A copy of the value at `k`, if any.
    pub fn get(&self, k: &Key) -> (r: Option<V>)
        ensures
            match r {
                Some(v) => self@.contains_key(*k) && v@ == self@[*k],
                None => !self@.contains_key(*k),
            },
    {
        let ghost s = viewed(self.entries@);
        match self.find(k) {
            Some(i) => {
                proof {
                    lemma_fold_lookup(s, i as int);
                }
                Some(self.entries[i].1.duplicate())
            },
            None => {
                proof {
                    lemma_fold_absent(s, *k);
                }
                None
            },
        }
    }

    /// Whether no key has a value.
    pub fn is_empty(&self) -> (r: bool)
        ensures
            r == (self@ == Map::<Key, V::V>::empty()),
    {
        let ghost s = viewed(self.entries@);
        if self.entries.len() == 0 {
            assert(s =~= Seq::<(Key, V::V)>::empty());
            assert(self@ =~= Map::<Key, V::V>::empty());
            true
        } else {
            let ghost last = s.len() - 1;
            proof {
                lemma_fold_lookup(s, last);
                assert(self@.contains_key(s[last].0));
            }
            false
        }
    }

    /// The keys that have a value, in the order in which they first did.
    pub fn keys(&self) -> (r: Vec<Key>)
        ensures
            forall|k: Key| self@.contains_key(k) <==> r@.contains(k),
    {
        let ghost s = viewed(self.entries@);
        let mut r: Vec<Key> = Vec::new();
        let mut i: usize = 0;
        while i < self.entries.len()
            invariant
                0 <= i <= self.entries@.len(),
                s == viewed(self.entries@),
                r@.len() == i,
                forall|k: Key| r@.contains(k) <==> !absent_from(s.subrange(0, i as int), k, 0),
            decreases self.entries@.len() - i,
        {
            let k = self.entries[i].0;
            let ghost before = r@;
            r.push(k);
            proof {
                assert forall|x: Key| r@.contains(x) <==> !absent_from(s.subrange(0, i + 1), x, 0) by {
                    if r@.contains(x) {
                        if x == k {
                            assert(s.subrange(0, i + 1)[i as int].0 == x);
                        } else {
                            assert(before.contains(x));
                            let j = choose|j: int| 0 <= j < i && #[trigger] s.subrange(0, i as int)[j].0 == x;
                            assert(s.subrange(0, i + 1)[j].0 == x);
                        }
                    }
                    if !absent_from(s.subrange(0, i + 1), x, 0) {
                        let j = choose|j: int| 0 <= j < i + 1 && #[trigger] s.subrange(0, i + 1)[j].0 == x;
                        if j == i {
                            assert(s[i as int].0 == k);
                            assert(r@[i as int] == x);
                        } else {
                            assert(s.subrange(0, i as int)[j].0 == x);
                            assert(before.contains(x));
                            let m = choose|m: int| 0 <= m < before.len() && #[trigger] before[m] == x;
                            assert(r@[m] == x);
                        }
                    }
                }
            }
            i = i + 1;
        }
        proof {
            assert(s.subrange(0, s.len() as int) =~= s);
            assert forall|k: Key| self@.contains_key(k) <==> r@.contains(k) by {
                lemma_fold_absent(s, k);
            }
        }
        r
    }

    /// A copy of this map.
    pub fn copy(&self) -> (r: AdditiveMap<V>)
        ensures
            r@ == self@,
    {
        let mut entries: Vec<(Key, V)> = Vec::new();
        let mut i: usize = 0;
        while i < self.entries.len()
            invariant
                0 <= i <= self.entries@.len(),
                viewed(entries@) == viewed(self.entries@.subrange(0, i as int)),
            decreases self.entries@.len() - i,
        {
            let e = &self.entries[i];
            let d = e.1.duplicate();
            let ghost before = entries@;
            entries.push((e.0, d));
            assert(viewed(entries@) =~= viewed(before).push((e.0, e.1@)));
            assert(viewed(self.entries@.subrange(0, i + 1)) =~= viewed(
                self.entries@.subrange(0, i as int),
            ).push((e.0, e.1@)));
            i = i + 1;
        }
        assert(self.entries@.subrange(0, self.entries@.len() as int) =~= self.entries@);
        AdditiveMap { entries }
    }
}

/// Inserting `(k, a)` and then `(k, b)` leaves what inserting `(k, a + b)` leaves,
/// wherever adding to the value already at `k` is associative.
pub proof fn lemma_insert_add_twice<V: Additive>(m: Map<Key, V::V>, k: Key, a: V::V, b: V::V)
    requires
        m.contains_key(k) ==> V::spec_sum(V::spec_sum(m[k], a), b) == V::spec_sum(
            m[k],
            V::spec_sum(a, b),
        ),
    ensures
        spec_insert_add::<V>(spec_insert_add::<V>(m, k, a), k, b) == spec_insert_add::<V>(
            m,
            k,
            V::spec_sum(a, b),
        ),
{
    let once = spec_insert_add::<V>(m, k, a);
    assert(once.contains_key(k));
    if m.contains_key(k) {
        assert(spec_insert_add::<V>(once, k, b) =~= spec_insert_add::<V>(m, k, V::spec_sum(a, b)));
    } else {
        assert(spec_insert_add::<V>(once, k, b) =~= spec_insert_add::<V>(m, k, V::spec_sum(a, b)));
    }
}

} // verus!
