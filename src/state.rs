use vstd::prelude::*;

use crate::assoc::{absent_from, fold_map, lemma_fold_absent, lemma_fold_finite, lemma_fold_lookup, lemma_fold_push, lemma_fold_update};
use crate::key::Key;
use crate::stored_value::{StoredValue, StoredValueView};

verus! {

/// A failure of the store below a snapshot, in the words it gave.
#[derive(PartialEq, Eq, Debug)]
pub struct StorageError {
    pub message: String,
}

/// Read access to a snapshot of global state.
pub trait StateReader {
    /// The snapshot: what each key holds.
    spec fn state(&self) -> Map<Key, StoredValueView>;

    /// A snapshot holds finitely many keys.
    proof fn lemma_state_finite(&self)
        ensures
            self.state().dom().finite(),
    ;

    /// What `key` holds, if anything; the store below may fail.
    fn read(&self, key: &Key) -> (r: Result<Option<StoredValue>, StorageError>)
        ensures
            match r {
                Ok(Some(v)) => self.state().contains_key(*key) && v@ == self.state()[*key],
                Ok(None) => !self.state().contains_key(*key),
                Err(_) => true,
            },
    ;
}

/// The entries of a state map, by the view of each value.
pub open spec fn viewed_values(s: Seq<(Key, StoredValue)>) -> Seq<(Key, StoredValueView)> {
    s.map_values(|e: (Key, StoredValue)| (e.0, e.1@))
}

/// Values held under keys, in memory; a later write to a key replaces the earlier.
#[derive(Debug)]
pub struct StateMap {
    entries: Vec<(Key, StoredValue)>,
}

impl View for StateMap {
    type V = Map<Key, StoredValueView>;

    closed spec fn view(&self) -> Map<Key, StoredValueView> {
        fold_map(viewed_values(self.entries@))
    }
}

impl StateMap {
    pub fn new() -> (r: StateMap)
        ensures
            r@ == Map::<Key, StoredValueView>::empty(),
    {
        let r = StateMap { entries: Vec::new() };
        assert(viewed_values(r.entries@) =~= Seq::<(Key, StoredValueView)>::empty());
        r
    }

    fn find(&self, k: &Key) -> (r: Option<usize>)
        ensures
            match r {
                Some(i) => i < self.entries@.len() && self.entries@[i as int].0 == *k
                    && absent_from(viewed_values(self.entries@), *k, i + 1),
                None => absent_from(viewed_values(self.entries@), *k, 0),
            },
    {
        let ghost s = viewed_values(self.entries@);
        let mut i: usize = self.entries.len();
        while i > 0
            invariant
                i <= self.entries@.len(),
                s == viewed_values(self.entries@),
                absent_from(s, *k, i as int),
            decreases i,
        {
            i = i - 1;
            if self.entries[i].0 == *k {
                return Some(i);
            }
        }
        None
    }

    /// Puts `v` under `k`, replacing what was there.
    pub fn insert(&mut self, k: Key, v: StoredValue)
        ensures
            final(self)@ == old(self)@.insert(k, v@),
    {
        let ghost s = viewed_values(self.entries@);
        let ghost nv = v@;
        match self.find(&k) {
            Some(i) => {
                self.entries.set(i, (k, v));
                proof {
                    assert(viewed_values(self.entries@) =~= s.update(i as int, (k, nv)));
                    lemma_fold_update(s, i as int, nv);
                }
            },
            None => {
                self.entries.push((k, v));
                proof {
                    assert(viewed_values(self.entries@) =~= s.push((k, nv)));
                    lemma_fold_push(s, k, nv);
                }
            },
        }
    }

    /// A copy of what `k` holds, if anything.
    pub fn get(&self, k: &Key) -> (r: Option<StoredValue>)
        ensures
            match r {
                Some(v) => self@.contains_key(*k) && v@ == self@[*k],
                None => !self@.contains_key(*k),
            },
    {
        let ghost s = viewed_values(self.entries@);
        match self.find(k) {
            Some(i) => {
                proof {
                    lemma_fold_lookup(s, i as int);
                }
                Some(self.entries[i].1.copy())
            },
            None => {
                proof {
                    lemma_fold_absent(s, *k);
                }
                None
            },
        }
    }

    pub proof fn lemma_finite(&self)
        ensures
            self@.dom().finite(),
    {
        lemma_fold_finite(viewed_values(self.entries@));
    }
}

impl StateReader for StateMap {
    open spec fn state(&self) -> Map<Key, StoredValueView> {
        self@
    }

    proof fn lemma_state_finite(&self) {
        self.lemma_finite();
    }

    fn read(&self, key: &Key) -> (r: Result<Option<StoredValue>, StorageError>) {
        Ok(self.get(key))
    }
}

} // verus!
