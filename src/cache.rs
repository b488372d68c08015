use linked_hash_map::LinkedHashMap;
use vstd::prelude::*;

use crate::assoc::{fold_map, lemma_fold_lookup, lemma_fold_push, lemma_fold_remove_unique, unique_keys, absent_from, lemma_fold_absent};
use crate::key::Key;
use crate::state::StateMap;
use crate::bytesrepr::ToBytes;
use crate::stored_value::{StoredValue, StoredValueView};
use crate::value_codec::{enc_stored, stored_fits};

verus! {

#[verifier::external_type_specification]
#[verifier::external_body]
#[verifier::reject_recursive_types(K)]
#[verifier::reject_recursive_types(V)]
#[verifier::reject_recursive_types(S)]
pub struct ExLinkedHashMap<K, V, S>(LinkedHashMap<K, V, S>);

/// The entries of a read cache, least recently used first.
pub uninterp spec fn lru_entries(m: LinkedHashMap<Key, StoredValue>) -> Seq<(Key, StoredValueView)>;

/// Relies on `LinkedHashMap::new`: the map starts empty.
#[verifier::external_body]
fn lru_new() -> (r: LinkedHashMap<Key, StoredValue>)
    ensures
        lru_entries(r) == Seq::<(Key, StoredValueView)>::empty(),
{
    LinkedHashMap::new()
}

/// Relies on `LinkedHashMap::insert`: a new key goes to the back; a present key
/// has its value replaced, the old value returned, and moves to the back.
#[verifier::external_body]
fn lru_insert(m: &mut LinkedHashMap<Key, StoredValue>, k: Key, v: StoredValue) -> (r: Option<StoredValue>)
    ensures
        match r {
            Some(old_v) => exists|i: int|
                0 <= i < lru_entries(*old(m)).len() && #[trigger] lru_entries(*old(m))[i].0 == k
                    && old_v@ == lru_entries(*old(m))[i].1 && lru_entries(*final(m))
                    == lru_entries(*old(m)).remove(i).push((k, v@)),
            None => absent_from(lru_entries(*old(m)), k, 0) && lru_entries(*final(m)) == lru_entries(
                *old(m),
            ).push((k, v@)),
        },
{
    m.insert(k, v)
}

/// Relies on `LinkedHashMap::pop_front`: it removes and returns the entry at the front.
#[verifier::external_body]
fn lru_pop_front(m: &mut LinkedHashMap<Key, StoredValue>) -> (r: Option<(Key, StoredValue)>)
    ensures
        match r {
            Some((k, v)) => lru_entries(*old(m)).len() > 0 && (k, v@) == lru_entries(*old(m))[0]
                && lru_entries(*final(m)) == lru_entries(*old(m)).remove(0),
            None => lru_entries(*old(m)).len() == 0 && lru_entries(*final(m)) == lru_entries(*old(m)),
        },
{
    m.pop_front()
}

/// Relies on `LinkedHashMap::get_refresh`: a present key moves to the back and
/// its value is handed out (here, copied).
#[verifier::external_body]
fn lru_get_refresh(m: &mut LinkedHashMap<Key, StoredValue>, k: &Key) -> (r: Option<StoredValue>)
    ensures
        match r {
            Some(v) => exists|i: int|
                0 <= i < lru_entries(*old(m)).len() && #[trigger] lru_entries(*old(m))[i].0 == *k
                    && v@ == lru_entries(*old(m))[i].1 && lru_entries(*final(m)) == lru_entries(
                    *old(m),
                ).remove(i).push(lru_entries(*old(m))[i]),
            None => absent_from(lru_entries(*old(m)), *k, 0) && lru_entries(*final(m))
                == lru_entries(*old(m)),
        },
{
    m.get_refresh(k).map(|v| v.copy())
}

/// The bytes that a key is counted for.
pub const KEY_HEAP_SIZE: usize = 34;

/// No one entry is counted for more than this, nor can a budget be larger, so
/// that a budget plus one entry always fits in a `usize`.
pub const METER_CAP: usize = usize::MAX / 2;

/// The payload bytes of a stored value: the length of its encoding, or the cap
/// where it cannot be encoded.
pub open spec fn payload_len(v: StoredValueView) -> nat {
    if stored_fits(v) {
        enc_stored(v).len()
    } else {
        METER_CAP as nat
    }
}

/// The size an entry is counted for in the read cache: the key and the payload, capped.
pub open spec fn meter(v: StoredValueView) -> nat {
    if payload_len(v) + KEY_HEAP_SIZE > METER_CAP {
        METER_CAP as nat
    } else {
        (payload_len(v) + KEY_HEAP_SIZE) as nat
    }
}

/// The sum of the sizes of some cache entries.
pub open spec fn total_size(s: Seq<(Key, StoredValueView)>) -> nat
    decreases s.len(),
{
    if s.len() == 0 {
        0
    } else {
        total_size(s.drop_last()) + meter(s.last().1)
    }
}

proof fn lemma_total_push(s: Seq<(Key, StoredValueView)>, e: (Key, StoredValueView))
    ensures
        total_size(s.push(e)) == total_size(s) + meter(e.1),
{
    assert(s.push(e).drop_last() =~= s);
}

proof fn lemma_total_remove(s: Seq<(Key, StoredValueView)>, i: int)
    requires
        0 <= i < s.len(),
    ensures
        total_size(s.remove(i)) + meter(s[i].1) == total_size(s),
    decreases s.len(),
{
    if i == s.len() - 1 {
        assert(s.remove(i) =~= s.drop_last());
    } else {
        lemma_total_remove(s.drop_last(), i);
        assert(s.remove(i).drop_last() =~= s.drop_last().remove(i));
    }
}

/// The read entries after `(k, v)` is read: an entry for `k` leaves its place,
/// and `(k, v)` becomes the most recently used.
pub open spec fn refreshed(s: Seq<(Key, StoredValueView)>, k: Key, v: StoredValueView) -> Seq<
    (Key, StoredValueView),
> {
    if exists|i: int| 0 <= i < s.len() && #[trigger] s[i].0 == k {
        s.remove(choose|i: int| 0 <= i < s.len() && #[trigger] s[i].0 == k).push((k, v))
    } else {
        s.push((k, v))
    }
}

/// Counts a value for the read cache.
fn measure(v: &StoredValue) -> (r: usize)
    ensures
        r == meter(v@),
{
    let n = match v.to_bytes() {
        Ok(b) => b.len(),
        Err(_) => METER_CAP,
    };
    if n > METER_CAP - KEY_HEAP_SIZE {
        METER_CAP
    } else {
        n + KEY_HEAP_SIZE
    }
}

/// Values already looked up: reads, which are evicted least recently used
/// first once over a byte budget, and writes, which are never evicted.
pub struct TrackingCopyCache {
    max_cache_size: usize,
    current_cache_size: usize,
    reads_cached: LinkedHashMap<Key, StoredValue>,
    muts_cached: StateMap,
}

impl TrackingCopyCache {
    /// The cached reads, least recently used first.
    pub closed spec fn reads_order(&self) -> Seq<(Key, StoredValueView)> {
        lru_entries(self.reads_cached)
    }

    /// The cached reads, by key.
    pub open spec fn reads(&self) -> Map<Key, StoredValueView> {
        fold_map(self.reads_order())
    }

    /// The cached writes, by key.
    pub closed spec fn muts(&self) -> Map<Key, StoredValueView> {
        self.muts_cached@
    }

    pub closed spec fn max_size(&self) -> nat {
        self.max_cache_size as nat
    }

    pub closed spec fn current_size(&self) -> nat {
        self.current_cache_size as nat
    }

    pub closed spec fn wf(&self) -> bool {
        &&& unique_keys(self.reads_order())
        &&& self.current_cache_size == total_size(self.reads_order())
        &&& self.current_cache_size <= self.max_cache_size
        &&& self.max_cache_size <= METER_CAP
    }

    /// A cache that holds at most `max_cache_size` bytes of reads.
    pub fn new(max_cache_size: usize) -> (r: TrackingCopyCache)
        requires
            max_cache_size <= METER_CAP,
        ensures
            r.wf(),
            r.reads() == Map::<Key, StoredValueView>::empty(),
            r.reads_order() == Seq::<(Key, StoredValueView)>::empty(),
            r.muts() == Map::<Key, StoredValueView>::empty(),
            r.max_size() == max_cache_size,
            r.current_size() == 0,
    {
        let r = TrackingCopyCache {
            max_cache_size,
            current_cache_size: 0,
            reads_cached: lru_new(),
            muts_cached: StateMap::new(),
        };
        assert(r.reads() =~= Map::<Key, StoredValueView>::empty());
        r
    }

    pub fn current_cache_size(&self) -> (r: usize)
        ensures
            r == self.current_size(),
    {
        self.current_cache_size
    }

    /// Caches a read of `key`; then evicts least recently used reads while over budget.
    pub fn insert_read(&mut self, key: Key, value: StoredValue)
        requires
            old(self).wf(),
        ensures
            final(self).wf(),
            final(self).muts() == old(self).muts(),
            final(self).max_size() == old(self).max_size(),
            final(self).current_size() <= final(self).max_size(),
            meter(value@) <= old(self).max_size() ==> final(self).reads().contains_key(key)
                && final(self).reads()[key] == value@,
            final(self).current_size() == total_size(final(self).reads_order()),
            exists|j: int|
                0 <= j <= refreshed(old(self).reads_order(), key, value@).len()
                    && final(self).reads_order() == refreshed(
                    old(self).reads_order(),
                    key,
                    value@,
                ).subrange(j, refreshed(old(self).reads_order(), key, value@).len() as int),
            forall|k: Key| #[trigger]
                final(self).reads().contains_key(k) ==> old(self).reads().insert(
                    key,
                    value@,
                ).contains_key(k) && final(self).reads()[k] == old(self).reads().insert(
                    key,
                    value@,
                )[k],
    {
        let ghost s0 = self.reads_order();
        let ghost target = self.reads().insert(key, value@);
        let size = measure(&value);
        let ghost vv = value@;
        match lru_insert(&mut self.reads_cached, key, value) {
            Some(old_v) => {
                let ghost i = choose|i: int|
                    0 <= i < s0.len() && #[trigger] s0[i].0 == key && old_v@ == s0[i].1
                        && lru_entries(self.reads_cached) == s0.remove(i).push((key, vv));
                proof {
                    let c = choose|c: int| 0 <= c < s0.len() && #[trigger] s0[c].0 == key;
                    assert(s0[c].0 == s0[i].0);
                    assert(c == i);
                    assert(lru_entries(self.reads_cached) == refreshed(s0, key, vv));
                    lemma_total_remove(s0, i);
                    lemma_total_push(s0.remove(i), (key, vv));
                    lemma_fold_remove_unique(s0, i);
                    lemma_fold_push(s0.remove(i), key, vv);
                    assert(fold_map(s0).remove(key).insert(key, vv) =~= target);
                    let r = s0.remove(i);
                    assert forall|j: int| 0 <= j < r.len() implies #[trigger] r[j].0 != key by {
                        let j2 = if j < i { j } else { j + 1 };
                        assert(r[j] == s0[j2]);
                    }
                    assert forall|a: int, b: int| 0 <= a < b < r.push((key, vv)).len() implies
                        #[trigger] r.push((key, vv))[a].0 != #[trigger] r.push((key, vv))[b].0 by {
                        if b == r.len() {
                            assert(r[a].0 != key);
                        } else {
                            assert(r.push((key, vv))[a] == r[a]);
                            assert(r.push((key, vv))[b] == r[b]);
                        }
                    }
                }
                let old_size = measure(&old_v);
                self.current_cache_size = self.current_cache_size - old_size + size;
            },
            None => {
                proof {
                    assert(lru_entries(self.reads_cached) == refreshed(s0, key, vv));
                    lemma_total_push(s0, (key, vv));
                    lemma_fold_push(s0, key, vv);
                    assert forall|a: int, b: int| 0 <= a < b < s0.push((key, vv)).len() implies
                        #[trigger] s0.push((key, vv))[a].0 != #[trigger] s0.push((key, vv))[b].0 by {
                        if b == s0.len() {
                            assert(s0[a].0 != key);
                        } else {
                            assert(s0.push((key, vv))[a] == s0[a]);
                            assert(s0.push((key, vv))[b] == s0[b]);
                        }
                    }
                }
                self.current_cache_size = self.current_cache_size + size;
            },
        }
        let ghost post = self.reads_order();
        assert(post.subrange(0, post.len() as int) =~= post);
        while self.current_cache_size > self.max_cache_size
            invariant
                post == refreshed(old(self).reads_order(), key, value@),
                exists|j: int| 0 <= j <= post.len() && self.reads_order() == post.subrange(j, post.len() as int),
                unique_keys(self.reads_order()),
                self.current_cache_size == total_size(self.reads_order()),
                self.max_cache_size <= METER_CAP,
                self.muts_cached@ == old(self).muts_cached@,
                self.max_cache_size == old(self).max_cache_size,
                forall|k: Key| #[trigger]
                    self.reads().contains_key(k) ==> target.contains_key(k) && self.reads()[k]
                        == target[k],
                meter(vv) <= self.max_cache_size ==> self.reads_order().len() > 0
                    && self.reads_order().last() == (key, vv),
            decreases self.reads_order().len(),
        {
            let ghost s = self.reads_order();
            let ghost before = self.reads();
            match lru_pop_front(&mut self.reads_cached) {
                Some((k, v)) => {
                    proof {
                        lemma_total_remove(s, 0);
                        lemma_fold_remove_unique(s, 0);
                        if meter(vv) <= self.max_cache_size && s.len() == 1 {
                            assert(s.drop_last() =~= Seq::<(Key, StoredValueView)>::empty());
                            assert(total_size(s) == meter(vv));
                        }
                        assert(self.reads() == fold_map(s).remove(s[0].0));
                        let j = choose|j: int| 0 <= j <= post.len() && s == post.subrange(j, post.len() as int);
                        assert(self.reads_order() =~= post.subrange(j + 1, post.len() as int));
                        assert forall|k: Key| #[trigger]
                            self.reads().contains_key(k) implies target.contains_key(k)
                            && self.reads()[k] == target[k] by {
                            assert(fold_map(s).contains_key(k));
                            assert(before.contains_key(k));
                        }
                    }
                    let popped = measure(&v);
                    self.current_cache_size = self.current_cache_size - popped;
                },
                None => {
                    assert(total_size(s) == 0);
                    assert(false);
                },
            }
        }
    }

    /// Caches a write of `key`, replacing an earlier one; reads are left alone.
    pub fn insert_write(&mut self, key: Key, value: StoredValue)
        requires
            old(self).wf(),
        ensures
            final(self).wf(),
            final(self).muts() == old(self).muts().insert(key, value@),
            final(self).reads() == old(self).reads(),
            final(self).reads_order() == old(self).reads_order(),
            final(self).max_size() == old(self).max_size(),
            final(self).current_size() == old(self).current_size(),
    {
        self.muts_cached.insert(key, value);
    }

    /// A cached write of `key`, else a cached read of it, which becomes the most recently used.
    pub fn get(&mut self, key: &Key) -> (r: Option<StoredValue>)
        requires
            old(self).wf(),
        ensures
            final(self).wf(),
            final(self).muts() == old(self).muts(),
            final(self).reads() == old(self).reads(),
            final(self).max_size() == old(self).max_size(),
            final(self).current_size() == old(self).current_size(),
            old(self).muts().contains_key(*key) || !old(self).reads().contains_key(*key)
                ==> final(self).reads_order() == old(self).reads_order(),
            !old(self).muts().contains_key(*key) && old(self).reads().contains_key(*key) ==> exists|i: int|
                0 <= i < old(self).reads_order().len() && #[trigger] old(self).reads_order()[i].0 == *key
                    && final(self).reads_order() == old(self).reads_order().remove(i).push(
                    old(self).reads_order()[i],
                ),
            match r {
                Some(v) => if old(self).muts().contains_key(*key) {
                    v@ == old(self).muts()[*key]
                } else {
                    old(self).reads().contains_key(*key) && v@ == old(self).reads()[*key]
                },
                None => !old(self).muts().contains_key(*key) && !old(self).reads().contains_key(
                    *key,
                ),
            },
    {
        if let Some(v) = self.muts_cached.get(key) {
            return Some(v);
        }
        let ghost s = self.reads_order();
        let r = lru_get_refresh(&mut self.reads_cached, key);
        proof {
            match &r {
                Some(v) => {
                    let i = choose|i: int|
                        0 <= i < s.len() && #[trigger] s[i].0 == *key && v@ == s[i].1
                            && lru_entries(self.reads_cached) == s.remove(i).push(s[i]);
                    lemma_total_remove(s, i);
                    lemma_total_push(s.remove(i), s[i]);
                    lemma_fold_remove_unique(s, i);
                    lemma_fold_push(s.remove(i), *key, s[i].1);
                    assert forall|j: int| i + 1 <= j < s.len() implies #[trigger] s[j].0 != *key by {
                        assert(s[i].0 != s[j].0);
                    }
                    lemma_fold_lookup(s, i);
                    assert(fold_map(s).remove(*key).insert(*key, s[i].1) =~= fold_map(s));
                    let t = s.remove(i);
                    assert forall|j: int| 0 <= j < t.len() implies #[trigger] t[j].0 != *key by {
                        let j2 = if j < i { j } else { j + 1 };
                        assert(t[j] == s[j2]);
                    }
                    assert forall|a: int, b: int| 0 <= a < b < t.push(s[i]).len() implies
                        #[trigger] t.push(s[i])[a].0 != #[trigger] t.push(s[i])[b].0 by {
                        if b == t.len() {
                            assert(t[a].0 != *key);
                        } else {
                            assert(t.push(s[i])[a] == t[a]);
                            assert(t.push(s[i])[b] == t[b]);
                        }
                    }
                },
                None => {
                    lemma_fold_absent(s, *key);
                },
            }
        }
        r
    }

    /// What the cached writes hold for `key`, if anything.
    pub fn get_mut_cached(&self, key: &Key) -> (r: Option<StoredValue>)
        ensures
            match r {
                Some(v) => self.muts().contains_key(*key) && v@ == self.muts()[*key],
                None => !self.muts().contains_key(*key),
            },
    {
        self.muts_cached.get(key)
    }

    pub proof fn lemma_muts_finite(&self)
        ensures
            self.muts().dom().finite(),
    {
        self.muts_cached.lemma_finite();
    }
}

impl TrackingCopyCache {
    /// The size counted is the sum of the sizes of the cached reads, each key
    /// is cached once, and the size is within the budget.
    pub proof fn lemma_size_is_sum(&self)
        requires
            self.wf(),
        ensures
            self.current_size() == total_size(self.reads_order()),
            unique_keys(self.reads_order()),
            self.current_size() <= self.max_size(),
            self.max_size() <= METER_CAP,
    {
    }
}

/// The read cache never holds more than its budget, and so never more than its
/// budget plus the largest single entry.
pub proof fn lemma_cache_bound(c: TrackingCopyCache, max_single_entry: nat)
    requires
        c.wf(),
    ensures
        c.current_size() <= c.max_size(),
        c.current_size() <= c.max_size() + max_single_entry,
{
}

} // verus!
