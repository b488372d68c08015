use vstd::prelude::*;

verus! {

/// The map that a list of entries stands for: a later entry for a key wins over
/// an earlier one.
pub open spec fn fold_map<K, V>(s: Seq<(K, V)>) -> Map<K, V>
    decreases s.len(),
{
    if s.len() == 0 {
        Map::empty()
    } else {
        fold_map(s.drop_last()).insert(s.last().0, s.last().1)
    }
}

/// No entry at `i` or after holds key `k`.
pub open spec fn absent_from<K, V>(s: Seq<(K, V)>, k: K, i: int) -> bool {
    forall|j: int| i <= j < s.len() ==> #[trigger] s[j].0 != k
}

pub proof fn lemma_fold_push<K, V>(s: Seq<(K, V)>, k: K, v: V)
    ensures
        fold_map(s.push((k, v))) == fold_map(s).insert(k, v),
{
    assert(s.push((k, v)).drop_last() =~= s);
}

/// A key that no entry holds is not in the map, and one that some entry holds is.
pub proof fn lemma_fold_absent<K, V>(s: Seq<(K, V)>, k: K)
    ensures
        absent_from(s, k, 0) <==> !fold_map(s).contains_key(k),
    decreases s.len(),
{
    if s.len() > 0 {
        lemma_fold_absent(s.drop_last(), k);
        if !absent_from(s, k, 0) && s.last().0 != k {
            let j = choose|j: int| 0 <= j < s.len() && s[j].0 == k;
            assert(s.drop_last()[j].0 == k);
        }
        if absent_from(s, k, 0) {
            assert forall|j: int| 0 <= j < s.drop_last().len() implies #[trigger] s.drop_last()[j].0
                != k by {
                assert(s[j].0 != k);
            }
        }
    }
}

/// The map holds, for a key, the value of the last entry that holds it.
pub proof fn lemma_fold_lookup<K, V>(s: Seq<(K, V)>, i: int)
    requires
        0 <= i < s.len(),
        absent_from(s, s[i].0, i + 1),
    ensures
        fold_map(s).contains_key(s[i].0),
        fold_map(s)[s[i].0] == s[i].1,
    decreases s.len(),
{
    if i < s.len() - 1 {
        let t = s.drop_last();
        assert forall|j: int| i + 1 <= j < t.len() implies #[trigger] t[j].0 != s[i].0 by {
            assert(s[j].0 != s[i].0);
        }
        lemma_fold_lookup(t, i);
        assert(s.last().0 == s[s.len() - 1].0);
    }
}

/// Changing the value of the last entry for a key changes the map at that key alone.
pub proof fn lemma_fold_update<K, V>(s: Seq<(K, V)>, i: int, w: V)
    requires
        0 <= i < s.len(),
        absent_from(s, s[i].0, i + 1),
    ensures
        fold_map(s.update(i, (s[i].0, w))) == fold_map(s).insert(s[i].0, w),
    decreases s.len(),
{
    let k = s[i].0;
    let u = s.update(i, (k, w));
    if i == s.len() - 1 {
        assert(u.drop_last() =~= s.drop_last());
        assert(fold_map(u) =~= fold_map(s).insert(k, w));
    } else {
        let t = s.drop_last();
        assert forall|j: int| i + 1 <= j < t.len() implies #[trigger] t[j].0 != k by {
            assert(s[j].0 != k);
        }
        lemma_fold_update(t, i, w);
        assert(u.drop_last() =~= t.update(i, (k, w)));
        assert(s.last().0 != k);
        assert(fold_map(u) =~= fold_map(s).insert(k, w));
    }
}

/// No two entries hold the same key.
pub open spec fn unique_keys<K, V>(s: Seq<(K, V)>) -> bool {
    forall|i: int, j: int| 0 <= i < j < s.len() ==> #[trigger] s[i].0 != #[trigger] s[j].0
}

/// A map that an entry list stands for is finite.
pub proof fn lemma_fold_finite<K, V>(s: Seq<(K, V)>)
    ensures
        fold_map(s).dom().finite(),
    decreases s.len(),
{
    if s.len() > 0 {
        lemma_fold_finite(s.drop_last());
    }
}

/// Removing the one entry for a key removes the key.
pub proof fn lemma_fold_remove_unique<K, V>(s: Seq<(K, V)>, i: int)
    requires
        0 <= i < s.len(),
        unique_keys(s),
    ensures
        fold_map(s.remove(i)) == fold_map(s).remove(s[i].0),
        unique_keys(s.remove(i)),
    decreases s.len(),
{
    let k = s[i].0;
    let r = s.remove(i);
    assert forall|a: int, b: int| 0 <= a < b < r.len() implies #[trigger] r[a].0 != #[trigger] r[b].0 by {
        let a2 = if a < i { a } else { a + 1 };
        let b2 = if b < i { b } else { b + 1 };
        assert(r[a] == s[a2]);
        assert(r[b] == s[b2]);
    }
    if i == s.len() - 1 {
        assert(r =~= s.drop_last());
        assert forall|j: int| 0 <= j < r.len() implies #[trigger] r[j].0 != k by {
            assert(r[j] == s[j]);
        }
        lemma_fold_absent(r, k);
        assert(fold_map(r) =~= fold_map(s).remove(k));
    } else {
        let t = s.drop_last();
        assert forall|a: int, b: int| 0 <= a < b < t.len() implies #[trigger] t[a].0 != #[trigger] t[b].0 by {
            assert(t[a] == s[a]);
            assert(t[b] == s[b]);
        }
        lemma_fold_remove_unique(t, i);
        assert(r.drop_last() =~= t.remove(i));
        assert(r.last() == s.last());
        assert(s.last().0 != k);
        assert(fold_map(r) =~= fold_map(s).remove(k));
    }
}

} // verus!
