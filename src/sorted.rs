use vstd::prelude::*;
use vstd::utf8::*;

use crate::assoc::{absent_from, fold_map, lemma_fold_absent, lemma_fold_lookup, unique_keys};
use crate::bytesrepr::enc_string;

verus! {

/// Lexicographic order on bytes: a proper prefix comes first.
pub open spec fn lex_lt(a: Seq<u8>, b: Seq<u8>) -> bool
    decreases a.len(),
{
    if a.len() == 0 {
        b.len() > 0
    } else if b.len() == 0 {
        false
    } else if a[0] != b[0] {
        a[0] < b[0]
    } else {
        lex_lt(a.drop_first(), b.drop_first())
    }
}

pub proof fn lemma_lex_irreflexive(a: Seq<u8>)
    ensures
        !lex_lt(a, a),
    decreases a.len(),
{
    if a.len() > 0 {
        lemma_lex_irreflexive(a.drop_first());
    }
}

pub proof fn lemma_lex_transitive(a: Seq<u8>, b: Seq<u8>, c: Seq<u8>)
    requires
        lex_lt(a, b),
        lex_lt(b, c),
    ensures
        lex_lt(a, c),
    decreases a.len(),
{
    if a.len() > 0 && b.len() > 0 && c.len() > 0 && a[0] == b[0] && b[0] == c[0] {
        lemma_lex_transitive(a.drop_first(), b.drop_first(), c.drop_first());
    }
}

pub proof fn lemma_lex_total(a: Seq<u8>, b: Seq<u8>)
    requires
        a != b,
    ensures
        lex_lt(a, b) || lex_lt(b, a),
    decreases a.len(),
{
    if a.len() > 0 && b.len() > 0 && a[0] == b[0] {
        if a.drop_first() == b.drop_first() {
            assert(a =~= seq![a[0]] + a.drop_first());
            assert(b =~= seq![b[0]] + b.drop_first());
        }
        lemma_lex_total(a.drop_first(), b.drop_first());
    } else if a.len() == 0 && b.len() == 0 {
        assert(a =~= b);
    }
}

/// Names are ordered by their encodings.
pub open spec fn name_lt(x: Seq<char>, y: Seq<char>) -> bool {
    lex_lt(enc_string(x), enc_string(y))
}

/// Two names with one encoding are one name.
pub proof fn lemma_enc_string_injective(x: Seq<char>, y: Seq<char>)
    requires
        enc_string(x) == enc_string(y),
    ensures
        x == y,
{
    let a = enc_string(x);
    assert(a.subrange(4, a.len() as int) =~= encode_utf8(x));
    assert(enc_string(y).subrange(4, a.len() as int) =~= encode_utf8(y));
    encode_utf8_decode_utf8(x);
    encode_utf8_decode_utf8(y);
}

pub proof fn lemma_name_order(x: Seq<char>, y: Seq<char>, z: Seq<char>)
    ensures
        !name_lt(x, x),
        name_lt(x, y) && name_lt(y, z) ==> name_lt(x, z),
        x != y ==> name_lt(x, y) || name_lt(y, x),
{
    lemma_lex_irreflexive(enc_string(x));
    if name_lt(x, y) && name_lt(y, z) {
        lemma_lex_transitive(enc_string(x), enc_string(y), enc_string(z));
    }
    if x != y {
        if enc_string(x) == enc_string(y) {
            lemma_enc_string_injective(x, y);
        }
        lemma_lex_total(enc_string(x), enc_string(y));
    }
}

/// Entries in strictly increasing order of their names.
pub open spec fn sorted_names<V>(s: Seq<(Seq<char>, V)>) -> bool {
    forall|i: int, j: int| 0 <= i < j < s.len() ==> name_lt(#[trigger] s[i].0, #[trigger] s[j].0)
}

/// The entries of a map of names, in increasing order of their names.
pub open spec fn sorted_entries<V>(m: Map<Seq<char>, V>) -> Seq<(Seq<char>, V)> {
    choose|s: Seq<(Seq<char>, V)>| sorted_names(s) && fold_map(s) == m
}

pub proof fn lemma_sorted_unique_keys<V>(s: Seq<(Seq<char>, V)>)
    requires
        sorted_names(s),
    ensures
        unique_keys(s),
{
    assert forall|i: int, j: int| 0 <= i < j < s.len() implies #[trigger] s[i].0 != #[trigger] s[j].0 by {
        lemma_name_order(s[i].0, s[j].0, s[j].0);
    }
}

/// In entries with distinct keys, the map holds each entry.
pub proof fn lemma_unique_lookup<V>(s: Seq<(Seq<char>, V)>, i: int)
    requires
        unique_keys(s),
        0 <= i < s.len(),
    ensures
        fold_map(s).contains_key(s[i].0),
        fold_map(s)[s[i].0] == s[i].1,
{
    assert forall|j: int| i + 1 <= j < s.len() implies #[trigger] s[j].0 != s[i].0 by {}
    lemma_fold_lookup(s, i);
}

/// Inserting an entry with a fresh key anywhere in entries with distinct keys
/// adds that binding to the map.
pub proof fn lemma_fold_insert_fresh<V>(s: Seq<(Seq<char>, V)>, j: int, e: (Seq<char>, V))
    requires
        unique_keys(s),
        absent_from(s, e.0, 0),
        0 <= j <= s.len(),
    ensures
        unique_keys(s.insert(j, e)),
        fold_map(s.insert(j, e)) == fold_map(s).insert(e.0, e.1),
{
    let u = s.insert(j, e);
    assert forall|a: int, b: int| 0 <= a < b < u.len() implies #[trigger] u[a].0 != #[trigger] u[b].0 by {
        let a2 = if a < j { a } else { a - 1 };
        let b2 = if b <= j { b } else { b - 1 };
        if a != j && b != j {
            assert(u[a] == s[a2]);
            assert(u[b] == s[b2]);
        } else if a == j {
            assert(u[b] == s[b2]);
        } else {
            assert(u[a] == s[a2]);
        }
    }
    assert forall|x: Seq<char>| #[trigger] fold_map(u).contains_key(x) == fold_map(s).insert(e.0, e.1).contains_key(x)
        && (fold_map(u).contains_key(x) ==> fold_map(u)[x] == fold_map(s).insert(e.0, e.1)[x]) by {
        lemma_fold_absent(u, x);
        lemma_fold_absent(s, x);
        if x == e.0 {
            assert(u[j] == e);
            lemma_unique_lookup(u, j);
        } else {
            if fold_map(u).contains_key(x) {
                let i = choose|i: int| 0 <= i < u.len() && u[i].0 == x;
                let i2 = if i < j { i } else { i - 1 };
                assert(u[i] == s[i2]);
                lemma_unique_lookup(u, i);
                lemma_unique_lookup(s, i2);
            }
            if fold_map(s).contains_key(x) {
                let i = choose|i: int| 0 <= i < s.len() && s[i].0 == x;
                let i2 = if i < j { i } else { i + 1 };
                assert(u[i2] == s[i]);
            }
        }
    }
    assert(fold_map(u) =~= fold_map(s).insert(e.0, e.1));
}

/// Two sorted entry lists for one map are the same list.
pub proof fn lemma_sorted_unique<V>(s: Seq<(Seq<char>, V)>, t: Seq<(Seq<char>, V)>)
    requires
        sorted_names(s),
        sorted_names(t),
        fold_map(s) == fold_map(t),
    ensures
        s == t,
    decreases s.len(),
{
    lemma_sorted_unique_keys(s);
    lemma_sorted_unique_keys(t);
    if s.len() == 0 {
        lemma_fold_absent(s, t[0].0);
        if t.len() > 0 {
            lemma_unique_lookup(t, 0);
        }
        assert(s =~= t);
    } else if t.len() == 0 {
        lemma_unique_lookup(s, 0);
        lemma_fold_absent(t, s[0].0);
    } else {
        let k = s[0].0;
        lemma_unique_lookup(s, 0);
        lemma_unique_lookup(t, 0);
        lemma_fold_absent(t, k);
        let j = choose|j: int| 0 <= j < t.len() && t[j].0 == k;
        lemma_fold_absent(s, t[0].0);
        let i = choose|i: int| 0 <= i < s.len() && s[i].0 == t[0].0;
        if j > 0 {
            if i > 0 {
                lemma_name_order(k, t[0].0, k);
                lemma_name_order(k, s[i].0, t[j].0);
                assert(name_lt(k, t[0].0));
                assert(name_lt(t[0].0, k));
                lemma_name_order(k, t[0].0, k);
            } else {
                assert(t[0].0 == k);
                lemma_name_order(t[0].0, t[j].0, k);
            }
        }
        assert(t[0].0 == k) by {
            if j > 0 {
                assert(false);
            }
        }
        assert(s[0] == t[0]);
        crate::assoc::lemma_fold_remove_unique(s, 0);
        crate::assoc::lemma_fold_remove_unique(t, 0);
        assert(s.remove(0) =~= s.drop_first());
        assert(t.remove(0) =~= t.drop_first());
        lemma_sorted_unique(s.drop_first(), t.drop_first());
        assert(s =~= seq![s[0]] + s.drop_first());
        assert(t =~= seq![t[0]] + t.drop_first());
    }
}

} // verus!
