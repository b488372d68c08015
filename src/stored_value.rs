use vstd::prelude::*;
use vstd::string::*;
use vstd::utf8::*;

use crate::assoc::{absent_from, fold_map, lemma_fold_absent, lemma_fold_lookup, lemma_fold_push};
use crate::cl_type::{cl_type_name, CLType};
use crate::cl_value::CLValue;
use crate::bytesrepr::{enc_string, fits_u32, write_string, Error};
use crate::key::Key;
use crate::sorted::{
    lemma_fold_insert_fresh, lemma_lex_irreflexive, lemma_lex_total, lemma_lex_transitive,
    lemma_enc_string_injective, lemma_sorted_unique_keys, lex_lt, name_lt, sorted_names,
};

verus! {

/// A type mismatch, described for diagnostics: what was expected, what was found.
#[derive(PartialEq, Eq, Debug)]
pub struct TypeMismatch {
    pub expected: String,
    pub found: String,
}

impl TypeMismatch {
    pub fn new(expected: String, found: String) -> (r: TypeMismatch)
        ensures
            r.expected == expected && r.found == found,
    {
        TypeMismatch { expected, found }
    }
}

/// The entries of a name list, by the characters of each name.
pub open spec fn names_of(s: Seq<(String, Key)>) -> Seq<(Seq<char>, Key)> {
    s.map_values(|e: (String, Key)| (e.0@, e.1))
}

/// Names bound to keys, as an account or a contract holds them.
#[derive(Eq, Debug)]
pub struct NamedKeys {
    entries: Vec<(String, Key)>,
}

impl View for NamedKeys {
    type V = Map<Seq<char>, Key>;

    closed spec fn view(&self) -> Map<Seq<char>, Key> {
        fold_map(names_of(self.entries@))
    }
}

pub proof fn lemma_fold_concat<K, V>(a: Seq<(K, V)>, b: Seq<(K, V)>)
    ensures
        fold_map(a + b) == fold_map(a).union_prefer_right(fold_map(b)),
    decreases b.len(),
{
    if b.len() == 0 {
        assert(a + b =~= a);
        assert(fold_map(a).union_prefer_right(fold_map(b)) =~= fold_map(a));
    } else {
        lemma_fold_concat(a, b.drop_last());
        assert((a + b).drop_last() =~= a + b.drop_last());
        assert(fold_map(a + b) =~= fold_map(a).union_prefer_right(fold_map(b)));
    }
}

/// Whether `a` comes before `b` in lexicographic order.
pub fn lex_less(a: &Vec<u8>, b: &Vec<u8>) -> (r: bool)
    ensures
        r == lex_lt(a@, b@),
{
    let mut i: usize = 0;
    assert(a@.subrange(0, a@.len() as int) =~= a@);
    assert(b@.subrange(0, b@.len() as int) =~= b@);
    while i < a.len() && i < b.len()
        invariant
            0 <= i <= a@.len(),
            i <= b@.len(),
            lex_lt(a@, b@) == lex_lt(a@.subrange(i as int, a@.len() as int), b@.subrange(i as int, b@.len() as int)),
        decreases a@.len() - i,
    {
        let ghost x = a@.subrange(i as int, a@.len() as int);
        let ghost y = b@.subrange(i as int, b@.len() as int);
        assert(x.drop_first() =~= a@.subrange(i + 1, a@.len() as int));
        assert(y.drop_first() =~= b@.subrange(i + 1, b@.len() as int));
        if a[i] != b[i] {
            return a[i] < b[i];
        }
        i = i + 1;
    }
    i < b.len()
}

/// Whether every name of a map can be encoded.
pub open spec fn names_fit(m: Map<Seq<char>, Key>) -> bool {
    forall|n: Seq<char>| #[trigger] m.contains_key(n) ==> fits_u32(encode_utf8(n).len() as int)
}

impl NamedKeys {
    /// The bindings, one per name, in increasing order of the names' encodings.
    pub fn sorted_bindings(&self) -> (r: Result<Vec<(String, Key)>, Error>)
        ensures
            match r {
                Ok(v) => names_fit(self@) && sorted_names(names_of(v@)) && fold_map(names_of(v@))
                    == self@,
                Err(e) => !names_fit(self@) && e == Error::OutOfMemoryError,
            },
    {
        let ghost all = names_of(self.entries@);
        let mut out: Vec<(String, Key)> = Vec::new();
        let mut encs: Vec<Vec<u8>> = Vec::new();
        let mut i: usize = 0;
        assert(names_of(out@) =~= Seq::<(Seq<char>, Key)>::empty());
        while i < self.entries.len()
            invariant
                0 <= i <= self.entries@.len(),
                all == names_of(self.entries@),
                encs@.len() == out@.len(),
                forall|j: int| 0 <= j < out@.len() ==> (#[trigger] encs@[j])@ == enc_string(out@[j].0@),
                forall|j: int| 0 <= j < out@.len() ==> fits_u32(encode_utf8((#[trigger] out@[j]).0@).len() as int),
                sorted_names(names_of(out@)),
                fold_map(names_of(out@)) == fold_map(all.subrange(0, i as int)),
            decreases self.entries@.len() - i,
        {
            let name = &self.entries[i].0;
            let key = self.entries[i].1;
            let mut e: Vec<u8> = Vec::new();
            let written = write_string(&mut e, name);
            if written.is_err() {
                proof {
                    assert(all[i as int].0 == name@);
                    crate::assoc::lemma_fold_absent(all, name@);
                    assert(self@.contains_key(name@));
                }
                return Err(Error::OutOfMemoryError);
            }
            assert(e@ =~= enc_string(name@));
            let ghost s = names_of(out@);
            proof {
                lemma_sorted_unique_keys(s);
                assert(all.subrange(0, i + 1) =~= all.subrange(0, i as int).push((name@, key)));
                crate::assoc::lemma_fold_push(all.subrange(0, i as int), name@, key);
            }
            let mut j: usize = 0;
            while j < out.len() && lex_less(&encs[j], &e)
                invariant
                    0 <= j <= out@.len(),
                    encs@.len() == out@.len(),
                    forall|a: int| 0 <= a < j ==> lex_lt((#[trigger] encs@[a])@, e@),
                decreases out@.len() - j,
            {
                j = j + 1;
            }
            if j < out.len() && !lex_less(&e, &encs[j]) {
                proof {
                    if encs@[j as int]@ != e@ {
                        lemma_lex_total(encs@[j as int]@, e@);
                    }
                    lemma_enc_string_injective(out@[j as int].0@, name@);
                    assert forall|k: int| j + 1 <= k < s.len() implies #[trigger] s[k].0 != s[j as int].0 by {}
                    crate::assoc::lemma_fold_update(s, j as int, key);
                }
                let ghost old_out_set = out@;
                out.set(j, (name.clone(), key));
                proof {
                    assert(names_of(out@) =~= s.update(j as int, (name@, key)));
                    assert forall|a: int| 0 <= a < out@.len() implies fits_u32(encode_utf8((#[trigger] out@[a]).0@).len() as int) by {
                        if a != j {
                            assert(out@[a] == old_out_set[a]);
                        }
                    }
                }
            } else {
                proof {
                    assert forall|k: int| 0 <= k < s.len() implies #[trigger] s[k].0 != name@ by {
                        if k < j {
                            assert(lex_lt(encs@[k]@, e@));
                            lemma_lex_irreflexive(e@);
                        } else {
                            if j < out@.len() {
                                if encs@[j as int]@ != e@ {
                                    lemma_lex_total(encs@[j as int]@, e@);
                                } else {
                                    lemma_lex_irreflexive(e@);
                                }
                                if k > j {
                                    assert(name_lt(s[j as int].0, s[k].0));
                                    lemma_lex_transitive(e@, encs@[j as int]@, encs@[k]@);
                                }
                                lemma_lex_irreflexive(e@);
                            }
                        }
                    }
                    lemma_fold_insert_fresh(s, j as int, (name@, key));
                    let u = s.insert(j as int, (name@, key));
                    assert forall|a: int, b: int| 0 <= a < b < u.len() implies name_lt(#[trigger] u[a].0, #[trigger] u[b].0) by {
                        if a < j && b == j {
                            assert(lex_lt(encs@[a]@, e@));
                        } else if a < j && b > j {
                            assert(lex_lt(encs@[a]@, e@));
                            if encs@[j as int]@ != e@ {
                                lemma_lex_total(encs@[j as int]@, e@);
                            }
                            if b - 1 > j {
                                assert(name_lt(s[j as int].0, s[b - 1].0));
                                lemma_lex_transitive(e@, encs@[j as int]@, encs@[b - 1]@);
                            }
                            lemma_lex_transitive(encs@[a]@, e@, encs@[b - 1]@);
                        } else if a == j {
                            if encs@[j as int]@ != e@ {
                                lemma_lex_total(encs@[j as int]@, e@);
                            }
                            if b - 1 > j {
                                assert(name_lt(s[j as int].0, s[b - 1].0));
                                lemma_lex_transitive(e@, encs@[j as int]@, encs@[b - 1]@);
                            }
                        } else if a < j {
                            assert(name_lt(s[a].0, s[b].0));
                        } else {
                            assert(name_lt(s[a - 1].0, s[b - 1].0));
                        }
                    }
                }
                let ghost old_encs = encs@;
                let ghost old_out = out@;
                out.insert(j, (name.clone(), key));
                encs.insert(j, e);
                proof {
                    assert(names_of(out@) =~= s.insert(j as int, (name@, key)));
                    assert forall|a: int| 0 <= a < out@.len() implies (#[trigger] encs@[a])@ == enc_string(out@[a].0@) by {
                        if a > j {
                            assert(encs@[a] == old_encs[a - 1]);
                        }
                    }
                    assert forall|a: int| 0 <= a < out@.len() implies fits_u32(encode_utf8((#[trigger] out@[a]).0@).len() as int) by {
                        if a > j {
                            assert(out@[a] == old_out[a - 1]);
                        } else if a < j {
                            assert(out@[a] == old_out[a]);
                        }
                    }
                }
            }
            i = i + 1;
        }
        assert(all.subrange(0, all.len() as int) =~= all);
        proof {
            assert forall|n: Seq<char>| #[trigger] self@.contains_key(n) implies fits_u32(encode_utf8(n).len() as int) by {
                crate::assoc::lemma_fold_absent(names_of(out@), n);
                let j = choose|j: int| 0 <= j < names_of(out@).len() && names_of(out@)[j].0 == n;
                assert(fits_u32(encode_utf8(out@[j].0@).len() as int));
            }
        }
        Ok(out)
    }

    pub fn new() -> (r: NamedKeys)
        ensures
            r@ == Map::<Seq<char>, Key>::empty(),
    {
        let r = NamedKeys { entries: Vec::new() };
        assert(names_of(r.entries@) =~= Seq::empty());
        r
    }

    /// Binds `name` to `key`, replacing an earlier binding of `name`.
    pub fn insert(&mut self, name: String, key: Key)
        ensures
            final(self)@ == old(self)@.insert(name@, key),
    {
        let ghost n = name@;
        self.entries.push((name, key));
        assert(names_of(self.entries@) =~= names_of(old(self).entries@).push((n, key)));
        proof {
            lemma_fold_push(names_of(old(self).entries@), n, key);
        }
    }

    /// The key bound to `name`, if any.
    pub fn get(&self, name: &String) -> (r: Option<Key>)
        ensures
            r == (if self@.contains_key(name@) {
                Some(self@[name@])
            } else {
                None
            }),
    {
        let ghost s = names_of(self.entries@);
        let mut i: usize = self.entries.len();
        while i > 0
            invariant
                i <= self.entries@.len(),
                s == names_of(self.entries@),
                absent_from(s, name@, i as int),
            decreases i,
        {
            i = i - 1;
            if self.entries[i].0 == *name {
                proof {
                    lemma_fold_lookup(s, i as int);
                }
                return Some(self.entries[i].1);
            }
        }
        proof {
            lemma_fold_absent(s, name@);
        }
        None
    }

    /// Adds every binding of `other`, which wins where both bind a name.
    pub fn merge(&mut self, other: &NamedKeys)
        ensures
            final(self)@ == old(self)@.union_prefer_right(other@),
    {
        let mut i: usize = 0;
        while i < other.entries.len()
            invariant
                0 <= i <= other.entries@.len(),
                names_of(self.entries@) == names_of(old(self).entries@) + names_of(
                    other.entries@.subrange(0, i as int),
                ),
            decreases other.entries@.len() - i,
        {
            let e = &other.entries[i];
            let ghost before = self.entries@;
            let name = e.0.clone();
            self.entries.push((name, e.1));
            assert(names_of(self.entries@) =~= names_of(before).push((e.0@, e.1)));
            assert(names_of(other.entries@.subrange(0, i + 1)) =~= names_of(
                other.entries@.subrange(0, i as int),
            ).push((e.0@, e.1)));
            assert(names_of(self.entries@) =~= names_of(old(self).entries@) + names_of(
                other.entries@.subrange(0, i + 1),
            ));
            i = i + 1;
        }
        assert(other.entries@.subrange(0, other.entries@.len() as int) =~= other.entries@);
        proof {
            lemma_fold_concat(names_of(old(self).entries@), names_of(other.entries@));
        }
    }

    /// Whether every name that `self` binds, `other` binds to the same key.
    fn bindings_within(&self, other: &NamedKeys) -> (r: bool)
        ensures
            r == (forall|n: Seq<char>| #[trigger]
                self@.contains_key(n) ==> other@.contains_key(n) && other@[n] == self@[n]),
    {
        let ghost s = names_of(self.entries@);
        let mut i: usize = 0;
        while i < self.entries.len()
            invariant
                0 <= i <= self.entries@.len(),
                s == names_of(self.entries@),
                forall|j: int|
                    0 <= j < i ==> self@.contains_key(#[trigger] s[j].0) && other@.contains_key(
                        s[j].0,
                    ) && other@[s[j].0] == self@[s[j].0],
            decreases self.entries@.len() - i,
        {
            let name = &self.entries[i].0;
            let mine = self.get(name);
            let theirs = other.get(name);
            proof {
                lemma_fold_absent(s, name@);
                assert(s[i as int].0 == name@);
            }
            match (mine, theirs) {
                (Some(a), Some(b)) => {
                    if a != b {
                        return false;
                    }
                },
                _ => {
                    return false;
                },
            }
            i = i + 1;
        }
        assert forall|n: Seq<char>| #[trigger]
            self@.contains_key(n) implies other@.contains_key(n) && other@[n] == self@[n] by {
            lemma_fold_absent(s, n);
            let j = choose|j: int| 0 <= j < s.len() && s[j].0 == n;
        }
        true
    }

    /// The keys that names are bound to.
    pub fn bound_keys(&self) -> (r: Vec<Key>)
        ensures
            forall|k: Key| #[trigger] r@.contains(k) ==> exists|n: Seq<char>|
                #[trigger] self@.contains_key(n) && self@[n] == k,
            forall|n: Seq<char>| #[trigger] self@.contains_key(n) ==> r@.contains(self@[n]),
    {
        let mut r: Vec<Key> = Vec::new();
        let mut i: usize = 0;
        while i < self.entries.len()
            invariant
                0 <= i <= self.entries@.len(),
                forall|k: Key| #[trigger] r@.contains(k) ==> exists|n: Seq<char>|
                    #[trigger] self@.contains_key(n) && self@[n] == k,
                forall|j: int| 0 <= j < i ==> r@.contains(self@[(#[trigger] self.entries@[j]).0@]),
            decreases self.entries@.len() - i,
        {
            let name = &self.entries[i].0;
            if let Some(k) = self.get(name) {
                let ghost before = r@;
                r.push(k);
                proof {
                    assert forall|x: Key| #[trigger] r@.contains(x) implies exists|n: Seq<char>|
                        #[trigger] self@.contains_key(n) && self@[n] == x by {
                        if x == k {
                            assert(self@.contains_key(name@) && self@[name@] == x);
                        } else {
                            let j = choose|j: int| 0 <= j < r@.len() && r@[j] == x;
                            assert(before[j] == x);
                            assert(before.contains(x));
                        }
                    }
                    assert forall|j: int| 0 <= j < i + 1 implies r@.contains(self@[(#[trigger] self.entries@[j]).0@]) by {
                        if j < i {
                            let m = choose|m: int| 0 <= m < before.len() && before[m] == self@[self.entries@[j].0@];
                            assert(r@[m] == before[m]);
                        } else {
                            assert(r@[before.len() as int] == k);
                        }
                    }
                }
            } else {
                proof {
                    crate::assoc::lemma_fold_absent(names_of(self.entries@), name@);
                    assert(names_of(self.entries@)[i as int].0 == name@);
                }
            }
            i = i + 1;
        }
        proof {
            assert forall|n: Seq<char>| #[trigger] self@.contains_key(n) implies r@.contains(self@[n]) by {
                crate::assoc::lemma_fold_absent(names_of(self.entries@), n);
                let j = choose|j: int| 0 <= j < names_of(self.entries@).len() && names_of(self.entries@)[j].0 == n;
                assert(self.entries@[j].0@ == n);
            }
        }
        r
    }

    /// A copy of these bindings.
    pub fn copy(&self) -> (r: NamedKeys)
        ensures
            r@ == self@,
    {
        let mut r = NamedKeys::new();
        r.merge(self);
        assert(Map::<Seq<char>, Key>::empty().union_prefer_right(self@) =~= self@);
        r
    }
}

/// An account: the names it has bound to keys.
#[derive(PartialEq, Eq, Debug)]
pub struct Account {
    pub named_keys: NamedKeys,
}

/// A stored contract: its module bytes and the names it has bound to keys.
#[derive(PartialEq, Eq, Debug)]
pub struct Contract {
    pub bytes: Vec<u8>,
    pub named_keys: NamedKeys,
}

/// A value held in global state.
#[derive(PartialEq, Eq, Debug)]
pub enum StoredValue {
    CLValue(CLValue),
    Account(Account),
    Contract(Contract),
    ContractPackage(Vec<u8>),
    ContractWasm(Vec<u8>),
}

/// What a stored value holds, as mathematical values.
pub enum StoredValueView {
    CLValue((CLType, Seq<u8>)),
    Account(Map<Seq<char>, Key>),
    Contract(Seq<u8>, Map<Seq<char>, Key>),
    ContractPackage(Seq<u8>),
    ContractWasm(Seq<u8>),
}

impl View for StoredValue {
    type V = StoredValueView;

    open spec fn view(&self) -> StoredValueView {
        match self {
            StoredValue::CLValue(v) => StoredValueView::CLValue(v@),
            StoredValue::Account(a) => StoredValueView::Account(a.named_keys@),
            StoredValue::Contract(c) => StoredValueView::Contract(c.bytes@, c.named_keys@),
            StoredValue::ContractPackage(b) => StoredValueView::ContractPackage(b@),
            StoredValue::ContractWasm(b) => StoredValueView::ContractWasm(b@),
        }
    }
}

/// The name of a stored value's type, as diagnostics show it; for a `CLValue`, its tag's.
pub open spec fn type_name_of(v: StoredValueView) -> Seq<char> {
    match v {
        StoredValueView::CLValue(c) => cl_type_name(c.0),
        StoredValueView::Account(_) => "Account"@,
        StoredValueView::Contract(_, _) => "Contract"@,
        StoredValueView::ContractPackage(_) => "ContractPackage"@,
        StoredValueView::ContractWasm(_) => "ContractWasm"@,
    }
}

impl StoredValue {
    pub fn kind_name(&self) -> (r: String)
        ensures
            r@ == type_name_of(self@),
    {
        match self {
            StoredValue::CLValue(v) => v.cl_type().name(),
            StoredValue::Account(_) => String::from_str("Account"),
            StoredValue::Contract(_) => String::from_str("Contract"),
            StoredValue::ContractPackage(_) => String::from_str("ContractPackage"),
            StoredValue::ContractWasm(_) => String::from_str("ContractWasm"),
        }
    }

    /// A copy of this value.
    pub fn copy(&self) -> (r: StoredValue)
        ensures
            r@ == self@,
    {
        match self {
            StoredValue::CLValue(v) => StoredValue::CLValue(v.copy()),
            StoredValue::Account(a) => StoredValue::Account(
                Account { named_keys: a.named_keys.copy() },
            ),
            StoredValue::Contract(c) => StoredValue::Contract(
                Contract { bytes: c.bytes.clone(), named_keys: c.named_keys.copy() },
            ),
            StoredValue::ContractPackage(b) => StoredValue::ContractPackage(b.clone()),
            StoredValue::ContractWasm(b) => StoredValue::ContractWasm(b.clone()),
        }
    }
}

impl Clone for StoredValue {
    fn clone(&self) -> (r: StoredValue)
        ensures
            r@ == self@,
    {
        self.copy()
    }
}

impl PartialEq for NamedKeys {
    fn eq(&self, other: &NamedKeys) -> (r: bool) {
        let r = self.bindings_within(other) && other.bindings_within(self);
        assert(r ==> self@ =~= other@);
        r
    }
}

impl vstd::std_specs::cmp::PartialEqSpecImpl for NamedKeys {
    open spec fn obeys_eq_spec() -> bool {
        true
    }

    open spec fn eq_spec(&self, other: &NamedKeys) -> bool {
        self@ == other@
    }
}

impl Clone for NamedKeys {
    fn clone(&self) -> (r: NamedKeys)
        ensures
            r@ == self@,
    {
        self.copy()
    }
}

} // verus!
