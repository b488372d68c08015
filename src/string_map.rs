use vstd::prelude::*;
use vstd::string::*;
use vstd::utf8::*;

use crate::assoc::{absent_from, fold_map, lemma_fold_absent, lemma_fold_lookup, lemma_fold_push};
use crate::bytesrepr::{
    dec_string, dec_u32, dec_u64, enc_string, fits_u32, read_string, read_u32, read_u64, u32_le,
    u64_le, write_string, write_u32, write_u64, Error, FromBytes, ToBytes,
};
use crate::cl_type::CLType;
use crate::cl_value::CLTyped;
use crate::sorted::{
    lemma_enc_string_injective, lemma_fold_insert_fresh, lemma_lex_irreflexive, lemma_lex_total,
    lemma_lex_transitive, lemma_sorted_unique, lemma_sorted_unique_keys, lex_lt, name_lt,
    sorted_entries, sorted_names,
};
use crate::stored_value::{lemma_fold_concat, lex_less};

verus! {

/// The entries of a name list, by the characters of each name.
pub open spec fn str_entries_of(s: Seq<(String, u64)>) -> Seq<(Seq<char>, u64)> {
    s.map_values(|e: (String, u64)| (e.0@, e.1))
}

/// Names bound to unsigned 64-bit numbers; a later binding of a name replaces
/// the earlier.
#[derive(Eq, Debug)]
pub struct StringMap {
    entries: Vec<(String, u64)>,
}

impl View for StringMap {
    type V = Map<Seq<char>, u64>;

    closed spec fn view(&self) -> Map<Seq<char>, u64> {
        fold_map(str_entries_of(self.entries@))
    }
}

/// Whether every name of a map can be encoded.
pub open spec fn str_names_fit(m: Map<Seq<char>, u64>) -> bool {
    forall|n: Seq<char>| #[trigger] m.contains_key(n) ==> fits_u32(encode_utf8(n).len() as int)
}


impl StringMap {
    /// The bindings, one per name, in increasing order of the names' encodings.
    pub fn sorted_bindings(&self) -> (r: Result<Vec<(String, u64)>, Error>)
        ensures
            match r {
                Ok(v) => str_names_fit(self@) && sorted_names(str_entries_of(v@)) && fold_map(str_entries_of(v@))
                    == self@,
                Err(e) => !str_names_fit(self@) && e == Error::OutOfMemoryError,
            },
    {
        let ghost all = str_entries_of(self.entries@);
        let mut out: Vec<(String, u64)> = Vec::new();
        let mut encs: Vec<Vec<u8>> = Vec::new();
        let mut i: usize = 0;
        assert(str_entries_of(out@) =~= Seq::<(Seq<char>, u64)>::empty());
        while i < self.entries.len()
            invariant
                0 <= i <= self.entries@.len(),
                all == str_entries_of(self.entries@),
                encs@.len() == out@.len(),
                forall|j: int| 0 <= j < out@.len() ==> (#[trigger] encs@[j])@ == enc_string(out@[j].0@),
                forall|j: int| 0 <= j < out@.len() ==> fits_u32(encode_utf8((#[trigger] out@[j]).0@).len() as int),
                sorted_names(str_entries_of(out@)),
                fold_map(str_entries_of(out@)) == fold_map(all.subrange(0, i as int)),
            decreases self.entries@.len() - i,
        {
            let name = &self.entries[i].0;
            let key = self.entries[i].1;
            let mut e: Vec<u8> = Vec::new();
            let written = write_string(&mut e, name);
            if written.is_err() {
                proof {
                    assert(all[i as int].0 == name@);
                    crate::assoc::lemma_fold_absent(all, name@);
                    assert(self@.contains_key(name@));
                }
                return Err(Error::OutOfMemoryError);
            }
            assert(e@ =~= enc_string(name@));
            let ghost s = str_entries_of(out@);
            proof {
                lemma_sorted_unique_keys(s);
                assert(all.subrange(0, i + 1) =~= all.subrange(0, i as int).push((name@, key)));
                crate::assoc::lemma_fold_push(all.subrange(0, i as int), name@, key);
            }
            let mut j: usize = 0;
            while j < out.len() && lex_less(&encs[j], &e)
                invariant
                    0 <= j <= out@.len(),
                    encs@.len() == out@.len(),
                    forall|a: int| 0 <= a < j ==> lex_lt((#[trigger] encs@[a])@, e@),
                decreases out@.len() - j,
            {
                j = j + 1;
            }
            if j < out.len() && !lex_less(&e, &encs[j]) {
                proof {
                    if encs@[j as int]@ != e@ {
                        lemma_lex_total(encs@[j as int]@, e@);
                    }
                    lemma_enc_string_injective(out@[j as int].0@, name@);
                    assert forall|k: int| j + 1 <= k < s.len() implies #[trigger] s[k].0 != s[j as int].0 by {}
                    crate::assoc::lemma_fold_update(s, j as int, key);
                }
                let ghost old_out_set = out@;
                out.set(j, (name.clone(), key));
                proof {
                    assert(str_entries_of(out@) =~= s.update(j as int, (name@, key)));
                    assert forall|a: int| 0 <= a < out@.len() implies fits_u32(encode_utf8((#[trigger] out@[a]).0@).len() as int) by {
                        if a != j {
                            assert(out@[a] == old_out_set[a]);
                        }
                    }
                }
            } else {
                proof {
                    assert forall|k: int| 0 <= k < s.len() implies #[trigger] s[k].0 != name@ by {
                        if k < j {
                            assert(lex_lt(encs@[k]@, e@));
                            lemma_lex_irreflexive(e@);
                        } else {
                            if j < out@.len() {
                                if encs@[j as int]@ != e@ {
                                    lemma_lex_total(encs@[j as int]@, e@);
                                } else {
                                    lemma_lex_irreflexive(e@);
                                }
                                if k > j {
                                    assert(name_lt(s[j as int].0, s[k].0));
                                    lemma_lex_transitive(e@, encs@[j as int]@, encs@[k]@);
                                }
                                lemma_lex_irreflexive(e@);
                            }
                        }
                    }
                    lemma_fold_insert_fresh(s, j as int, (name@, key));
                    let u = s.insert(j as int, (name@, key));
                    assert forall|a: int, b: int| 0 <= a < b < u.len() implies name_lt(#[trigger] u[a].0, #[trigger] u[b].0) by {
                        if a < j && b == j {
                            assert(lex_lt(encs@[a]@, e@));
                        } else if a < j && b > j {
                            assert(lex_lt(encs@[a]@, e@));
                            if encs@[j as int]@ != e@ {
                                lemma_lex_total(encs@[j as int]@, e@);
                            }
                            if b - 1 > j {
                                assert(name_lt(s[j as int].0, s[b - 1].0));
                                lemma_lex_transitive(e@, encs@[j as int]@, encs@[b - 1]@);
                            }
                            lemma_lex_transitive(encs@[a]@, e@, encs@[b - 1]@);
                        } else if a == j {
                            if encs@[j as int]@ != e@ {
                                lemma_lex_total(encs@[j as int]@, e@);
                            }
                            if b - 1 > j {
                                assert(name_lt(s[j as int].0, s[b - 1].0));
                                lemma_lex_transitive(e@, encs@[j as int]@, encs@[b - 1]@);
                            }
                        } else if a < j {
                            assert(name_lt(s[a].0, s[b].0));
                        } else {
                            assert(name_lt(s[a - 1].0, s[b - 1].0));
                        }
                    }
                }
                let ghost old_encs = encs@;
                let ghost old_out = out@;
                out.insert(j, (name.clone(), key));
                encs.insert(j, e);
                proof {
                    assert(str_entries_of(out@) =~= s.insert(j as int, (name@, key)));
                    assert forall|a: int| 0 <= a < out@.len() implies (#[trigger] encs@[a])@ == enc_string(out@[a].0@) by {
                        if a > j {
                            assert(encs@[a] == old_encs[a - 1]);
                        }
                    }
                    assert forall|a: int| 0 <= a < out@.len() implies fits_u32(encode_utf8((#[trigger] out@[a]).0@).len() as int) by {
                        if a > j {
                            assert(out@[a] == old_out[a - 1]);
                        } else if a < j {
                            assert(out@[a] == old_out[a]);
                        }
                    }
                }
            }
            i = i + 1;
        }
        assert(all.subrange(0, all.len() as int) =~= all);
        proof {
            assert forall|n: Seq<char>| #[trigger] self@.contains_key(n) implies fits_u32(encode_utf8(n).len() as int) by {
                crate::assoc::lemma_fold_absent(str_entries_of(out@), n);
                let j = choose|j: int| 0 <= j < str_entries_of(out@).len() && str_entries_of(out@)[j].0 == n;
                assert(fits_u32(encode_utf8(out@[j].0@).len() as int));
            }
        }
        Ok(out)
    }

    pub fn new() -> (r: StringMap)
        ensures
            r@ == Map::<Seq<char>, u64>::empty(),
    {
        let r = StringMap { entries: Vec::new() };
        assert(str_entries_of(r.entries@) =~= Seq::empty());
        r
    }

    /// Binds `name` to `key`, a number, replacing an earlier binding of `name`.
    pub fn insert(&mut self, name: String, key: u64)
        ensures
            final(self)@ == old(self)@.insert(name@, key),
    {
        let ghost n = name@;
        self.entries.push((name, key));
        assert(str_entries_of(self.entries@) =~= str_entries_of(old(self).entries@).push((n, key)));
        proof {
            lemma_fold_push(str_entries_of(old(self).entries@), n, key);
        }
    }

    /// The number bound to `name`, if any.
    pub fn get(&self, name: &String) -> (r: Option<u64>)
        ensures
            r == (if self@.contains_key(name@) {
                Some(self@[name@])
            } else {
                None
            }),
    {
        let ghost s = str_entries_of(self.entries@);
        let mut i: usize = self.entries.len();
        while i > 0
            invariant
                i <= self.entries@.len(),
                s == str_entries_of(self.entries@),
                absent_from(s, name@, i as int),
            decreases i,
        {
            i = i - 1;
            if self.entries[i].0 == *name {
                proof {
                    lemma_fold_lookup(s, i as int);
                }
                return Some(self.entries[i].1);
            }
        }
        proof {
            lemma_fold_absent(s, name@);
        }
        None
    }

    /// Adds every binding of `other`, which wins where both bind a name.
    pub fn merge(&mut self, other: &StringMap)
        ensures
            final(self)@ == old(self)@.union_prefer_right(other@),
    {
        let mut i: usize = 0;
        while i < other.entries.len()
            invariant
                0 <= i <= other.entries@.len(),
                str_entries_of(self.entries@) == str_entries_of(old(self).entries@) + str_entries_of(
                    other.entries@.subrange(0, i as int),
                ),
            decreases other.entries@.len() - i,
        {
            let e = &other.entries[i];
            let ghost before = self.entries@;
            let name = e.0.clone();
            self.entries.push((name, e.1));
            assert(str_entries_of(self.entries@) =~= str_entries_of(before).push((e.0@, e.1)));
            assert(str_entries_of(other.entries@.subrange(0, i + 1)) =~= str_entries_of(
                other.entries@.subrange(0, i as int),
            ).push((e.0@, e.1)));
            assert(str_entries_of(self.entries@) =~= str_entries_of(old(self).entries@) + str_entries_of(
                other.entries@.subrange(0, i + 1),
            ));
            i = i + 1;
        }
        assert(other.entries@.subrange(0, other.entries@.len() as int) =~= other.entries@);
        proof {
            lemma_fold_concat(str_entries_of(old(self).entries@), str_entries_of(other.entries@));
        }
    }

    /// Whether every name that `self` binds, `other` binds to the same number.
    fn bindings_within(&self, other: &StringMap) -> (r: bool)
        ensures
            r == (forall|n: Seq<char>| #[trigger]
                self@.contains_key(n) ==> other@.contains_key(n) && other@[n] == self@[n]),
    {
        let ghost s = str_entries_of(self.entries@);
        let mut i: usize = 0;
        while i < self.entries.len()
            invariant
                0 <= i <= self.entries@.len(),
                s == str_entries_of(self.entries@),
                forall|j: int|
                    0 <= j < i ==> self@.contains_key(#[trigger] s[j].0) && other@.contains_key(
                        s[j].0,
                    ) && other@[s[j].0] == self@[s[j].0],
            decreases self.entries@.len() - i,
        {
            let name = &self.entries[i].0;
            let mine = self.get(name);
            let theirs = other.get(name);
            proof {
                lemma_fold_absent(s, name@);
                assert(s[i as int].0 == name@);
            }
            match (mine, theirs) {
                (Some(a), Some(b)) => {
                    if a != b {
                        return false;
                    }
                },
                _ => {
                    return false;
                },
            }
            i = i + 1;
        }
        assert forall|n: Seq<char>| #[trigger]
            self@.contains_key(n) implies other@.contains_key(n) && other@[n] == self@[n] by {
            lemma_fold_absent(s, n);
            let j = choose|j: int| 0 <= j < s.len() && s[j].0 == n;
        }
        true
    }

    /// A copy of these bindings.
    pub fn copy(&self) -> (r: StringMap)
        ensures
            r@ == self@,
    {
        let mut r = StringMap::new();
        r.merge(self);
        assert(Map::<Seq<char>, u64>::empty().union_prefer_right(self@) =~= self@);
        r
    }
}

impl PartialEq for StringMap {
    fn eq(&self, other: &StringMap) -> (r: bool) {
        let r = self.bindings_within(other) && other.bindings_within(self);
        assert(r ==> self@ =~= other@);
        r
    }
}

impl vstd::std_specs::cmp::PartialEqSpecImpl for StringMap {
    open spec fn obeys_eq_spec() -> bool {
        true
    }

    open spec fn eq_spec(&self, other: &StringMap) -> bool {
        self@ == other@
    }
}

impl Clone for StringMap {
    fn clone(&self) -> (r: StringMap)
        ensures
            r@ == self@,
    {
        self.copy()
    }
}


/// A name and a number: the name's encoding, then the number's.
pub open spec fn dec_string_u64(b: Seq<u8>) -> Option<((Seq<char>, u64), int)> {
    match dec_string(b) {
        Some((s, n)) => if 0 <= n <= b.len() {
            match dec_u64(b.subrange(n, b.len() as int)) {
                Some((v, m)) => Some(((s, v), n + m)),
                None => None,
            }
        } else {
            None
        },
        None => None,
    }
}

impl ToBytes for (String, u64) {
    open spec fn enc(v: (Seq<char>, u64)) -> Seq<u8> {
        enc_string(v.0) + u64_le(v.1)
    }

    open spec fn fits(v: (Seq<char>, u64)) -> bool {
        fits_u32(encode_utf8(v.0).len() as int)
    }

    fn to_bytes(&self) -> (r: Result<Vec<u8>, Error>) {
        let mut out: Vec<u8> = Vec::new();
        write_string(&mut out, &self.0)?;
        write_u64(&mut out, self.1);
        assert(out@ =~= enc_string(self.0@) + u64_le(self.1));
        Ok(out)
    }
}

impl FromBytes for (String, u64) {
    open spec fn dec(b: Seq<u8>) -> Option<((Seq<char>, u64), int)> {
        dec_string_u64(b)
    }

    fn from_bytes(bytes: &[u8], pos: usize) -> (r: Result<((String, u64), usize), Error>) {
        let ghost b = bytes@.subrange(pos as int, bytes@.len() as int);
        let (s, p) = read_string(bytes, pos)?;
        assert(b.subrange(p - pos, b.len() as int) =~= bytes@.subrange(p as int, bytes@.len() as int));
        let (v, end) = read_u64(bytes, p)?;
        Ok(((s, v), end))
    }

    proof fn lemma_round_trip(v: (Seq<char>, u64), rest: Seq<u8>) {
        let b = enc_string(v.0) + u64_le(v.1) + rest;
        assert(b =~= enc_string(v.0) + (u64_le(v.1) + rest));
        crate::bytesrepr::lemma_string_dec(v.0, u64_le(v.1) + rest);
        let n = enc_string(v.0).len() as int;
        assert(b.subrange(n, b.len() as int) =~= u64_le(v.1) + rest);
        <u64 as FromBytes>::lemma_round_trip(v.1, rest);
    }

    proof fn lemma_prefix(b: Seq<u8>, v: (Seq<char>, u64), n: int) {
        let (s, m) = dec_string(b)->0;
        <String as FromBytes>::lemma_prefix(b, s, m);
        let r = b.subrange(m, b.len() as int);
        let (k, l) = dec_u64(r)->0;
        <u64 as FromBytes>::lemma_prefix(r, k, l);
        assert(b.subrange(0, n) =~= b.subrange(0, m) + r.subrange(0, l));
    }
}

/// One binding: the name's encoding, then the number's.
pub open spec fn enc_entry(e: (Seq<char>, u64)) -> Seq<u8> {
    enc_string(e.0) + u64_le(e.1)
}

/// Bindings, one after another.
pub open spec fn enc_entries(s: Seq<(Seq<char>, u64)>) -> Seq<u8>
    decreases s.len(),
{
    if s.len() == 0 {
        Seq::empty()
    } else {
        enc_entries(s.drop_last()) + enc_entry(s.last())
    }
}

/// Reads `n` bindings, one after another.
pub open spec fn dec_entries(b: Seq<u8>, n: nat) -> Option<(Seq<(Seq<char>, u64)>, int)>
    decreases n,
{
    if n == 0 {
        Some((Seq::empty(), 0))
    } else {
        match dec_string_u64(b) {
            Some((e, m)) => if 0 <= m <= b.len() {
                match dec_entries(b.subrange(m, b.len() as int), (n - 1) as nat) {
                    Some((es, k)) => Some((seq![e] + es, m + k)),
                    None => None,
                }
            } else {
                None
            },
            None => None,
        }
    }
}

/// A string map: its count as a `u32`, then the bindings in increasing order
/// of the names' encodings.
pub open spec fn enc_string_map(m: Map<Seq<char>, u64>) -> Seq<u8> {
    u32_le(sorted_entries(m).len() as u32) + enc_entries(sorted_entries(m))
}

/// Reads a string map; bindings out of order, or twice bound, are refused.
pub open spec fn dec_string_map(b: Seq<u8>) -> Option<(Map<Seq<char>, u64>, int)> {
    match dec_u32(b) {
        Some((n, _)) => match dec_entries(b.subrange(4, b.len() as int), n as nat) {
            Some((s, k)) => if sorted_names(s) {
                Some((fold_map(s), 4 + k))
            } else {
                None
            },
            None => None,
        },
        None => None,
    }
}

/// Whether a string map can be encoded.
pub open spec fn string_map_fit(m: Map<Seq<char>, u64>) -> bool {
    &&& exists|s: Seq<(Seq<char>, u64)>| sorted_names(s) && fold_map(s) == m
    &&& str_names_fit(m)
    &&& sorted_entries(m).len() <= u32::MAX
}

proof fn lemma_enc_entries_front(s: Seq<(Seq<char>, u64)>)
    requires
        s.len() > 0,
    ensures
        enc_entries(s) == enc_entry(s[0]) + enc_entries(s.drop_first()),
    decreases s.len(),
{
    if s.len() == 1 {
        assert(s.drop_last() =~= Seq::<(Seq<char>, u64)>::empty());
        assert(s.drop_first() =~= Seq::<(Seq<char>, u64)>::empty());
        assert(enc_entry(s[0]) + Seq::<u8>::empty() =~= enc_entry(s[0]));
    } else {
        lemma_enc_entries_front(s.drop_last());
        assert(s.drop_last().drop_first() =~= s.drop_first().drop_last());
        assert(s.drop_first().last() == s.last());
        assert(enc_entries(s) =~= enc_entry(s[0]) + enc_entries(s.drop_first()));
    }
}

proof fn lemma_entries_round_trip(s: Seq<(Seq<char>, u64)>, rest: Seq<u8>)
    requires
        forall|i: int| 0 <= i < s.len() ==> fits_u32(encode_utf8(#[trigger] s[i].0).len() as int),
    ensures
        dec_entries(enc_entries(s) + rest, s.len()) == Some((s, enc_entries(s).len() as int)),
    decreases s.len(),
{
    if s.len() > 0 {
        let h = s[0];
        let t = s.drop_first();
        lemma_enc_entries_front(s);
        assert(enc_entries(s) + rest =~= enc_entry(h) + (enc_entries(t) + rest));
        <(String, u64) as FromBytes>::lemma_round_trip(h, enc_entries(t) + rest);
        let b = enc_entries(s) + rest;
        let m = enc_entry(h).len() as int;
        assert(b.subrange(m, b.len() as int) =~= enc_entries(t) + rest);
        assert forall|i: int| 0 <= i < t.len() implies fits_u32(encode_utf8(#[trigger] t[i].0).len() as int) by {
            assert(t[i] == s[i + 1]);
        }
        lemma_entries_round_trip(t, rest);
        assert(seq![h] + t =~= s);
    }
}

proof fn lemma_entries_prefix(b: Seq<u8>, n: nat, s: Seq<(Seq<char>, u64)>, k: int)
    requires
        dec_entries(b, n) == Some((s, k)),
    ensures
        0 <= k <= b.len(),
        s.len() == n,
        b.subrange(0, k) == enc_entries(s),
        forall|i: int| 0 <= i < s.len() ==> fits_u32(encode_utf8(#[trigger] s[i].0).len() as int),
    decreases n,
{
    if n == 0 {
        assert(b.subrange(0, 0) =~= Seq::<u8>::empty());
    } else {
        let (e, m) = dec_string_u64(b)->0;
        <(String, u64) as FromBytes>::lemma_prefix(b, e, m);
        let r = b.subrange(m, b.len() as int);
        let (es, j) = dec_entries(r, (n - 1) as nat)->0;
        lemma_entries_prefix(r, (n - 1) as nat, es, j);
        assert(s == seq![e] + es);
        assert(s.drop_first() =~= es);
        lemma_enc_entries_front(s);
        assert(b.subrange(0, k) =~= b.subrange(0, m) + r.subrange(0, j));
        assert forall|i: int| 0 <= i < s.len() implies fits_u32(encode_utf8(#[trigger] s[i].0).len() as int) by {
            if i > 0 {
                assert(s[i] == es[i - 1]);
            }
        }
    }
}

proof fn lemma_string_map_round_trip(m: Map<Seq<char>, u64>, rest: Seq<u8>)
    requires
        string_map_fit(m),
    ensures
        dec_string_map(enc_string_map(m) + rest) == Some((m, enc_string_map(m).len() as int)),
{
    let s = sorted_entries(m);
    assert(sorted_names(s) && fold_map(s) == m);
    assert forall|i: int| 0 <= i < s.len() implies fits_u32(encode_utf8(#[trigger] s[i].0).len() as int) by {
        crate::sorted::lemma_sorted_unique_keys(s);
        crate::sorted::lemma_unique_lookup(s, i);
    }
    let b = enc_string_map(m) + rest;
    crate::bytesrepr::lemma_u32_dec(s.len() as u32, enc_entries(s) + rest);
    assert(b =~= u32_le(s.len() as u32) + (enc_entries(s) + rest));
    assert(b.subrange(4, b.len() as int) =~= enc_entries(s) + rest);
    lemma_entries_round_trip(s, rest);
}

proof fn lemma_string_map_prefix(b: Seq<u8>, m: Map<Seq<char>, u64>, n: int)
    requires
        dec_string_map(b) == Some((m, n)),
    ensures
        0 <= n <= b.len(),
        b.subrange(0, n) == enc_string_map(m),
        string_map_fit(m),
{
    let (c, _) = dec_u32(b)->0;
    let body = b.subrange(4, b.len() as int);
    let (s, k) = dec_entries(body, c as nat)->0;
    lemma_entries_prefix(body, c as nat, s, k);
    assert(sorted_names(s) && fold_map(s) == m);
    let t = sorted_entries(m);
    lemma_sorted_unique(s, t);
    crate::bytesrepr::lemma_u32_le_of_from_le(b);
    assert(b.subrange(0, n) =~= b.subrange(0, 4) + body.subrange(0, k));
    assert forall|x: Seq<char>| #[trigger] m.contains_key(x) implies fits_u32(encode_utf8(x).len() as int) by {
        crate::assoc::lemma_fold_absent(s, x);
        let j = choose|j: int| 0 <= j < s.len() && s[j].0 == x;
    }
}

impl ToBytes for StringMap {
    open spec fn enc(v: Map<Seq<char>, u64>) -> Seq<u8> {
        enc_string_map(v)
    }

    open spec fn fits(v: Map<Seq<char>, u64>) -> bool {
        string_map_fit(v)
    }

    #[verifier::rlimit(100)]
    #[verifier::spinoff_prover]
    fn to_bytes(&self) -> (r: Result<Vec<u8>, Error>) {
        let sorted = self.sorted_bindings()?;
        let ghost s = str_entries_of(sorted@);
        proof {
            lemma_sorted_unique(s, sorted_entries(self@));
            crate::sorted::lemma_sorted_unique_keys(s);
        }
        if sorted.len() > u32::MAX as usize {
            return Err(Error::OutOfMemoryError);
        }
        let mut out: Vec<u8> = Vec::new();
        write_u32(&mut out, sorted.len() as u32);
        let mut i: usize = 0;
        while i < sorted.len()
            invariant
                0 <= i <= sorted@.len(),
                sorted@.len() <= u32::MAX,
                s == str_entries_of(sorted@),
                str_names_fit(self@),
                fold_map(s) == self@,
                crate::assoc::unique_keys(s),
                out@ == u32_le(sorted@.len() as u32) + enc_entries(s.subrange(0, i as int)),
            decreases sorted@.len() - i,
        {
            proof {
                crate::sorted::lemma_unique_lookup(s, i as int);
                assert(s[i as int].0 == sorted@[i as int].0@);
                assert(self@.contains_key(s[i as int].0));
            }
            let ghost before = out@;
            let w = write_string(&mut out, &sorted[i].0);
            write_u64(&mut out, sorted[i].1);
            proof {
                assert(s.subrange(0, i + 1).drop_last() =~= s.subrange(0, i as int));
                assert(out@ =~= u32_le(sorted@.len() as u32) + enc_entries(s.subrange(0, i + 1)));
            }
            i = i + 1;
        }
        proof {
            crate::sorted::lemma_sorted_unique_keys(s);
            assert(s.subrange(0, s.len() as int) =~= s);
        }
        Ok(out)
    }
}

impl FromBytes for StringMap {
    open spec fn dec(b: Seq<u8>) -> Option<(Map<Seq<char>, u64>, int)> {
        dec_string_map(b)
    }

    fn from_bytes(bytes: &[u8], pos: usize) -> (r: Result<(StringMap, usize), Error>) {
        let ghost b = bytes@.subrange(pos as int, bytes@.len() as int);
        let (n, start) = read_u32(bytes, pos)?;
        let ghost body = b.subrange(4, b.len() as int);
        assert(body =~= bytes@.subrange(start as int, bytes@.len() as int));
        let mut result = StringMap::new();
        let ghost mut acc: Seq<(Seq<char>, u64)> = Seq::empty();
        let mut prev: Vec<u8> = Vec::new();
        let mut p: usize = start;
        let mut i: u32 = 0;
        while i < n
            invariant
                start <= p <= bytes@.len(),
                0 <= i <= n,
                start == pos + 4,
                b == bytes@.subrange(pos as int, bytes@.len() as int),
                dec_u32(b) == Some((n, 4int)),
                body == b.subrange(4, b.len() as int),
                body == bytes@.subrange(start as int, bytes@.len() as int),
                acc.len() == i,
                sorted_names(acc),
                i > 0 ==> prev@ == enc_string(acc.last().0),
                result@ == fold_map(acc),
                dec_entries(body, n as nat) == (match dec_entries(
                    bytes@.subrange(p as int, bytes@.len() as int),
                    (n - i) as nat,
                ) {
                    Some((vs, k)) => Some((acc + vs, (p - start) + k)),
                    None => None::<(Seq<(Seq<char>, u64)>, int)>,
                }),
            decreases n - i,
        {
            let ghost rest = bytes@.subrange(p as int, bytes@.len() as int);
            let (entry, q) = match <(String, u64) as FromBytes>::from_bytes(bytes, p) {
                Ok(x) => x,
                Err(e) => {
                    assert(dec_entries(rest, (n - i) as nat) is None);
                    return Err(e);
                },
            };
            let ghost ev = entry@;
            proof {
                <(String, u64) as FromBytes>::lemma_prefix(rest, ev, q - p);
                assert(rest.subrange(q - p, rest.len() as int) =~= bytes@.subrange(
                    q as int,
                    bytes@.len() as int,
                ));
            }
            let mut cur: Vec<u8> = Vec::new();
            let w = write_string(&mut cur, &entry.0);
            assert(cur@ =~= enc_string(ev.0));
            if i > 0 && !lex_less(&prev, &cur) {
                proof {
                    match dec_entries(bytes@.subrange(q as int, bytes@.len() as int), (n - i - 1) as nat) {
                        Some((vs, k)) => {
                            let whole = acc + (seq![ev] + vs);
                            assert(whole[i - 1] == acc.last());
                            assert(whole[i as int] == ev);
                            assert(!sorted_names(whole));
                        },
                        None => {},
                    }
                }
                return Err(Error::FormattingError);
            }
            let ghost old_acc = acc;
            proof {
                acc = acc.push(ev);
                assert forall|a: int, c: int| 0 <= a < c < acc.len() implies name_lt(#[trigger] acc[a].0, #[trigger] acc[c].0) by {
                    if c == acc.len() - 1 && a < c {
                        if a < c - 1 {
                            assert(name_lt(old_acc[a].0, old_acc.last().0));
                            crate::sorted::lemma_lex_transitive(enc_string(old_acc[a].0), enc_string(old_acc.last().0), enc_string(ev.0));
                        }
                    } else {
                        assert(acc[a] == old_acc[a]);
                        assert(acc[c] == old_acc[c]);
                    }
                }
                lemma_fold_push(old_acc, ev.0, ev.1);
                match dec_entries(bytes@.subrange(q as int, bytes@.len() as int), (n - i - 1) as nat) {
                    Some((vs, k)) => {
                        assert(old_acc + (seq![ev] + vs) =~= acc + vs);
                    },
                    None => {},
                }
            }
            result.insert(entry.0, entry.1);
            prev = cur;
            p = q;
            i = i + 1;
        }
        assert(bytes@.subrange(p as int, bytes@.len() as int).subrange(0, 0) =~= Seq::<u8>::empty());
        assert(acc + Seq::<(Seq<char>, u64)>::empty() =~= acc);
        Ok((result, p))
    }

    proof fn lemma_round_trip(v: Map<Seq<char>, u64>, rest: Seq<u8>) {
        lemma_string_map_round_trip(v, rest);
    }

    proof fn lemma_prefix(b: Seq<u8>, v: Map<Seq<char>, u64>, n: int) {
        lemma_string_map_prefix(b, v, n);
    }
}


impl CLTyped for StringMap {
    open spec fn spec_cl_type() -> CLType {
        CLType::MapOf { key: Box::new(CLType::String), value: Box::new(CLType::U64) }
    }

    fn cl_type() -> (r: CLType) {
        CLType::MapOf { key: Box::new(CLType::String), value: Box::new(CLType::U64) }
    }
}

} // verus!
