use vstd::prelude::*;
use vstd::utf8::*;

use crate::assoc::{fold_map, lemma_fold_push};
use crate::bytesrepr::{
    dec_bytes, dec_u32, enc_bytes, enc_string, fits_u32, read_bytes, read_u32, read_u8, u32_le,
    write_bytes, write_string, write_u32, Error, FromBytes, ToBytes,
};
use crate::cl_value::{dec_cl_value, dec_named_key, enc_cl_value, CLValue};
use crate::key::{enc_key, Key};
use crate::sorted::{lemma_sorted_unique, sorted_entries, sorted_names, name_lt};
use crate::stored_value::{
    lex_less, names_fit, Account, Contract, NamedKeys, StoredValue, StoredValueView,
};

verus! {

/// One binding: the name's encoding, then the key's.
pub open spec fn enc_entry(e: (Seq<char>, Key)) -> Seq<u8> {
    enc_string(e.0) + enc_key(e.1)
}

/// Bindings, one after another.
pub open spec fn enc_entries(s: Seq<(Seq<char>, Key)>) -> Seq<u8>
    decreases s.len(),
{
    if s.len() == 0 {
        Seq::empty()
    } else {
        enc_entries(s.drop_last()) + enc_entry(s.last())
    }
}

/// Reads `n` bindings, one after another.
pub open spec fn dec_entries(b: Seq<u8>, n: nat) -> Option<(Seq<(Seq<char>, Key)>, int)>
    decreases n,
{
    if n == 0 {
        Some((Seq::empty(), 0))
    } else {
        match dec_named_key(b) {
            Some((e, m)) => if 0 <= m <= b.len() {
                match dec_entries(b.subrange(m, b.len() as int), (n - 1) as nat) {
                    Some((es, k)) => Some((seq![e] + es, m + k)),
                    None => None,
                }
            } else {
                None
            },
            None => None,
        }
    }
}

/// Named keys: their count as a `u32`, then the bindings in increasing order
/// of the names' encodings.
pub open spec fn enc_named_keys(m: Map<Seq<char>, Key>) -> Seq<u8> {
    u32_le(sorted_entries(m).len() as u32) + enc_entries(sorted_entries(m))
}

/// Reads named keys; bindings out of order, or twice bound, are refused.
pub open spec fn dec_named_keys(b: Seq<u8>) -> Option<(Map<Seq<char>, Key>, int)> {
    match dec_u32(b) {
        Some((n, _)) => match dec_entries(b.subrange(4, b.len() as int), n as nat) {
            Some((s, k)) => if sorted_names(s) {
                Some((fold_map(s), 4 + k))
            } else {
                None
            },
            None => None,
        },
        None => None,
    }
}

/// Whether named keys can be encoded.
pub open spec fn named_keys_fit(m: Map<Seq<char>, Key>) -> bool {
    &&& exists|s: Seq<(Seq<char>, Key)>| sorted_names(s) && fold_map(s) == m
    &&& names_fit(m)
    &&& sorted_entries(m).len() <= u32::MAX
}

proof fn lemma_enc_entries_front(s: Seq<(Seq<char>, Key)>)
    requires
        s.len() > 0,
    ensures
        enc_entries(s) == enc_entry(s[0]) + enc_entries(s.drop_first()),
    decreases s.len(),
{
    if s.len() == 1 {
        assert(s.drop_last() =~= Seq::<(Seq<char>, Key)>::empty());
        assert(s.drop_first() =~= Seq::<(Seq<char>, Key)>::empty());
        assert(enc_entry(s[0]) + Seq::<u8>::empty() =~= enc_entry(s[0]));
    } else {
        lemma_enc_entries_front(s.drop_last());
        assert(s.drop_last().drop_first() =~= s.drop_first().drop_last());
        assert(s.drop_first().last() == s.last());
        assert(enc_entries(s) =~= enc_entry(s[0]) + enc_entries(s.drop_first()));
    }
}

proof fn lemma_entries_round_trip(s: Seq<(Seq<char>, Key)>, rest: Seq<u8>)
    requires
        forall|i: int| 0 <= i < s.len() ==> fits_u32(encode_utf8(#[trigger] s[i].0).len() as int),
    ensures
        dec_entries(enc_entries(s) + rest, s.len()) == Some((s, enc_entries(s).len() as int)),
    decreases s.len(),
{
    if s.len() > 0 {
        let h = s[0];
        let t = s.drop_first();
        lemma_enc_entries_front(s);
        assert(enc_entries(s) + rest =~= enc_entry(h) + (enc_entries(t) + rest));
        <(String, Key) as FromBytes>::lemma_round_trip(h, enc_entries(t) + rest);
        let b = enc_entries(s) + rest;
        let m = enc_entry(h).len() as int;
        assert(b.subrange(m, b.len() as int) =~= enc_entries(t) + rest);
        assert forall|i: int| 0 <= i < t.len() implies fits_u32(encode_utf8(#[trigger] t[i].0).len() as int) by {
            assert(t[i] == s[i + 1]);
        }
        lemma_entries_round_trip(t, rest);
        assert(seq![h] + t =~= s);
    }
}

proof fn lemma_entries_prefix(b: Seq<u8>, n: nat, s: Seq<(Seq<char>, Key)>, k: int)
    requires
        dec_entries(b, n) == Some((s, k)),
    ensures
        0 <= k <= b.len(),
        s.len() == n,
        b.subrange(0, k) == enc_entries(s),
        forall|i: int| 0 <= i < s.len() ==> fits_u32(encode_utf8(#[trigger] s[i].0).len() as int),
    decreases n,
{
    if n == 0 {
        assert(b.subrange(0, 0) =~= Seq::<u8>::empty());
    } else {
        let (e, m) = dec_named_key(b)->0;
        <(String, Key) as FromBytes>::lemma_prefix(b, e, m);
        let r = b.subrange(m, b.len() as int);
        let (es, j) = dec_entries(r, (n - 1) as nat)->0;
        lemma_entries_prefix(r, (n - 1) as nat, es, j);
        assert(s == seq![e] + es);
        assert(s.drop_first() =~= es);
        lemma_enc_entries_front(s);
        assert(b.subrange(0, k) =~= b.subrange(0, m) + r.subrange(0, j));
        assert forall|i: int| 0 <= i < s.len() implies fits_u32(encode_utf8(#[trigger] s[i].0).len() as int) by {
            if i > 0 {
                assert(s[i] == es[i - 1]);
            }
        }
    }
}

proof fn lemma_named_keys_round_trip(m: Map<Seq<char>, Key>, rest: Seq<u8>)
    requires
        named_keys_fit(m),
    ensures
        dec_named_keys(enc_named_keys(m) + rest) == Some((m, enc_named_keys(m).len() as int)),
{
    let s = sorted_entries(m);
    assert(sorted_names(s) && fold_map(s) == m);
    assert forall|i: int| 0 <= i < s.len() implies fits_u32(encode_utf8(#[trigger] s[i].0).len() as int) by {
        crate::sorted::lemma_sorted_unique_keys(s);
        crate::sorted::lemma_unique_lookup(s, i);
    }
    let b = enc_named_keys(m) + rest;
    crate::bytesrepr::lemma_u32_dec(s.len() as u32, enc_entries(s) + rest);
    assert(b =~= u32_le(s.len() as u32) + (enc_entries(s) + rest));
    assert(b.subrange(4, b.len() as int) =~= enc_entries(s) + rest);
    lemma_entries_round_trip(s, rest);
}

proof fn lemma_named_keys_prefix(b: Seq<u8>, m: Map<Seq<char>, Key>, n: int)
    requires
        dec_named_keys(b) == Some((m, n)),
    ensures
        0 <= n <= b.len(),
        b.subrange(0, n) == enc_named_keys(m),
        named_keys_fit(m),
{
    let (c, _) = dec_u32(b)->0;
    let body = b.subrange(4, b.len() as int);
    let (s, k) = dec_entries(body, c as nat)->0;
    lemma_entries_prefix(body, c as nat, s, k);
    assert(sorted_names(s) && fold_map(s) == m);
    let t = sorted_entries(m);
    lemma_sorted_unique(s, t);
    crate::bytesrepr::lemma_u32_le_of_from_le(b);
    assert(b.subrange(0, n) =~= b.subrange(0, 4) + body.subrange(0, k));
    assert forall|x: Seq<char>| #[trigger] m.contains_key(x) implies fits_u32(encode_utf8(x).len() as int) by {
        crate::assoc::lemma_fold_absent(s, x);
        let j = choose|j: int| 0 <= j < s.len() && s[j].0 == x;
    }
}

impl ToBytes for NamedKeys {
    open spec fn enc(v: Map<Seq<char>, Key>) -> Seq<u8> {
        enc_named_keys(v)
    }

    open spec fn fits(v: Map<Seq<char>, Key>) -> bool {
        named_keys_fit(v)
    }

    #[verifier::rlimit(100)]
    #[verifier::spinoff_prover]
    fn to_bytes(&self) -> (r: Result<Vec<u8>, Error>) {
        let sorted = self.sorted_bindings()?;
        let ghost s = crate::stored_value::names_of(sorted@);
        proof {
            lemma_sorted_unique(s, sorted_entries(self@));
            crate::sorted::lemma_sorted_unique_keys(s);
        }
        if sorted.len() > u32::MAX as usize {
            return Err(Error::OutOfMemoryError);
        }
        let mut out: Vec<u8> = Vec::new();
        write_u32(&mut out, sorted.len() as u32);
        let mut i: usize = 0;
        while i < sorted.len()
            invariant
                0 <= i <= sorted@.len(),
                sorted@.len() <= u32::MAX,
                s == crate::stored_value::names_of(sorted@),
                names_fit(self@),
                fold_map(s) == self@,
                crate::assoc::unique_keys(s),
                out@ == u32_le(sorted@.len() as u32) + enc_entries(s.subrange(0, i as int)),
            decreases sorted@.len() - i,
        {
            proof {
                crate::sorted::lemma_unique_lookup(s, i as int);
                assert(s[i as int].0 == sorted@[i as int].0@);
                assert(self@.contains_key(s[i as int].0));
            }
            let ghost before = out@;
            let w = write_string(&mut out, &sorted[i].0);
            sorted[i].1.append_bytes(&mut out);
            proof {
                assert(s.subrange(0, i + 1).drop_last() =~= s.subrange(0, i as int));
                assert(out@ =~= u32_le(sorted@.len() as u32) + enc_entries(s.subrange(0, i + 1)));
            }
            i = i + 1;
        }
        proof {
            crate::sorted::lemma_sorted_unique_keys(s);
            assert(s.subrange(0, s.len() as int) =~= s);
        }
        Ok(out)
    }
}

impl FromBytes for NamedKeys {
    open spec fn dec(b: Seq<u8>) -> Option<(Map<Seq<char>, Key>, int)> {
        dec_named_keys(b)
    }

    fn from_bytes(bytes: &[u8], pos: usize) -> (r: Result<(NamedKeys, usize), Error>) {
        let ghost b = bytes@.subrange(pos as int, bytes@.len() as int);
        let (n, start) = read_u32(bytes, pos)?;
        let ghost body = b.subrange(4, b.len() as int);
        assert(body =~= bytes@.subrange(start as int, bytes@.len() as int));
        let mut result = NamedKeys::new();
        let ghost mut acc: Seq<(Seq<char>, Key)> = Seq::empty();
        let mut prev: Vec<u8> = Vec::new();
        let mut p: usize = start;
        let mut i: u32 = 0;
        while i < n
            invariant
                start <= p <= bytes@.len(),
                0 <= i <= n,
                start == pos + 4,
                b == bytes@.subrange(pos as int, bytes@.len() as int),
                dec_u32(b) == Some((n, 4int)),
                body == b.subrange(4, b.len() as int),
                body == bytes@.subrange(start as int, bytes@.len() as int),
                acc.len() == i,
                sorted_names(acc),
                i > 0 ==> prev@ == enc_string(acc.last().0),
                result@ == fold_map(acc),
                dec_entries(body, n as nat) == (match dec_entries(
                    bytes@.subrange(p as int, bytes@.len() as int),
                    (n - i) as nat,
                ) {
                    Some((vs, k)) => Some((acc + vs, (p - start) + k)),
                    None => None::<(Seq<(Seq<char>, Key)>, int)>,
                }),
            decreases n - i,
        {
            let ghost rest = bytes@.subrange(p as int, bytes@.len() as int);
            let (entry, q) = match <(String, Key) as FromBytes>::from_bytes(bytes, p) {
                Ok(x) => x,
                Err(e) => {
                    assert(dec_entries(rest, (n - i) as nat) is None);
                    return Err(e);
                },
            };
            let ghost ev = entry@;
            proof {
                <(String, Key) as FromBytes>::lemma_prefix(rest, ev, q - p);
                assert(rest.subrange(q - p, rest.len() as int) =~= bytes@.subrange(
                    q as int,
                    bytes@.len() as int,
                ));
            }
            let mut cur: Vec<u8> = Vec::new();
            let w = write_string(&mut cur, &entry.0);
            assert(cur@ =~= enc_string(ev.0));
            if i > 0 && !lex_less(&prev, &cur) {
                proof {
                    match dec_entries(bytes@.subrange(q as int, bytes@.len() as int), (n - i - 1) as nat) {
                        Some((vs, k)) => {
                            let whole = acc + (seq![ev] + vs);
                            assert(whole[i - 1] == acc.last());
                            assert(whole[i as int] == ev);
                            assert(!sorted_names(whole));
                        },
                        None => {},
                    }
                }
                return Err(Error::FormattingError);
            }
            let ghost old_acc = acc;
            proof {
                acc = acc.push(ev);
                assert forall|a: int, c: int| 0 <= a < c < acc.len() implies name_lt(#[trigger] acc[a].0, #[trigger] acc[c].0) by {
                    if c == acc.len() - 1 && a < c {
                        if a < c - 1 {
                            assert(name_lt(old_acc[a].0, old_acc.last().0));
                            crate::sorted::lemma_lex_transitive(enc_string(old_acc[a].0), enc_string(old_acc.last().0), enc_string(ev.0));
                        }
                    } else {
                        assert(acc[a] == old_acc[a]);
                        assert(acc[c] == old_acc[c]);
                    }
                }
                lemma_fold_push(old_acc, ev.0, ev.1);
                match dec_entries(bytes@.subrange(q as int, bytes@.len() as int), (n - i - 1) as nat) {
                    Some((vs, k)) => {
                        assert(old_acc + (seq![ev] + vs) =~= acc + vs);
                    },
                    None => {},
                }
            }
            result.insert(entry.0, entry.1);
            prev = cur;
            p = q;
            i = i + 1;
        }
        assert(bytes@.subrange(p as int, bytes@.len() as int).subrange(0, 0) =~= Seq::<u8>::empty());
        assert(acc + Seq::<(Seq<char>, Key)>::empty() =~= acc);
        Ok((result, p))
    }

    proof fn lemma_round_trip(v: Map<Seq<char>, Key>, rest: Seq<u8>) {
        lemma_named_keys_round_trip(v, rest);
    }

    proof fn lemma_prefix(b: Seq<u8>, v: Map<Seq<char>, Key>, n: int) {
        lemma_named_keys_prefix(b, v, n);
    }
}

impl crate::cl_value::CLTyped for NamedKeys {
    open spec fn spec_cl_type() -> crate::cl_type::CLType {
        crate::cl_type::CLType::MapOf {
            key: Box::new(crate::cl_type::CLType::String),
            value: Box::new(crate::cl_type::CLType::Key),
        }
    }

    fn cl_type() -> (r: crate::cl_type::CLType) {
        crate::cl_type::CLType::MapOf {
            key: Box::new(crate::cl_type::CLType::String),
            value: Box::new(crate::cl_type::CLType::Key),
        }
    }
}

pub const VALUE_TAG_CL_VALUE: u8 = 0;
pub const VALUE_TAG_ACCOUNT: u8 = 1;
pub const VALUE_TAG_CONTRACT: u8 = 2;
pub const VALUE_TAG_CONTRACT_PACKAGE: u8 = 3;
pub const VALUE_TAG_CONTRACT_WASM: u8 = 4;

/// A stored value: a tag byte, then its payload.
pub open spec fn enc_stored(v: StoredValueView) -> Seq<u8> {
    match v {
        StoredValueView::CLValue(c) => seq![VALUE_TAG_CL_VALUE] + enc_cl_value(c),
        StoredValueView::Account(m) => seq![VALUE_TAG_ACCOUNT] + enc_named_keys(m),
        StoredValueView::Contract(b, m) => seq![VALUE_TAG_CONTRACT] + enc_bytes(b) + enc_named_keys(m),
        StoredValueView::ContractPackage(b) => seq![VALUE_TAG_CONTRACT_PACKAGE] + enc_bytes(b),
        StoredValueView::ContractWasm(b) => seq![VALUE_TAG_CONTRACT_WASM] + enc_bytes(b),
    }
}

pub open spec fn stored_fits(v: StoredValueView) -> bool {
    match v {
        StoredValueView::CLValue(c) => fits_u32(c.1.len() as int),
        StoredValueView::Account(m) => named_keys_fit(m),
        StoredValueView::Contract(b, m) => fits_u32(b.len() as int) && named_keys_fit(m),
        StoredValueView::ContractPackage(b) => fits_u32(b.len() as int),
        StoredValueView::ContractWasm(b) => fits_u32(b.len() as int),
    }
}

pub open spec fn dec_stored(b: Seq<u8>) -> Option<(StoredValueView, int)> {
    if b.len() == 0 {
        None
    } else {
        let r = b.subrange(1, b.len() as int);
        if b[0] == VALUE_TAG_CL_VALUE {
            match dec_cl_value(r) {
                Some((c, n)) => Some((StoredValueView::CLValue(c), 1 + n)),
                None => None,
            }
        } else if b[0] == VALUE_TAG_ACCOUNT {
            match dec_named_keys(r) {
                Some((m, n)) => Some((StoredValueView::Account(m), 1 + n)),
                None => None,
            }
        } else if b[0] == VALUE_TAG_CONTRACT {
            match dec_bytes(r) {
                Some((raw, n)) => if 0 <= n <= r.len() {
                    match dec_named_keys(r.subrange(n, r.len() as int)) {
                        Some((m, k)) => Some((StoredValueView::Contract(raw, m), 1 + n + k)),
                        None => None,
                    }
                } else {
                    None
                },
                None => None,
            }
        } else if b[0] == VALUE_TAG_CONTRACT_PACKAGE {
            match dec_bytes(r) {
                Some((raw, n)) => Some((StoredValueView::ContractPackage(raw), 1 + n)),
                None => None,
            }
        } else if b[0] == VALUE_TAG_CONTRACT_WASM {
            match dec_bytes(r) {
                Some((raw, n)) => Some((StoredValueView::ContractWasm(raw), 1 + n)),
                None => None,
            }
        } else {
            None
        }
    }
}

impl ToBytes for StoredValue {
    open spec fn enc(v: StoredValueView) -> Seq<u8> {
        enc_stored(v)
    }

    open spec fn fits(v: StoredValueView) -> bool {
        stored_fits(v)
    }

    fn to_bytes(&self) -> (r: Result<Vec<u8>, Error>) {
        let mut out: Vec<u8> = Vec::new();
        match self {
            StoredValue::CLValue(c) => {
                out.push(VALUE_TAG_CL_VALUE);
                let b = c.to_bytes()?;
                crate::bytesrepr::write_raw(&mut out, b.as_slice());
            },
            StoredValue::Account(a) => {
                out.push(VALUE_TAG_ACCOUNT);
                let b = a.named_keys.to_bytes()?;
                crate::bytesrepr::write_raw(&mut out, b.as_slice());
            },
            StoredValue::Contract(c) => {
                out.push(VALUE_TAG_CONTRACT);
                write_bytes(&mut out, c.bytes.as_slice())?;
                let b = c.named_keys.to_bytes()?;
                crate::bytesrepr::write_raw(&mut out, b.as_slice());
            },
            StoredValue::ContractPackage(b) => {
                out.push(VALUE_TAG_CONTRACT_PACKAGE);
                write_bytes(&mut out, b.as_slice())?;
            },
            StoredValue::ContractWasm(b) => {
                out.push(VALUE_TAG_CONTRACT_WASM);
                write_bytes(&mut out, b.as_slice())?;
            },
        }
        assert(out@ =~= enc_stored(self@));
        Ok(out)
    }
}

impl FromBytes for StoredValue {
    open spec fn dec(b: Seq<u8>) -> Option<(StoredValueView, int)> {
        dec_stored(b)
    }

    fn from_bytes(bytes: &[u8], pos: usize) -> (r: Result<(StoredValue, usize), Error>) {
        let ghost b = bytes@.subrange(pos as int, bytes@.len() as int);
        let (tag, p) = read_u8(bytes, pos)?;
        let ghost r = b.subrange(1, b.len() as int);
        assert(r =~= bytes@.subrange(p as int, bytes@.len() as int));
        if tag == VALUE_TAG_CL_VALUE {
            let (c, end) = CLValue::from_bytes(bytes, p)?;
            Ok((StoredValue::CLValue(c), end))
        } else if tag == VALUE_TAG_ACCOUNT {
            let (m, end) = NamedKeys::from_bytes(bytes, p)?;
            Ok((StoredValue::Account(Account { named_keys: m }), end))
        } else if tag == VALUE_TAG_CONTRACT {
            let (raw, q) = read_bytes(bytes, p)?;
            proof {
                crate::bytesrepr::lemma_bytes_dec_prefix(r, raw@, q - p);
            }
            assert(r.subrange(q - p, r.len() as int) =~= bytes@.subrange(q as int, bytes@.len() as int));
            let (m, end) = NamedKeys::from_bytes(bytes, q)?;
            Ok((StoredValue::Contract(Contract { bytes: raw, named_keys: m }), end))
        } else if tag == VALUE_TAG_CONTRACT_PACKAGE {
            let (raw, end) = read_bytes(bytes, p)?;
            Ok((StoredValue::ContractPackage(raw), end))
        } else if tag == VALUE_TAG_CONTRACT_WASM {
            let (raw, end) = read_bytes(bytes, p)?;
            Ok((StoredValue::ContractWasm(raw), end))
        } else {
            Err(Error::FormattingError)
        }
    }

    #[verifier::rlimit(100)]
    #[verifier::spinoff_prover]
    proof fn lemma_round_trip(v: StoredValueView, rest: Seq<u8>) {
        let b = enc_stored(v) + rest;
        let r = b.subrange(1, b.len() as int);
        match v {
            StoredValueView::CLValue(c) => {
                assert(r =~= enc_cl_value(c) + rest);
                <CLValue as FromBytes>::lemma_round_trip(c, rest);
            },
            StoredValueView::Account(m) => {
                assert(r =~= enc_named_keys(m) + rest);
                lemma_named_keys_round_trip(m, rest);
            },
            StoredValueView::Contract(raw, m) => {
                assert(r =~= enc_bytes(raw) + (enc_named_keys(m) + rest));
                crate::bytesrepr::lemma_bytes_dec(raw, enc_named_keys(m) + rest);
                let n = enc_bytes(raw).len() as int;
                assert(r.subrange(n, r.len() as int) =~= enc_named_keys(m) + rest);
                lemma_named_keys_round_trip(m, rest);
            },
            StoredValueView::ContractPackage(raw) => {
                assert(r =~= enc_bytes(raw) + rest);
                crate::bytesrepr::lemma_bytes_dec(raw, rest);
            },
            StoredValueView::ContractWasm(raw) => {
                assert(r =~= enc_bytes(raw) + rest);
                crate::bytesrepr::lemma_bytes_dec(raw, rest);
            },
        }
    }

    #[verifier::rlimit(100)]
    #[verifier::spinoff_prover]
    proof fn lemma_prefix(b: Seq<u8>, v: StoredValueView, n: int) {
        let r = b.subrange(1, b.len() as int);
        if b[0] == VALUE_TAG_CL_VALUE {
            let (c, k) = dec_cl_value(r)->0;
            <CLValue as FromBytes>::lemma_prefix(r, c, k);
            assert(b.subrange(0, n) =~= seq![b[0]] + r.subrange(0, k));
        } else if b[0] == VALUE_TAG_ACCOUNT {
            let (m, k) = dec_named_keys(r)->0;
            lemma_named_keys_prefix(r, m, k);
            assert(b.subrange(0, n) =~= seq![b[0]] + r.subrange(0, k));
        } else if b[0] == VALUE_TAG_CONTRACT {
            let (raw, k) = dec_bytes(r)->0;
            crate::bytesrepr::lemma_bytes_dec_prefix(r, raw, k);
            let r2 = r.subrange(k, r.len() as int);
            let (m, j) = dec_named_keys(r2)->0;
            lemma_named_keys_prefix(r2, m, j);
            assert(b.subrange(0, n) =~= seq![b[0]] + r.subrange(0, k) + r2.subrange(0, j));
        } else {
            let (raw, k) = dec_bytes(r)->0;
            crate::bytesrepr::lemma_bytes_dec_prefix(r, raw, k);
            assert(b.subrange(0, n) =~= seq![b[0]] + r.subrange(0, k));
        }
    }
}

} // verus!
