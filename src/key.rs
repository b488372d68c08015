use vstd::prelude::*;

use crate::bytesrepr::{read_u8, Error};

verus! {

/// Access rights of an unforgeable reference, as a bit set: read = 1, write = 2, add = 4.
pub const ACCESS_READ: u8 = 1;
pub const ACCESS_WRITE: u8 = 2;
pub const ACCESS_ADD: u8 = 4;

/// A global-state key: one of the address spaces that the state is split into.
#[derive(Eq, Clone, Copy, Debug, Hash)]
pub enum Key {
    Account([u8; 32]),
    Hash([u8; 32]),
    /// An unforgeable reference: an address and the access rights that its holder has.
    URef([u8; 32], u8),
    Local([u8; 32]),
}

impl Key {
    pub open spec fn spec_normalize(self) -> Key {
        match self {
            Key::URef(addr, _) => Key::URef(addr, 0),
            other => other,
        }
    }

    pub open spec fn is_normalized(self) -> bool {
        self.spec_normalize() == self
    }

    /// Strips the access rights of a URef, so that keys compare by address alone.
    pub fn normalize(&self) -> (r: Key)
        ensures
            r == self.spec_normalize(),
    {
        match self {
            Key::URef(addr, _) => Key::URef(*addr, 0),
            other => *other,
        }
    }
}

/// Compares two 32-byte addresses.
pub fn addr_eq(a: &[u8; 32], b: &[u8; 32]) -> (r: bool)
    ensures
        r == (*a == *b),
{
    let mut i: usize = 0;
    while i < 32
        invariant
            0 <= i <= 32,
            forall|j: int| 0 <= j < i ==> a@[j] == b@[j],
        decreases 32 - i,
    {
        if a[i] != b[i] {
            return false;
        }
        i = i + 1;
    }
    assert(a@ =~= b@);
    proof {
        vstd::array::axiom_array_ext_equal(*a, *b);
    }
    true
}

impl PartialEq for Key {
    fn eq(&self, other: &Key) -> (r: bool) {
        match (self, other) {
            (Key::Account(a), Key::Account(b)) => addr_eq(a, b),
            (Key::Hash(a), Key::Hash(b)) => addr_eq(a, b),
            (Key::URef(a, ra), Key::URef(b, rb)) => *ra == *rb && addr_eq(a, b),
            (Key::Local(a), Key::Local(b)) => addr_eq(a, b),
            _ => false,
        }
    }
}

impl vstd::std_specs::cmp::PartialEqSpecImpl for Key {
    open spec fn obeys_eq_spec() -> bool {
        true
    }

    open spec fn eq_spec(&self, other: &Key) -> bool {
        *self == *other
    }
}

pub const KEY_TAG_ACCOUNT: u8 = 0;
pub const KEY_TAG_HASH: u8 = 1;
pub const KEY_TAG_UREF: u8 = 2;
pub const KEY_TAG_LOCAL: u8 = 3;

/// A key's encoding: a tag byte, the 32 address bytes, and for a URef its rights byte.
pub open spec fn enc_key(k: Key) -> Seq<u8> {
    match k {
        Key::Account(a) => seq![KEY_TAG_ACCOUNT] + a@,
        Key::Hash(a) => seq![KEY_TAG_HASH] + a@,
        Key::URef(a, r) => seq![KEY_TAG_UREF] + a@ + seq![r],
        Key::Local(a) => seq![KEY_TAG_LOCAL] + a@,
    }
}

/// The 32 bytes at the start of `b`, as an address.
pub open spec fn addr_of(b: Seq<u8>) -> [u8; 32] {
    choose|a: [u8; 32]| a@ == b
}

proof fn lemma_addr_of(a: [u8; 32])
    ensures
        addr_of(a@) == a,
{
    let c = addr_of(a@);
    assert(c@ == a@);
    vstd::array::axiom_array_ext_equal(c, a);
}

pub open spec fn dec_key(b: Seq<u8>) -> Option<(Key, int)> {
    if b.len() < 33 || b[0] > KEY_TAG_LOCAL || (b[0] == KEY_TAG_UREF && b.len() < 34) || !(exists|
        a: [u8; 32],
    | a@ == b.subrange(1, 33)) {
        None
    } else {
        let a = addr_of(b.subrange(1, 33));
        if b[0] == KEY_TAG_ACCOUNT {
            Some((Key::Account(a), 33))
        } else if b[0] == KEY_TAG_HASH {
            Some((Key::Hash(a), 33))
        } else if b[0] == KEY_TAG_UREF {
            Some((Key::URef(a, b[33]), 34))
        } else {
            Some((Key::Local(a), 33))
        }
    }
}

pub proof fn lemma_normalize_idempotent(k: Key)
    ensures
        k.spec_normalize().spec_normalize() == k.spec_normalize(),
        k.spec_normalize().is_normalized(),
{
}

/// Decoding a key's encoding, whatever follows it, gives the key back.
pub proof fn lemma_key_round_trip(k: Key, rest: Seq<u8>)
    ensures
        dec_key(enc_key(k) + rest) == Some((k, enc_key(k).len() as int)),
{
    let b = enc_key(k) + rest;
    match k {
        Key::Account(a) => {
            assert(b.subrange(1, 33) =~= a@);
            lemma_addr_of(a);
        },
        Key::Hash(a) => {
            assert(b.subrange(1, 33) =~= a@);
            lemma_addr_of(a);
        },
        Key::URef(a, r) => {
            assert(b.subrange(1, 33) =~= a@);
            assert(b[33] == r);
            lemma_addr_of(a);
        },
        Key::Local(a) => {
            assert(b.subrange(1, 33) =~= a@);
            lemma_addr_of(a);
        },
    }
}

/// What the key decoder took is the encoding of what it gave.
pub proof fn lemma_key_prefix(b: Seq<u8>, k: Key, n: int)
    requires
        dec_key(b) == Some((k, n)),
    ensures
        b.subrange(0, n) == enc_key(k),
{
    let a = addr_of(b.subrange(1, 33));
    assert(a@ == b.subrange(1, 33));
    assert(b.subrange(0, n) =~= enc_key(k));
}

impl View for Key {
    type V = Key;

    open spec fn view(&self) -> Key {
        *self
    }
}

impl Key {
    /// Appends the encoding of this key.
    pub fn append_bytes(&self, out: &mut Vec<u8>)
        ensures
            final(out)@ == old(out)@ + enc_key(*self),
    {
        let a = match self {
            Key::Account(a) => {
                out.push(KEY_TAG_ACCOUNT);
                a
            },
            Key::Hash(a) => {
                out.push(KEY_TAG_HASH);
                a
            },
            Key::URef(a, _) => {
                out.push(KEY_TAG_UREF);
                a
            },
            Key::Local(a) => {
                out.push(KEY_TAG_LOCAL);
                a
            },
        };
        crate::bytesrepr::write_raw(out, vstd::array::array_as_slice(a));
        if let Key::URef(_, r) = self {
            out.push(*r);
        }
        assert(out@ =~= old(out)@ + enc_key(*self));
    }

    /// Reads the encoding of a key at `pos`.
    pub fn read_bytes(bytes: &[u8], pos: usize) -> (r: Result<(Key, usize), Error>)
        requires
            pos <= bytes@.len(),
        ensures
            match r {
                Ok((k, end)) => dec_key(bytes@.subrange(pos as int, bytes@.len() as int)) == Some(
                    (k, end - pos),
                ) && end <= bytes@.len(),
                Err(e) => dec_key(bytes@.subrange(pos as int, bytes@.len() as int)) is None && (e
                    == Error::EarlyEndOfStream || e == Error::FormattingError),
            },
    {
        let ghost b = bytes@.subrange(pos as int, bytes@.len() as int);
        let (tag, p) = read_u8(bytes, pos)?;
        if tag > KEY_TAG_LOCAL {
            return Err(Error::FormattingError);
        }
        if bytes.len() - p < 32 || (tag == KEY_TAG_UREF && bytes.len() - p < 33) {
            return Err(Error::EarlyEndOfStream);
        }
        let mut a: [u8; 32] = [0u8; 32];
        let mut i: usize = 0;
        while i < 32
            invariant
                0 <= i <= 32,
                p + 32 <= bytes.len(),
                forall|j: int| 0 <= j < i ==> a@[j] == bytes@[p + j],
            decreases 32 - i,
        {
            a[i] = bytes[p + i];
            i = i + 1;
        }
        assert(a@ =~= b.subrange(1, 33));
        proof {
            lemma_addr_of(a);
        }
        assert(b.subrange(1, 33) == a@);
        if tag == KEY_TAG_ACCOUNT {
            Ok((Key::Account(a), p + 32))
        } else if tag == KEY_TAG_HASH {
            Ok((Key::Hash(a), p + 32))
        } else if tag == KEY_TAG_UREF {
            Ok((Key::URef(a, bytes[p + 32]), p + 33))
        } else {
            Ok((Key::Local(a), p + 32))
        }
    }
}

} // verus!
