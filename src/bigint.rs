use vstd::arithmetic::div_mod::{lemma_add_mod_noop, lemma_breakdown, lemma_fundamental_div_mod_converse};
use vstd::prelude::*;

use crate::bytesrepr::Error;

verus! {

/// `256^n`.
pub open spec fn pow256(n: nat) -> nat
    decreases n,
{
    if n == 0 {
        1
    } else {
        256 * pow256((n - 1) as nat)
    }
}

/// The number that little-endian bytes stand for.
pub open spec fn le_value(s: Seq<u8>) -> nat
    decreases s.len(),
{
    if s.len() == 0 {
        0
    } else {
        le_value(s.drop_last()) + (s.last() as nat) * pow256((s.len() - 1) as nat)
    }
}

/// How many bytes of a little-endian number are significant: those up to the
/// last that is not zero.
pub open spec fn sig_len(s: Seq<u8>) -> nat
    decreases s.len(),
{
    if s.len() == 0 {
        0
    } else if s.last() == 0 {
        sig_len(s.drop_last())
    } else {
        s.len()
    }
}

/// A big number: one byte `n`, then its `n` significant bytes, least significant first.
pub open spec fn enc_big(s: Seq<u8>) -> Seq<u8> {
    seq![sig_len(s) as u8] + s.subrange(0, sig_len(s) as int)
}

/// Reads a big number of `width` bytes; refuses a count above the width and a
/// most significant byte that is zero.
pub open spec fn dec_big(b: Seq<u8>, width: nat) -> Option<(Seq<u8>, int)> {
    if b.len() >= 1 && b[0] as nat <= width && b.len() >= 1 + b[0] && (b[0] == 0 || b[b[0] as int]
        != 0) {
        Some(
            (
                b.subrange(1, 1 + b[0] as int) + Seq::new(
                    (width - b[0] as nat) as nat,
                    |i: int| 0u8,
                ),
                1 + b[0] as int,
            ),
        )
    } else {
        None
    }
}

proof fn lemma_pow256_pos(n: nat)
    ensures
        pow256(n) > 0,
    decreases n,
{
    if n > 0 {
        lemma_pow256_pos((n - 1) as nat);
    }
}

proof fn lemma_le_value_bound(s: Seq<u8>)
    ensures
        le_value(s) < pow256(s.len()),
    decreases s.len(),
{
    if s.len() > 0 {
        let k = (s.len() - 1) as nat;
        lemma_le_value_bound(s.drop_last());
        lemma_pow256_pos(k);
        let p = pow256(k);
        let l = s.last() as nat;
        assert(l <= 255);
        assert(le_value(s.drop_last()) + l * p < 256 * p) by (nonlinear_arith)
            requires
                le_value(s.drop_last()) < p,
                l <= 255,
        ;
    }
}

proof fn lemma_le_value_take(s: Seq<u8>, i: int)
    requires
        0 <= i < s.len(),
    ensures
        le_value(s.subrange(0, i + 1)) == le_value(s.subrange(0, i)) + (s[i] as nat) * pow256(
            i as nat,
        ),
{
    assert(s.subrange(0, i + 1).drop_last() =~= s.subrange(0, i));
}

proof fn lemma_sig_len(s: Seq<u8>)
    ensures
        sig_len(s) <= s.len(),
        sig_len(s) == 0 || s[sig_len(s) - 1] != 0,
        forall|j: int| sig_len(s) <= j < s.len() ==> s[j] == 0,
        sig_len(s.subrange(0, sig_len(s) as int)) == sig_len(s),
    decreases s.len(),
{
    if s.len() > 0 && s.last() == 0 {
        lemma_sig_len(s.drop_last());
        assert(s.drop_last().subrange(0, sig_len(s) as int) =~= s.subrange(0, sig_len(s) as int));
        assert forall|j: int| sig_len(s) <= j < s.len() implies s[j] == 0 by {
            if j < s.len() - 1 {
                assert(s.drop_last()[j] == s[j]);
            }
        }
    }
    if s.len() > 0 && s.last() != 0 {
        assert(s.subrange(0, s.len() as int) =~= s);
    }
}

proof fn lemma_sig_len_padded(raw: Seq<u8>, z: nat)
    requires
        raw.len() == 0 || raw.last() != 0,
    ensures
        sig_len(raw + Seq::new(z, |i: int| 0u8)) == raw.len(),
    decreases z,
{
    let p = raw + Seq::new(z, |i: int| 0u8);
    if z == 0 {
        assert(p =~= raw);
        if raw.len() > 0 {
        }
    } else {
        assert(p.drop_last() =~= raw + Seq::new((z - 1) as nat, |i: int| 0u8));
        lemma_sig_len_padded(raw, (z - 1) as nat);
    }
}

/// Decoding the encoding of a number of `width` bytes gives it back.
pub proof fn lemma_big_dec(s: Seq<u8>, rest: Seq<u8>)
    requires
        s.len() < 256,
    ensures
        dec_big(enc_big(s) + rest, s.len()) == Some((s, enc_big(s).len() as int)),
{
    lemma_sig_len(s);
    let n = sig_len(s);
    let b = enc_big(s) + rest;
    assert(b[0] == n as u8);
    if n > 0 {
        assert(b[n as int] == s[n - 1]);
    }
    let d = b.subrange(1, 1 + n as int) + Seq::new((s.len() - n) as nat, |i: int| 0u8);
    assert(d =~= s);
}

/// What the decoder took is the encoding of what it gave.
pub proof fn lemma_big_dec_prefix(b: Seq<u8>, width: nat, v: Seq<u8>, n: int)
    requires
        dec_big(b, width) == Some((v, n)),
    ensures
        b.subrange(0, n) == enc_big(v),
        v.len() == width,
{
    let k = b[0] as nat;
    let raw = b.subrange(1, 1 + k as int);
    lemma_sig_len_padded(raw, (width - k) as nat);
    assert(v.subrange(0, k as int) =~= raw);
    assert(b.subrange(0, n) =~= enc_big(v));
}

/// The `width`-byte little-endian form of the sum of two numbers, wrapped at `256^width`.
pub open spec fn le_wrapping_add(a: Seq<u8>, b: Seq<u8>) -> Seq<u8> {
    choose|r: Seq<u8>|
        r.len() == a.len() && le_value(r) == (le_value(a) + le_value(b)) % pow256(a.len())
}

/// Two little-endian numbers of one length with one value are the same bytes.
pub proof fn lemma_le_value_injective(a: Seq<u8>, b: Seq<u8>)
    requires
        a.len() == b.len(),
        le_value(a) == le_value(b),
    ensures
        a == b,
    decreases a.len(),
{
    if a.len() > 0 {
        let k = (a.len() - 1) as nat;
        let p = pow256(k);
        lemma_pow256_pos(k);
        lemma_le_value_bound(a.drop_last());
        lemma_le_value_bound(b.drop_last());
        lemma_fundamental_div_mod_converse(
            le_value(a) as int,
            p as int,
            a.last() as int,
            le_value(a.drop_last()) as int,
        );
        lemma_fundamental_div_mod_converse(
            le_value(b) as int,
            p as int,
            b.last() as int,
            le_value(b.drop_last()) as int,
        );
        lemma_le_value_injective(a.drop_last(), b.drop_last());
        assert(a =~= a.drop_last().push(a.last()));
        assert(b =~= b.drop_last().push(b.last()));
    } else {
        assert(a =~= b);
    }
}

/// The `n` little-endian bytes of `v`, wrapped at `256^n`.
pub open spec fn le_bytes(v: nat, n: nat) -> Seq<u8>
    decreases n,
{
    if n == 0 {
        Seq::empty()
    } else {
        le_bytes(v, (n - 1) as nat).push(((v / pow256((n - 1) as nat)) % 256) as u8)
    }
}

proof fn lemma_le_bytes(v: nat, n: nat)
    ensures
        le_bytes(v, n).len() == n,
        le_value(le_bytes(v, n)) == v % pow256(n),
    decreases n,
{
    if n > 0 {
        let k = (n - 1) as nat;
        let p = pow256(k);
        lemma_le_bytes(v, k);
        lemma_pow256_pos(k);
        assert(le_bytes(v, n).drop_last() =~= le_bytes(v, k));
        lemma_breakdown(v as int, p as int, 256);
        assert(pow256(n) == p * 256);
        assert(((v / p) % 256) as u8 as nat == (v as int / p as int) % 256);
        assert(p * ((v as int / p as int) % 256) == ((v as int / p as int) % 256) * p)
            by (nonlinear_arith);
    }
}

/// The wrapping sum of two numbers of one width exists, and is one number of that width.
pub proof fn lemma_le_wrapping_add(a: Seq<u8>, b: Seq<u8>)
    ensures
        le_wrapping_add(a, b).len() == a.len(),
        le_value(le_wrapping_add(a, b)) == (le_value(a) + le_value(b)) % pow256(a.len()),
{
    let w = le_bytes(le_value(a) + le_value(b), a.len());
    lemma_le_bytes(le_value(a) + le_value(b), a.len());
    assert(w.len() == a.len() && le_value(w) == (le_value(a) + le_value(b)) % pow256(a.len()));
}

/// Wrapping addition of numbers of one width is associative.
pub proof fn lemma_le_wrapping_add_assoc(a: Seq<u8>, b: Seq<u8>, c: Seq<u8>)
    requires
        a.len() == b.len(),
        b.len() == c.len(),
    ensures
        le_wrapping_add(le_wrapping_add(a, b), c) == le_wrapping_add(a, le_wrapping_add(b, c)),
{
    let n = a.len();
    let p = pow256(n) as int;
    lemma_pow256_pos(n);
    let ab = le_wrapping_add(a, b);
    let bc = le_wrapping_add(b, c);
    lemma_le_wrapping_add(a, b);
    lemma_le_wrapping_add(b, c);
    lemma_le_wrapping_add(ab, c);
    lemma_le_wrapping_add(a, bc);
    let x = le_value(a) as int;
    let y = le_value(b) as int;
    let z = le_value(c) as int;
    lemma_le_value_bound(a);
    lemma_le_value_bound(c);
    lemma_add_mod_noop(x + y, z, p);
    lemma_add_mod_noop(x, y + z, p);
    vstd::arithmetic::div_mod::lemma_small_mod(z as nat, p as nat);
    vstd::arithmetic::div_mod::lemma_small_mod(x as nat, p as nat);
    assert((x + y + z) % p == ((x + y) % p + z) % p);
    assert((x + (y + z)) % p == (x + (y + z) % p) % p);
    lemma_le_value_injective(le_wrapping_add(ab, c), le_wrapping_add(a, bc));
}

/// Some array holds any bytes of its length.
pub proof fn lemma_array_exists<const N: usize>(s: Seq<u8>)
    requires
        s.len() == N,
    ensures
        exists|a: [u8; N]| #[trigger] a@ == s,
{
    let a = lemma_array_prefix::<N>(s, N as nat);
    assert(a@ =~= s);
}

proof fn lemma_array_prefix<const N: usize>(s: Seq<u8>, k: nat) -> (a: [u8; N])
    requires
        s.len() == N,
        k <= N,
    ensures
        forall|i: int| 0 <= i < k ==> a@[i] == s[i],
        a@.len() == N,
    decreases k,
{
    if k == 0 {
        vstd::array::spec_array_fill_for_copy_type::<u8, N>(0u8)
    } else {
        let prev = lemma_array_prefix::<N>(s, (k - 1) as nat);
        let a = vstd::array::spec_array_update(prev, k - 1, s[k - 1]);
        assert(a@ == prev@.update(k - 1, s[k - 1]));
        a
    }
}

/// Adds two little-endian numbers of `N` bytes, wrapping at `256^N`.
pub fn add_le<const N: usize>(a: &[u8; N], b: &[u8; N]) -> (r: [u8; N])
    ensures
        le_value(r@) == (le_value(a@) + le_value(b@)) % pow256(N as nat),
        r@ == le_wrapping_add(a@, b@),
{
    let mut r: [u8; N] = *a;
    let mut carry: u16 = 0;
    let mut i: usize = 0;
    while i < N
        invariant
            0 <= i <= N,
            r@.len() == N,
            a@.len() == N,
            b@.len() == N,
            carry <= 1,
            le_value(r@.subrange(0, i as int)) + (carry as nat) * pow256(i as nat) == le_value(
                a@.subrange(0, i as int),
            ) + le_value(b@.subrange(0, i as int)),
        decreases N - i,
    {
        let sum: u16 = a[i] as u16 + b[i] as u16 + carry;
        let ghost old_r = r@;
        let ghost old_carry = carry;
        r[i] = (sum % 256) as u8;
        carry = sum / 256;
        proof {
            assert(r@.subrange(0, i as int) =~= old_r.subrange(0, i as int));
            lemma_le_value_take(r@, i as int);
            lemma_le_value_take(a@, i as int);
            lemma_le_value_take(b@, i as int);
            let p = pow256(i as nat);
            assert(pow256((i + 1) as nat) == 256 * p);
            assert(r@[i as int] as nat == (sum % 256) as nat);
            assert(sum as nat == a@[i as int] as nat + b@[i as int] as nat + old_carry as nat);
            assert((sum % 256) as nat * p + (sum / 256) as nat * (256 * p) == sum as nat * p)
                by (nonlinear_arith)
                requires
                    sum >= 0,
            ;
            assert(sum as nat * p == (a@[i as int] as nat) * p + (b@[i as int] as nat) * p
                + (old_carry as nat) * p) by (nonlinear_arith)
                requires
                    sum as nat == a@[i as int] as nat + b@[i as int] as nat + old_carry as nat,
            ;
        }
        i = i + 1;
    }
    proof {
        assert(r@.subrange(0, N as int) =~= r@);
        assert(a@.subrange(0, N as int) =~= a@);
        assert(b@.subrange(0, N as int) =~= b@);
        lemma_le_value_bound(r@);
        lemma_pow256_pos(N as nat);
        lemma_fundamental_div_mod_converse(
            (le_value(a@) + le_value(b@)) as int,
            pow256(N as nat) as int,
            carry as int,
            le_value(r@) as int,
        );
        let c = le_wrapping_add(a@, b@);
        assert(c.len() == a@.len() && le_value(c) == (le_value(a@) + le_value(b@)) % pow256(
            a@.len(),
        ));
        lemma_le_value_injective(c, r@);
    }
    r
}

/// Appends the encoding of a little-endian number of `N` bytes.
pub fn write_big<const N: usize>(out: &mut Vec<u8>, v: &[u8; N])
    requires
        N < 256,
    ensures
        final(out)@ == old(out)@ + enc_big(v@),
{
    let mut n: usize = N;
    assert(v@.subrange(0, N as int) =~= v@);
    while n > 0 && v[n - 1] == 0
        invariant
            n <= N,
            N < 256,
            v@.len() == N,
            sig_len(v@.subrange(0, n as int)) == sig_len(v@),
        decreases n,
    {
        assert(v@.subrange(0, n as int).drop_last() =~= v@.subrange(0, n - 1));
        n = n - 1;
    }
    proof {
        if n > 0 {
            assert(v@.subrange(0, n as int).last() != 0);
            assert(sig_len(v@.subrange(0, n as int)) == n);
        }
    }
    out.push(n as u8);
    let mut i: usize = 0;
    while i < n
        invariant
            0 <= i <= n <= N,
            v@.len() == N,
            out@ == old(out)@ + seq![n as u8] + v@.subrange(0, i as int),
        decreases n - i,
    {
        out.push(v[i]);
        i = i + 1;
        assert(out@ =~= old(out)@ + seq![n as u8] + v@.subrange(0, i as int));
    }
    assert(out@ =~= old(out)@ + enc_big(v@));
}

/// Reads a little-endian number of `N` bytes at `pos`.
pub fn read_big<const N: usize>(bytes: &[u8], pos: usize) -> (r: Result<([u8; N], usize), Error>)
    requires
        pos <= bytes@.len(),
        N < 256,
    ensures
        match r {
            Ok((v, end)) => dec_big(bytes@.subrange(pos as int, bytes@.len() as int), N as nat)
                == Some((v@, end - pos)) && end <= bytes@.len(),
            Err(e) => dec_big(bytes@.subrange(pos as int, bytes@.len() as int), N as nat) is None
                && (e == Error::EarlyEndOfStream || e == Error::FormattingError),
        },
{
    let ghost b = bytes@.subrange(pos as int, bytes@.len() as int);
    if pos >= bytes.len() {
        return Err(Error::EarlyEndOfStream);
    }
    let n = bytes[pos] as usize;
    if n > N {
        return Err(Error::FormattingError);
    }
    if bytes.len() - pos - 1 < n {
        return Err(Error::EarlyEndOfStream);
    }
    if n > 0 && bytes[pos + n] == 0 {
        return Err(Error::FormattingError);
    }
    let mut v: [u8; N] = [0u8; N];
    let mut i: usize = 0;
    while i < N
        invariant
            0 <= i <= N,
            n <= N,
            pos + 1 + n <= bytes.len(),
            v@.len() == N,
            forall|j: int| 0 <= j < i ==> v@[j] == (if j < n { bytes@[pos + 1 + j] } else { 0u8 }),
        decreases N - i,
    {
        if i < n {
            v[i] = bytes[pos + 1 + i];
        } else {
            v[i] = 0;
        }
        i = i + 1;
    }
    assert(v@ =~= b.subrange(1, 1 + n as int) + Seq::new((N - n) as nat, |i: int| 0u8));
    Ok((v, pos + 1 + n))
}

/// An unsigned 128-bit number, as its 16 little-endian bytes.
#[derive(Clone, Copy, Debug, PartialEq, Eq)]
pub struct U128(pub [u8; 16]);

/// An unsigned 256-bit number, as its 32 little-endian bytes.
#[derive(Clone, Copy, Debug, PartialEq, Eq)]
pub struct U256(pub [u8; 32]);

/// An unsigned 512-bit number, as its 64 little-endian bytes.
#[derive(Clone, Copy, Debug, PartialEq, Eq)]
pub struct U512(pub [u8; 64]);

impl View for U128 {
    type V = Seq<u8>;

    open spec fn view(&self) -> Seq<u8> {
        self.0@
    }
}

impl U128 {
    pub open spec fn value(self) -> nat {
        le_value(self.0@)
    }

    /// The wrapping sum, as a number of this width.
    pub open spec fn spec_wrapping_add(self, other: U128) -> U128 {
        choose|r: U128| r@ == le_wrapping_add(self@, other@)
    }

    /// The wrapping sum holds the wrapping sum of the bytes.
    pub proof fn lemma_spec_wrapping_add(self, other: U128)
        ensures
            self.spec_wrapping_add(other)@ == le_wrapping_add(self@, other@),
    {
        lemma_le_wrapping_add(self@, other@);
        lemma_array_exists::<16>(le_wrapping_add(self@, other@));
        let a = choose|a: [u8; 16]| #[trigger] a@ == le_wrapping_add(self@, other@);
        assert(U128(a)@ == le_wrapping_add(self@, other@));
    }

    /// Adds, wrapping at `2^128`.
    #[verifier::when_used_as_spec(spec_wrapping_add)]
    pub fn wrapping_add(self, other: U128) -> (r: U128)
        ensures
            r.value() == (self.value() + other.value()) % pow256(16),
            r@ == le_wrapping_add(self@, other@),
            r == self.spec_wrapping_add(other),
    {
        let r = U128(add_le(&self.0, &other.0));
        proof {
            assert(exists|x: U128| #[trigger] x@ == le_wrapping_add(self@, other@)) by {
                assert(r@ == le_wrapping_add(self@, other@));
            }
            let c = self.spec_wrapping_add(other);
            assert(c@ == le_wrapping_add(self@, other@));
            vstd::array::axiom_array_ext_equal(c.0, r.0);
        }
        r
    }
}

impl View for U256 {
    type V = Seq<u8>;

    open spec fn view(&self) -> Seq<u8> {
        self.0@
    }
}

impl U256 {
    pub open spec fn value(self) -> nat {
        le_value(self.0@)
    }

    /// The wrapping sum, as a number of this width.
    pub open spec fn spec_wrapping_add(self, other: U256) -> U256 {
        choose|r: U256| r@ == le_wrapping_add(self@, other@)
    }

    /// The wrapping sum holds the wrapping sum of the bytes.
    pub proof fn lemma_spec_wrapping_add(self, other: U256)
        ensures
            self.spec_wrapping_add(other)@ == le_wrapping_add(self@, other@),
    {
        lemma_le_wrapping_add(self@, other@);
        lemma_array_exists::<32>(le_wrapping_add(self@, other@));
        let a = choose|a: [u8; 32]| #[trigger] a@ == le_wrapping_add(self@, other@);
        assert(U256(a)@ == le_wrapping_add(self@, other@));
    }

    /// Adds, wrapping at `2^256`.
    #[verifier::when_used_as_spec(spec_wrapping_add)]
    pub fn wrapping_add(self, other: U256) -> (r: U256)
        ensures
            r.value() == (self.value() + other.value()) % pow256(32),
            r@ == le_wrapping_add(self@, other@),
            r == self.spec_wrapping_add(other),
    {
        let r = U256(add_le(&self.0, &other.0));
        proof {
            assert(exists|x: U256| #[trigger] x@ == le_wrapping_add(self@, other@)) by {
                assert(r@ == le_wrapping_add(self@, other@));
            }
            let c = self.spec_wrapping_add(other);
            assert(c@ == le_wrapping_add(self@, other@));
            vstd::array::axiom_array_ext_equal(c.0, r.0);
        }
        r
    }
}

impl View for U512 {
    type V = Seq<u8>;

    open spec fn view(&self) -> Seq<u8> {
        self.0@
    }
}

impl U512 {
    pub open spec fn value(self) -> nat {
        le_value(self.0@)
    }

    /// The wrapping sum, as a number of this width.
    pub open spec fn spec_wrapping_add(self, other: U512) -> U512 {
        choose|r: U512| r@ == le_wrapping_add(self@, other@)
    }

    /// The wrapping sum holds the wrapping sum of the bytes.
    pub proof fn lemma_spec_wrapping_add(self, other: U512)
        ensures
            self.spec_wrapping_add(other)@ == le_wrapping_add(self@, other@),
    {
        lemma_le_wrapping_add(self@, other@);
        lemma_array_exists::<64>(le_wrapping_add(self@, other@));
        let a = choose|a: [u8; 64]| #[trigger] a@ == le_wrapping_add(self@, other@);
        assert(U512(a)@ == le_wrapping_add(self@, other@));
    }

    /// Adds, wrapping at `2^512`.
    #[verifier::when_used_as_spec(spec_wrapping_add)]
    pub fn wrapping_add(self, other: U512) -> (r: U512)
        ensures
            r.value() == (self.value() + other.value()) % pow256(64),
            r@ == le_wrapping_add(self@, other@),
            r == self.spec_wrapping_add(other),
    {
        let r = U512(add_le(&self.0, &other.0));
        proof {
            assert(exists|x: U512| #[trigger] x@ == le_wrapping_add(self@, other@)) by {
                assert(r@ == le_wrapping_add(self@, other@));
            }
            let c = self.spec_wrapping_add(other);
            assert(c@ == le_wrapping_add(self@, other@));
            vstd::array::axiom_array_ext_equal(c.0, r.0);
        }
        r
    }
}

} // verus!
