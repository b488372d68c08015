use vstd::prelude::*;
use vstd::utf8::*;

verus! {

/// Failures of the canonical byte encoding.
#[derive(PartialEq, Eq, Structural, Clone, Copy, Debug)]
pub enum Error {
    EarlyEndOfStream,
    FormattingError,
    LeftOverBytes,
    OutOfMemoryError,
}

pub const U32_SIZE: usize = 4;

/// A type with a canonical encoding, stated over its view.
pub trait ToBytes: View + Sized {
    /// The encoding of a value.
    spec fn enc(v: Self::V) -> Seq<u8>;

    /// Whether a value can be encoded: its length prefixes fit in a `u32`.
    spec fn fits(v: Self::V) -> bool;

    fn to_bytes(&self) -> (r: Result<Vec<u8>, Error>)
        ensures
            match r {
                Ok(b) => Self::fits(self@) && b@ == Self::enc(self@),
                Err(e) => !Self::fits(self@) && e == Error::OutOfMemoryError,
            },
    ;
}

/// A type that can be read back from its canonical encoding.
pub trait FromBytes: ToBytes {
    /// Reads a value from the start of `b`; gives it and how many bytes it took.
    spec fn dec(b: Seq<u8>) -> Option<(Self::V, int)>;

    fn from_bytes(bytes: &[u8], pos: usize) -> (r: Result<(Self, usize), Error>)
        requires
            pos <= bytes@.len(),
        ensures
            match r {
                Ok((v, end)) => Self::dec(bytes@.subrange(pos as int, bytes@.len() as int))
                    == Some((v@, end - pos)) && end <= bytes@.len(),
                Err(_) => Self::dec(bytes@.subrange(pos as int, bytes@.len() as int)) is None,
            },
    ;

    /// Decoding an encoding, whatever follows it, gives the value back.
    proof fn lemma_round_trip(v: Self::V, rest: Seq<u8>)
        requires
            Self::fits(v),
        ensures
            Self::dec(Self::enc(v) + rest) == Some((v, Self::enc(v).len() as int)),
    ;

    /// What the decoder took is the encoding of what it gave.
    proof fn lemma_prefix(b: Seq<u8>, v: Self::V, n: int)
        requires
            Self::dec(b) == Some((v, n)),
        ensures
            0 <= n <= b.len(),
            b.subrange(0, n) == Self::enc(v),
            Self::fits(v),
    ;
}

/// The value that `b` encodes with nothing left over.
pub open spec fn dec_whole<T: FromBytes>(b: Seq<u8>) -> Option<T::V> {
    match T::dec(b) {
        Some((v, n)) => if n == b.len() {
            Some(v)
        } else {
            None
        },
        None => None,
    }
}

/// Reads a value that takes the whole of `bytes`.
pub fn deserialize<T: FromBytes>(bytes: &[u8]) -> (r: Result<T, Error>)
    ensures
        match r {
            Ok(v) => dec_whole::<T>(bytes@) == Some(v@),
            Err(e) => dec_whole::<T>(bytes@) is None && (T::dec(bytes@) is Some ==> e
                == Error::LeftOverBytes),
        },
{
    assert(bytes@.subrange(0, bytes@.len() as int) =~= bytes@);
    let (v, end) = T::from_bytes(bytes, 0)?;
    if end != bytes.len() {
        return Err(Error::LeftOverBytes);
    }
    Ok(v)
}

// ---------------------------------------------------------------- integers

pub open spec fn u32_le(v: u32) -> Seq<u8> {
    seq![
        (v & 0xff) as u8,
        ((v >> 8u32) & 0xff) as u8,
        ((v >> 16u32) & 0xff) as u8,
        ((v >> 24u32) & 0xff) as u8,
    ]
}

pub open spec fn u32_from_le(b: Seq<u8>) -> u32
    recommends
        b.len() >= 4,
{
    (b[0] as u32) | ((b[1] as u32) << 8u32) | ((b[2] as u32) << 16u32) | ((b[3] as u32) << 24u32)
}

pub open spec fn u64_le(v: u64) -> Seq<u8> {
    u32_le((v & 0xffff_ffff) as u32) + u32_le((v >> 32u64) as u32)
}

pub open spec fn u64_from_le(b: Seq<u8>) -> u64
    recommends
        b.len() >= 8,
{
    (u32_from_le(b) as u64) | ((u32_from_le(b.subrange(4, 8)) as u64) << 32u64)
}

pub proof fn lemma_u32_round_trip(v: u32)
    ensures
        u32_from_le(u32_le(v)) == v,
{
    let b0 = (v & 0xff) as u8;
    let b1 = ((v >> 8u32) & 0xff) as u8;
    let b2 = ((v >> 16u32) & 0xff) as u8;
    let b3 = ((v >> 24u32) & 0xff) as u8;
    assert((b0 as u32) | ((b1 as u32) << 8u32) | ((b2 as u32) << 16u32) | ((b3 as u32) << 24u32)
        == v) by (bit_vector)
        requires
            b0 == (v & 0xff) as u8,
            b1 == ((v >> 8u32) & 0xff) as u8,
            b2 == ((v >> 16u32) & 0xff) as u8,
            b3 == ((v >> 24u32) & 0xff) as u8,
    ;
}

pub proof fn lemma_u32_from_le_prefix(b: Seq<u8>, rest: Seq<u8>)
    requires
        b.len() >= 4,
    ensures
        u32_from_le(b + rest) == u32_from_le(b),
{
}

pub proof fn lemma_u64_round_trip(v: u64)
    ensures
        u64_from_le(u64_le(v)) == v,
{
    let lo = (v & 0xffff_ffff) as u32;
    let hi = (v >> 32u64) as u32;
    lemma_u32_round_trip(lo);
    lemma_u32_round_trip(hi);
    assert(u64_le(v).subrange(4, 8) =~= u32_le(hi));
    assert(u32_from_le(u64_le(v)) == u32_from_le(u32_le(lo)));
    assert(((lo as u64) | ((hi as u64) << 32u64)) == v) by (bit_vector)
        requires
            lo == (v & 0xffff_ffff) as u32,
            hi == (v >> 32u64) as u32,
    ;
}

/// Appends the little-endian bytes of a `u32`.
pub fn write_u32(out: &mut Vec<u8>, v: u32)
    ensures
        final(out)@ == old(out)@ + u32_le(v),
{
    out.push((v & 0xff) as u8);
    out.push(((v >> 8u32) & 0xff) as u8);
    out.push(((v >> 16u32) & 0xff) as u8);
    out.push(((v >> 24u32) & 0xff) as u8);
    assert(final(out)@ =~= old(out)@ + u32_le(v));
}

/// Appends the little-endian bytes of a `u64`.
pub fn write_u64(out: &mut Vec<u8>, v: u64)
    ensures
        final(out)@ == old(out)@ + u64_le(v),
{
    write_u32(out, (v & 0xffff_ffff) as u32);
    write_u32(out, (v >> 32u64) as u32);
    assert(out@ =~= old(out)@ + u64_le(v));
}


/// Appends every byte of `s`.
pub fn write_raw(out: &mut Vec<u8>, s: &[u8])
    ensures
        final(out)@ == old(out)@ + s@,
{
    let mut i: usize = 0;
    while i < s.len()
        invariant
            0 <= i <= s@.len(),
            out@ == old(out)@ + s@.subrange(0, i as int),
        decreases s@.len() - i,
    {
        out.push(s[i]);
        i = i + 1;
        assert(out@ =~= old(out)@ + s@.subrange(0, i as int));
    }
    assert(s@.subrange(0, s@.len() as int) =~= s@);
}

// ---------------------------------------------------------------- spec decoders
//
// A decoder takes the bytes that remain and gives the value read and how many
// bytes it took, or `None` where the bytes hold no such value.

pub open spec fn dec_u8(b: Seq<u8>) -> Option<(u8, int)> {
    if b.len() >= 1 {
        Some((b[0], 1))
    } else {
        None
    }
}

pub open spec fn dec_u32(b: Seq<u8>) -> Option<(u32, int)> {
    if b.len() >= 4 {
        Some((u32_from_le(b), 4))
    } else {
        None
    }
}

pub open spec fn enc_i32(v: i32) -> Seq<u8> {
    u32_le(v as u32)
}

pub open spec fn dec_i32(b: Seq<u8>) -> Option<(i32, int)> {
    if b.len() >= 4 {
        Some((u32_from_le(b) as i32, 4))
    } else {
        None
    }
}

pub open spec fn dec_u64(b: Seq<u8>) -> Option<(u64, int)> {
    if b.len() >= 8 {
        Some((u64_from_le(b), 8))
    } else {
        None
    }
}

/// A byte string: its length as a `u32`, then the bytes.
pub open spec fn enc_bytes(s: Seq<u8>) -> Seq<u8> {
    u32_le(s.len() as u32) + s
}

pub open spec fn dec_bytes(b: Seq<u8>) -> Option<(Seq<u8>, int)> {
    if b.len() >= 4 && b.len() >= 4 + u32_from_le(b) {
        Some((b.subrange(4, 4 + u32_from_le(b)), 4 + u32_from_le(b)))
    } else {
        None
    }
}

/// A string: its UTF-8 bytes as a byte string.
pub open spec fn enc_string(s: Seq<char>) -> Seq<u8> {
    enc_bytes(encode_utf8(s))
}

pub open spec fn dec_string(b: Seq<u8>) -> Option<(Seq<char>, int)> {
    match dec_bytes(b) {
        Some((raw, n)) => if valid_utf8(raw) {
            Some((decode_utf8(raw), n))
        } else {
            None
        },
        None => None,
    }
}

pub open spec fn fits_u32(n: int) -> bool {
    0 <= n <= u32::MAX
}

// ---------------------------------------------------------------- round trips

pub proof fn lemma_u32_dec(v: u32, rest: Seq<u8>)
    ensures
        dec_u32(u32_le(v) + rest) == Some((v, 4int)),
{
    lemma_u32_round_trip(v);
    lemma_u32_from_le_prefix(u32_le(v), rest);
}

pub proof fn lemma_i32_dec(v: i32, rest: Seq<u8>)
    ensures
        dec_i32(enc_i32(v) + rest) == Some((v, 4int)),
{
    lemma_u32_dec(v as u32, rest);
    assert((v as u32) as i32 == v) by (bit_vector);
}

pub proof fn lemma_u64_dec(v: u64, rest: Seq<u8>)
    ensures
        dec_u64(u64_le(v) + rest) == Some((v, 8int)),
{
    lemma_u64_round_trip(v);
    let b = u64_le(v);
    lemma_u32_from_le_prefix(b, rest);
    assert((b + rest).subrange(4, 8) =~= b.subrange(4, 8));
}

pub proof fn lemma_bytes_dec(s: Seq<u8>, rest: Seq<u8>)
    requires
        fits_u32(s.len() as int),
    ensures
        dec_bytes(enc_bytes(s) + rest) == Some((s, enc_bytes(s).len() as int)),
{
    lemma_u32_dec(s.len() as u32, s + rest);
    assert(enc_bytes(s) + rest =~= u32_le(s.len() as u32) + (s + rest));
    assert((enc_bytes(s) + rest).subrange(4, 4 + s.len() as int) =~= s);
}

pub proof fn lemma_string_dec(s: Seq<char>, rest: Seq<u8>)
    requires
        fits_u32(encode_utf8(s).len() as int),
    ensures
        dec_string(enc_string(s) + rest) == Some((s, enc_string(s).len() as int)),
{
    lemma_bytes_dec(encode_utf8(s), rest);
    encode_utf8_valid_utf8(s);
    encode_utf8_decode_utf8(s);
}

/// What a decoder took is the encoding of what it gave.
pub proof fn lemma_bytes_dec_prefix(b: Seq<u8>, v: Seq<u8>, n: int)
    requires
        dec_bytes(b) == Some((v, n)),
    ensures
        b.subrange(0, n) == enc_bytes(v),
{
    let n = u32_from_le(b);
    let raw = b.subrange(4, 4 + n);
    assert(raw.len() == n);
    assert(b.subrange(0, 4) + rest_of(b, 4) =~= b);
    lemma_u32_le_of_from_le(b);
    assert(b.subrange(0, 4 + n) =~= u32_le(n) + raw);
}

spec fn rest_of(b: Seq<u8>, i: int) -> Seq<u8> {
    b.subrange(i, b.len() as int)
}

pub proof fn lemma_u32_le_of_from_le(b: Seq<u8>)
    requires
        b.len() >= 4,
    ensures
        u32_le(u32_from_le(b)) == b.subrange(0, 4),
{
    let b0 = b[0];
    let b1 = b[1];
    let b2 = b[2];
    let b3 = b[3];
    let v = u32_from_le(b);
    assert((v & 0xff) as u8 == b0 && ((v >> 8u32) & 0xff) as u8 == b1 && ((v >> 16u32) & 0xff) as u8
        == b2 && ((v >> 24u32) & 0xff) as u8 == b3) by (bit_vector)
        requires
            v == (b0 as u32) | ((b1 as u32) << 8u32) | ((b2 as u32) << 16u32) | ((b3 as u32)
                << 24u32),
    ;
    assert(u32_le(v) =~= b.subrange(0, 4));
}

// ---------------------------------------------------------------- exec readers

/// Reads one byte at `pos`.
pub fn read_u8(bytes: &[u8], pos: usize) -> (r: Result<(u8, usize), Error>)
    requires
        pos <= bytes@.len(),
    ensures
        match r {
            Ok((v, end)) => dec_u8(bytes@.subrange(pos as int, bytes@.len() as int)) == Some(
                (v, end - pos),
            ) && end <= bytes@.len(),
            Err(e) => dec_u8(bytes@.subrange(pos as int, bytes@.len() as int)) is None && e
                == Error::EarlyEndOfStream,
        },
{
    if pos < bytes.len() {
        Ok((bytes[pos], pos + 1))
    } else {
        Err(Error::EarlyEndOfStream)
    }
}

/// Reads a little-endian `u32` at `pos`.
pub fn read_u32(bytes: &[u8], pos: usize) -> (r: Result<(u32, usize), Error>)
    requires
        pos <= bytes@.len(),
    ensures
        match r {
            Ok((v, end)) => dec_u32(bytes@.subrange(pos as int, bytes@.len() as int)) == Some(
                (v, end - pos),
            ) && end <= bytes@.len(),
            Err(e) => dec_u32(bytes@.subrange(pos as int, bytes@.len() as int)) is None && e
                == Error::EarlyEndOfStream,
        },
{
    if bytes.len() - pos < 4 {
        return Err(Error::EarlyEndOfStream);
    }
    let v = (bytes[pos] as u32) | ((bytes[pos + 1] as u32) << 8u32) | ((bytes[pos + 2] as u32)
        << 16u32) | ((bytes[pos + 3] as u32) << 24u32);
    Ok((v, pos + 4))
}

/// Reads a little-endian `i32` at `pos`.
pub fn read_i32(bytes: &[u8], pos: usize) -> (r: Result<(i32, usize), Error>)
    requires
        pos <= bytes@.len(),
    ensures
        match r {
            Ok((v, end)) => dec_i32(bytes@.subrange(pos as int, bytes@.len() as int)) == Some(
                (v, end - pos),
            ) && end <= bytes@.len(),
            Err(e) => dec_i32(bytes@.subrange(pos as int, bytes@.len() as int)) is None && e
                == Error::EarlyEndOfStream,
        },
{
    let (v, end) = read_u32(bytes, pos)?;
    Ok((v as i32, end))
}

/// Reads a little-endian `u64` at `pos`.
pub fn read_u64(bytes: &[u8], pos: usize) -> (r: Result<(u64, usize), Error>)
    requires
        pos <= bytes@.len(),
    ensures
        match r {
            Ok((v, end)) => dec_u64(bytes@.subrange(pos as int, bytes@.len() as int)) == Some(
                (v, end - pos),
            ) && end <= bytes@.len(),
            Err(e) => dec_u64(bytes@.subrange(pos as int, bytes@.len() as int)) is None && e
                == Error::EarlyEndOfStream,
        },
{
    if bytes.len() - pos < 8 {
        return Err(Error::EarlyEndOfStream);
    }
    let (lo, p) = read_u32(bytes, pos)?;
    let (hi, end) = read_u32(bytes, p)?;
    let ghost b = bytes@.subrange(pos as int, bytes@.len() as int);
    assert(b.subrange(4, 8) =~= bytes@.subrange(p as int, bytes@.len() as int).subrange(0, 4));
    assert(u32_from_le(b.subrange(4, 8)) == u32_from_le(bytes@.subrange(p as int, bytes@.len() as int)));
    Ok(((lo as u64) | ((hi as u64) << 32u64), end))
}

/// Reads a length-prefixed byte string at `pos`.
pub fn read_bytes(bytes: &[u8], pos: usize) -> (r: Result<(Vec<u8>, usize), Error>)
    requires
        pos <= bytes@.len(),
    ensures
        match r {
            Ok((v, end)) => dec_bytes(bytes@.subrange(pos as int, bytes@.len() as int)) == Some(
                (v@, end - pos),
            ) && end <= bytes@.len(),
            Err(e) => dec_bytes(bytes@.subrange(pos as int, bytes@.len() as int)) is None && e
                == Error::EarlyEndOfStream,
        },
{
    let (n, p) = read_u32(bytes, pos)?;
    if bytes.len() - p < n as usize {
        return Err(Error::EarlyEndOfStream);
    }
    let end = p + n as usize;
    let v = vstd::slice::slice_to_vec(vstd::slice::slice_subrange(bytes, p, end));
    assert(v@ =~= bytes@.subrange(pos as int, bytes@.len() as int).subrange(4, 4 + n));
    Ok((v, end))
}

/// Relies on `String::from_utf8`: it succeeds exactly on valid UTF-8, and then
/// holds the characters that the bytes encode.
#[verifier::external_body]
fn string_from_utf8(v: Vec<u8>) -> (r: Option<String>)
    ensures
        match r {
            Some(s) => valid_utf8(v@) && s@ == decode_utf8(v@),
            None => !valid_utf8(v@),
        },
{
    String::from_utf8(v).ok()
}

/// Reads a length-prefixed UTF-8 string at `pos`.
pub fn read_string(bytes: &[u8], pos: usize) -> (r: Result<(String, usize), Error>)
    requires
        pos <= bytes@.len(),
    ensures
        match r {
            Ok((v, end)) => dec_string(bytes@.subrange(pos as int, bytes@.len() as int)) == Some(
                (v@, end - pos),
            ) && end <= bytes@.len(),
            Err(e) => dec_string(bytes@.subrange(pos as int, bytes@.len() as int)) is None && (e
                == Error::EarlyEndOfStream || e == Error::FormattingError),
        },
{
    let (raw, end) = read_bytes(bytes, pos)?;
    match string_from_utf8(raw) {
        Some(s) => Ok((s, end)),
        None => Err(Error::FormattingError),
    }
}

// ---------------------------------------------------------------- exec writers

/// Appends a length-prefixed byte string.
pub fn write_bytes(out: &mut Vec<u8>, s: &[u8]) -> (r: Result<(), Error>)
    ensures
        match r {
            Ok(()) => fits_u32(s@.len() as int) && final(out)@ == old(out)@ + enc_bytes(s@),
            Err(e) => !fits_u32(s@.len() as int) && e == Error::OutOfMemoryError && final(out)@
                == old(out)@,
        },
{
    if s.len() > u32::MAX as usize {
        return Err(Error::OutOfMemoryError);
    }
    write_u32(out, s.len() as u32);
    write_raw(out, s);
    assert(out@ =~= old(out)@ + enc_bytes(s@));
    Ok(())
}

/// Appends a length-prefixed UTF-8 string.
pub fn write_string(out: &mut Vec<u8>, s: &String) -> (r: Result<(), Error>)
    ensures
        match r {
            Ok(()) => fits_u32(encode_utf8(s@).len() as int) && final(out)@ == old(out)@
                + enc_string(s@),
            Err(e) => !fits_u32(encode_utf8(s@).len() as int) && e == Error::OutOfMemoryError
                && final(out)@ == old(out)@,
        },
{
    write_bytes(out, s.as_str().as_bytes())
}

} // verus!
