use vstd::prelude::*;
use vstd::utf8::*;

use crate::bigint::{dec_big, enc_big, read_big, write_big, U128, U256, U512};
use crate::bytesrepr::{
    dec_bytes, dec_i32, dec_string, dec_u64, deserialize, dec_whole, enc_bytes, enc_i32,
    enc_string, fits_u32, read_bytes, read_i32, read_string, read_u64, u64_le, write_bytes,
    write_string, write_u32, write_u64, Error, FromBytes, ToBytes, U32_SIZE,
};
use crate::cl_type::{dec_cl_type, enc_cl_type, CLType};
use crate::key::{dec_key, enc_key, Key};

verus! {

/// The type tag that an extraction expected, and the one that the value carried.
#[derive(PartialEq, Eq, Debug)]
pub struct CLTypeMismatch {
    pub expected: CLType,
    pub found: CLType,
}

/// Why a `CLValue` could not be made or read.
#[derive(PartialEq, Eq, Debug)]
pub enum CLValueError {
    Serialization(Error),
    Type(CLTypeMismatch),
}

/// A self-describing value: a type tag and the canonical encoding of a value of that type.
#[derive(PartialEq, Eq, Debug)]
pub struct CLValue {
    cl_type: CLType,
    bytes: Vec<u8>,
}

impl View for CLValue {
    type V = (CLType, Seq<u8>);

    closed spec fn view(&self) -> (CLType, Seq<u8>) {
        (self.cl_type, self.bytes@)
    }
}

/// A `CLValue`'s wire form: its bytes as a byte string, then its type tag.
pub open spec fn enc_cl_value(v: (CLType, Seq<u8>)) -> Seq<u8> {
    enc_bytes(v.1) + enc_cl_type(v.0)
}

pub open spec fn dec_cl_value(b: Seq<u8>) -> Option<((CLType, Seq<u8>), int)> {
    match dec_bytes(b) {
        Some((raw, n)) => if 0 <= n <= b.len() {
            match dec_cl_type(b.subrange(n, b.len() as int)) {
                Some((t, m)) => Some(((t, raw), n + m)),
                None => None,
            }
        } else {
            None
        },
        None => None,
    }
}

/// What `into_t` gives for a value of view `v` and a target type `T`: a type
/// mismatch where the tags differ; else the value that the bytes hold whole, or
/// a decoding failure, which is `LeftOverBytes` where a value is followed by more.
pub open spec fn into_t_matches<T: CLTyped>(v: (CLType, Seq<u8>), r: Result<T, CLValueError>) -> bool {
    if v.0 != T::spec_cl_type() {
        r == Err::<T, CLValueError>(
            CLValueError::Type(CLTypeMismatch { expected: T::spec_cl_type(), found: v.0 }),
        )
    } else {
        match r {
            Ok(x) => dec_whole::<T>(v.1) == Some(x@),
            Err(e) => dec_whole::<T>(v.1) is None && e is Serialization && (T::dec(v.1) is Some
                ==> e == CLValueError::Serialization(Error::LeftOverBytes)),
        }
    }
}

impl CLValue {
    /// Encodes `t` and attaches its type tag.
    pub fn from_t<T: CLTyped>(t: T) -> (r: Result<CLValue, CLValueError>)
        ensures
            match r {
                Ok(v) => T::fits(t@) && v@ == (T::spec_cl_type(), T::enc(t@)),
                Err(e) => !T::fits(t@) && e == CLValueError::Serialization(Error::OutOfMemoryError),
            },
    {
        match t.to_bytes() {
            Ok(bytes) => Ok(CLValue { cl_type: T::cl_type(), bytes }),
            Err(e) => Err(CLValueError::Serialization(e)),
        }
    }

    /// Reads the value back as a `T`: the tag must be `T`'s, and the bytes must
    /// hold exactly one value of `T`.
    pub fn into_t<T: CLTyped>(self) -> (r: Result<T, CLValueError>)
        ensures
            into_t_matches::<T>(self@, r),
    {
        let expected = T::cl_type();
        if self.cl_type.same(&expected) {
            match deserialize::<T>(self.bytes.as_slice()) {
                Ok(v) => Ok(v),
                Err(e) => {
                    proof {
                        if let Some((x, n)) = T::dec(self.bytes@) {
                            T::lemma_prefix(self.bytes@, x, n);
                        }
                    }
                    Err(CLValueError::Serialization(e))
                },
            }
        } else {
            Err(CLValueError::Type(CLTypeMismatch { expected, found: self.cl_type }))
        }
    }

    pub fn from_components(cl_type: CLType, bytes: Vec<u8>) -> (r: CLValue)
        ensures
            r@ == (cl_type, bytes@),
    {
        CLValue { cl_type, bytes }
    }

    pub fn into_components(self) -> (r: (CLType, Vec<u8>))
        ensures
            r.0 == self@.0 && r.1@ == self@.1,
    {
        (self.cl_type, self.bytes)
    }

    pub fn cl_type(&self) -> (r: &CLType)
        ensures
            *r == self@.0,
    {
        &self.cl_type
    }

    /// The bytes of the carried value.
    pub fn inner_bytes(&self) -> (r: &Vec<u8>)
        ensures
            r@ == self@.1,
    {
        &self.bytes
    }

    /// The exact length of this value's wire form.
    pub fn serialized_len(&self) -> (r: usize)
        requires
            enc_cl_type(self@.0).len() + U32_SIZE + self@.1.len() <= usize::MAX,
        ensures
            r == enc_cl_type(self@.0).len() + U32_SIZE + self@.1.len(),
    {
        self.cl_type.to_bytes().len() + U32_SIZE + self.bytes.len()
    }

    /// A copy of this value.
    pub fn copy(&self) -> (r: CLValue)
        ensures
            r@ == self@,
    {
        CLValue { cl_type: self.cl_type.copy(), bytes: self.bytes.clone() }
    }
}

impl Clone for CLValue {
    fn clone(&self) -> (r: CLValue)
        ensures
            r@ == self@,
    {
        self.copy()
    }
}

impl ToBytes for CLValue {
    open spec fn enc(v: (CLType, Seq<u8>)) -> Seq<u8> {
        enc_cl_value(v)
    }

    open spec fn fits(v: (CLType, Seq<u8>)) -> bool {
        fits_u32(v.1.len() as int)
    }

    fn to_bytes(&self) -> (r: Result<Vec<u8>, Error>) {
        let mut out: Vec<u8> = Vec::new();
        write_bytes(&mut out, self.bytes.as_slice())?;
        self.cl_type.append_bytes(&mut out);
        assert(out@ =~= enc_cl_value(self@));
        Ok(out)
    }
}

impl FromBytes for CLValue {
    open spec fn dec(b: Seq<u8>) -> Option<((CLType, Seq<u8>), int)> {
        dec_cl_value(b)
    }

    fn from_bytes(bytes: &[u8], pos: usize) -> (r: Result<(CLValue, usize), Error>) {
        let ghost b = bytes@.subrange(pos as int, bytes@.len() as int);
        let (raw, p) = read_bytes(bytes, pos)?;
        assert(b.subrange(p - pos, b.len() as int) =~= bytes@.subrange(p as int, bytes@.len() as int));
        let (t, end) = CLType::read_bytes(bytes, p)?;
        Ok((CLValue { cl_type: t, bytes: raw }, end))
    }

    proof fn lemma_round_trip(v: (CLType, Seq<u8>), rest: Seq<u8>) {
        let b = enc_bytes(v.1) + enc_cl_type(v.0) + rest;
        assert(b =~= enc_bytes(v.1) + (enc_cl_type(v.0) + rest));
        crate::bytesrepr::lemma_bytes_dec(v.1, enc_cl_type(v.0) + rest);
        let n = enc_bytes(v.1).len() as int;
        assert(b.subrange(n, b.len() as int) =~= enc_cl_type(v.0) + rest);
        crate::cl_type::lemma_cl_type_round_trip(v.0, rest);
    }

    proof fn lemma_prefix(b: Seq<u8>, v: (CLType, Seq<u8>), n: int) {
        let (raw, m) = dec_bytes(b)->0;
        crate::bytesrepr::lemma_bytes_dec_prefix(b, raw, m);
        let r = b.subrange(m, b.len() as int);
        let (t, l) = dec_cl_type(r)->0;
        crate::cl_type::lemma_cl_type_prefix(r, t, l);
        assert(b.subrange(0, n) =~= b.subrange(0, m) + r.subrange(0, l));
    }
}

/// A type whose values a `CLValue` can carry, under a fixed type tag.
pub trait CLTyped: FromBytes {
    spec fn spec_cl_type() -> CLType;

    fn cl_type() -> (r: CLType)
        ensures
            r == Self::spec_cl_type(),
    ;
}

// ---------------------------------------------------------------- i32

impl ToBytes for i32 {
    open spec fn enc(v: i32) -> Seq<u8> {
        enc_i32(v)
    }

    open spec fn fits(v: i32) -> bool {
        true
    }

    fn to_bytes(&self) -> (r: Result<Vec<u8>, Error>) {
        let mut out: Vec<u8> = Vec::new();
        write_u32(&mut out, *self as u32);
        assert(out@ =~= enc_i32(*self));
        Ok(out)
    }
}

impl FromBytes for i32 {
    open spec fn dec(b: Seq<u8>) -> Option<(i32, int)> {
        dec_i32(b)
    }

    fn from_bytes(bytes: &[u8], pos: usize) -> (r: Result<(i32, usize), Error>) {
        read_i32(bytes, pos)
    }

    proof fn lemma_round_trip(v: i32, rest: Seq<u8>) {
        crate::bytesrepr::lemma_i32_dec(v, rest);
    }

    proof fn lemma_prefix(b: Seq<u8>, v: i32, n: int) {
        let u = crate::bytesrepr::u32_from_le(b);
        crate::bytesrepr::lemma_u32_le_of_from_le(b);
        assert((u as i32) as u32 == u) by (bit_vector);
    }
}

impl CLTyped for i32 {
    open spec fn spec_cl_type() -> CLType {
        CLType::I32
    }

    fn cl_type() -> (r: CLType) {
        CLType::I32
    }
}

// ---------------------------------------------------------------- u64

impl ToBytes for u64 {
    open spec fn enc(v: u64) -> Seq<u8> {
        u64_le(v)
    }

    open spec fn fits(v: u64) -> bool {
        true
    }

    fn to_bytes(&self) -> (r: Result<Vec<u8>, Error>) {
        let mut out: Vec<u8> = Vec::new();
        write_u64(&mut out, *self);
        assert(out@ =~= u64_le(*self));
        Ok(out)
    }
}

impl FromBytes for u64 {
    open spec fn dec(b: Seq<u8>) -> Option<(u64, int)> {
        dec_u64(b)
    }

    fn from_bytes(bytes: &[u8], pos: usize) -> (r: Result<(u64, usize), Error>) {
        read_u64(bytes, pos)
    }

    proof fn lemma_round_trip(v: u64, rest: Seq<u8>) {
        crate::bytesrepr::lemma_u64_dec(v, rest);
    }

    proof fn lemma_prefix(b: Seq<u8>, v: u64, n: int) {
        let lo = crate::bytesrepr::u32_from_le(b);
        let hi = crate::bytesrepr::u32_from_le(b.subrange(4, 8));
        crate::bytesrepr::lemma_u32_le_of_from_le(b);
        crate::bytesrepr::lemma_u32_le_of_from_le(b.subrange(4, 8));
        assert(((v & 0xffff_ffff) as u32) == lo && ((v >> 32u64) as u32) == hi) by (bit_vector)
            requires
                v == (lo as u64) | ((hi as u64) << 32u64),
        ;
        assert(b.subrange(0, 8) =~= b.subrange(0, 4) + b.subrange(4, 8).subrange(0, 4));
    }
}

impl CLTyped for u64 {
    open spec fn spec_cl_type() -> CLType {
        CLType::U64
    }

    fn cl_type() -> (r: CLType) {
        CLType::U64
    }
}


// ---------------------------------------------------------------- bool, u8, u32, i64, unit

impl ToBytes for bool {
    open spec fn enc(v: bool) -> Seq<u8> {
        seq![if v { 1u8 } else { 0u8 }]
    }

    open spec fn fits(v: bool) -> bool {
        true
    }

    fn to_bytes(&self) -> (r: Result<Vec<u8>, Error>) {
        let mut out: Vec<u8> = Vec::new();
        out.push(if *self { 1u8 } else { 0u8 });
        assert(out@ =~= Self::enc(*self));
        Ok(out)
    }
}

impl FromBytes for bool {
    open spec fn dec(b: Seq<u8>) -> Option<(bool, int)> {
        if b.len() >= 1 && b[0] <= 1 {
            Some((b[0] == 1, 1))
        } else {
            None
        }
    }

    fn from_bytes(bytes: &[u8], pos: usize) -> (r: Result<(bool, usize), Error>) {
        let (b, end) = crate::bytesrepr::read_u8(bytes, pos)?;
        if b > 1 {
            return Err(Error::FormattingError);
        }
        Ok((b == 1, end))
    }

    proof fn lemma_round_trip(v: bool, rest: Seq<u8>) {
    }

    proof fn lemma_prefix(b: Seq<u8>, v: bool, n: int) {
        assert(b.subrange(0, 1) =~= seq![b[0]]);
    }
}

impl CLTyped for bool {
    open spec fn spec_cl_type() -> CLType {
        CLType::Bool
    }

    fn cl_type() -> (r: CLType) {
        CLType::Bool
    }
}

impl ToBytes for u8 {
    open spec fn enc(v: u8) -> Seq<u8> {
        seq![v]
    }

    open spec fn fits(v: u8) -> bool {
        true
    }

    fn to_bytes(&self) -> (r: Result<Vec<u8>, Error>) {
        let mut out: Vec<u8> = Vec::new();
        out.push(*self);
        assert(out@ =~= seq![*self]);
        Ok(out)
    }
}

impl FromBytes for u8 {
    open spec fn dec(b: Seq<u8>) -> Option<(u8, int)> {
        crate::bytesrepr::dec_u8(b)
    }

    fn from_bytes(bytes: &[u8], pos: usize) -> (r: Result<(u8, usize), Error>) {
        crate::bytesrepr::read_u8(bytes, pos)
    }

    proof fn lemma_round_trip(v: u8, rest: Seq<u8>) {
    }

    proof fn lemma_prefix(b: Seq<u8>, v: u8, n: int) {
        assert(b.subrange(0, 1) =~= seq![b[0]]);
    }
}

impl CLTyped for u8 {
    open spec fn spec_cl_type() -> CLType {
        CLType::U8
    }

    fn cl_type() -> (r: CLType) {
        CLType::U8
    }
}

impl ToBytes for u32 {
    open spec fn enc(v: u32) -> Seq<u8> {
        crate::bytesrepr::u32_le(v)
    }

    open spec fn fits(v: u32) -> bool {
        true
    }

    fn to_bytes(&self) -> (r: Result<Vec<u8>, Error>) {
        let mut out: Vec<u8> = Vec::new();
        write_u32(&mut out, *self);
        assert(out@ =~= crate::bytesrepr::u32_le(*self));
        Ok(out)
    }
}

impl FromBytes for u32 {
    open spec fn dec(b: Seq<u8>) -> Option<(u32, int)> {
        crate::bytesrepr::dec_u32(b)
    }

    fn from_bytes(bytes: &[u8], pos: usize) -> (r: Result<(u32, usize), Error>) {
        crate::bytesrepr::read_u32(bytes, pos)
    }

    proof fn lemma_round_trip(v: u32, rest: Seq<u8>) {
        crate::bytesrepr::lemma_u32_dec(v, rest);
    }

    proof fn lemma_prefix(b: Seq<u8>, v: u32, n: int) {
        crate::bytesrepr::lemma_u32_le_of_from_le(b);
    }
}

impl CLTyped for u32 {
    open spec fn spec_cl_type() -> CLType {
        CLType::U32
    }

    fn cl_type() -> (r: CLType) {
        CLType::U32
    }
}

impl ToBytes for i64 {
    open spec fn enc(v: i64) -> Seq<u8> {
        u64_le(v as u64)
    }

    open spec fn fits(v: i64) -> bool {
        true
    }

    fn to_bytes(&self) -> (r: Result<Vec<u8>, Error>) {
        let mut out: Vec<u8> = Vec::new();
        write_u64(&mut out, *self as u64);
        assert(out@ =~= u64_le(*self as u64));
        Ok(out)
    }
}

impl FromBytes for i64 {
    open spec fn dec(b: Seq<u8>) -> Option<(i64, int)> {
        match dec_u64(b) {
            Some((x, n)) => Some((x as i64, n)),
            None => None,
        }
    }

    fn from_bytes(bytes: &[u8], pos: usize) -> (r: Result<(i64, usize), Error>) {
        let (x, end) = read_u64(bytes, pos)?;
        Ok((x as i64, end))
    }

    proof fn lemma_round_trip(v: i64, rest: Seq<u8>) {
        crate::bytesrepr::lemma_u64_dec(v as u64, rest);
        assert((v as u64) as i64 == v) by (bit_vector);
    }

    proof fn lemma_prefix(b: Seq<u8>, v: i64, n: int) {
        let x = crate::bytesrepr::u64_from_le(b);
        <u64 as FromBytes>::lemma_prefix(b, x, 8);
        assert((x as i64) as u64 == x) by (bit_vector);
    }
}

impl CLTyped for i64 {
    open spec fn spec_cl_type() -> CLType {
        CLType::I64
    }

    fn cl_type() -> (r: CLType) {
        CLType::I64
    }
}

impl ToBytes for () {
    open spec fn enc(v: ()) -> Seq<u8> {
        Seq::empty()
    }

    open spec fn fits(v: ()) -> bool {
        true
    }

    fn to_bytes(&self) -> (r: Result<Vec<u8>, Error>) {
        Ok(Vec::new())
    }
}

impl FromBytes for () {
    open spec fn dec(b: Seq<u8>) -> Option<((), int)> {
        Some(((), 0))
    }

    fn from_bytes(bytes: &[u8], pos: usize) -> (r: Result<((), usize), Error>) {
        Ok(((), pos))
    }

    proof fn lemma_round_trip(v: (), rest: Seq<u8>) {
    }

    proof fn lemma_prefix(b: Seq<u8>, v: (), n: int) {
        assert(b.subrange(0, 0) =~= Seq::<u8>::empty());
    }
}

impl CLTyped for () {
    open spec fn spec_cl_type() -> CLType {
        CLType::Unit
    }

    fn cl_type() -> (r: CLType) {
        CLType::Unit
    }
}

// ---------------------------------------------------------------- U128

impl ToBytes for U128 {
    open spec fn enc(v: Seq<u8>) -> Seq<u8> {
        enc_big(v)
    }

    open spec fn fits(v: Seq<u8>) -> bool {
        v.len() == 16
    }

    fn to_bytes(&self) -> (r: Result<Vec<u8>, Error>) {
        let mut out: Vec<u8> = Vec::new();
        write_big(&mut out, &self.0);
        assert(out@ =~= enc_big(self@));
        Ok(out)
    }
}

impl FromBytes for U128 {
    open spec fn dec(b: Seq<u8>) -> Option<(Seq<u8>, int)> {
        dec_big(b, 16)
    }

    fn from_bytes(bytes: &[u8], pos: usize) -> (r: Result<(U128, usize), Error>) {
        let (v, end) = read_big::<16>(bytes, pos)?;
        Ok((U128(v), end))
    }

    proof fn lemma_round_trip(v: Seq<u8>, rest: Seq<u8>) {
        crate::bigint::lemma_big_dec(v, rest);
    }

    proof fn lemma_prefix(b: Seq<u8>, v: Seq<u8>, n: int) {
        crate::bigint::lemma_big_dec_prefix(b, 16, v, n);
    }
}

impl CLTyped for U128 {
    open spec fn spec_cl_type() -> CLType {
        CLType::U128
    }

    fn cl_type() -> (r: CLType) {
        CLType::U128
    }
}

// ---------------------------------------------------------------- U256

impl ToBytes for U256 {
    open spec fn enc(v: Seq<u8>) -> Seq<u8> {
        enc_big(v)
    }

    open spec fn fits(v: Seq<u8>) -> bool {
        v.len() == 32
    }

    fn to_bytes(&self) -> (r: Result<Vec<u8>, Error>) {
        let mut out: Vec<u8> = Vec::new();
        write_big(&mut out, &self.0);
        assert(out@ =~= enc_big(self@));
        Ok(out)
    }
}

impl FromBytes for U256 {
    open spec fn dec(b: Seq<u8>) -> Option<(Seq<u8>, int)> {
        dec_big(b, 32)
    }

    fn from_bytes(bytes: &[u8], pos: usize) -> (r: Result<(U256, usize), Error>) {
        let (v, end) = read_big::<32>(bytes, pos)?;
        Ok((U256(v), end))
    }

    proof fn lemma_round_trip(v: Seq<u8>, rest: Seq<u8>) {
        crate::bigint::lemma_big_dec(v, rest);
    }

    proof fn lemma_prefix(b: Seq<u8>, v: Seq<u8>, n: int) {
        crate::bigint::lemma_big_dec_prefix(b, 32, v, n);
    }
}

impl CLTyped for U256 {
    open spec fn spec_cl_type() -> CLType {
        CLType::U256
    }

    fn cl_type() -> (r: CLType) {
        CLType::U256
    }
}

// ---------------------------------------------------------------- U512

impl ToBytes for U512 {
    open spec fn enc(v: Seq<u8>) -> Seq<u8> {
        enc_big(v)
    }

    open spec fn fits(v: Seq<u8>) -> bool {
        v.len() == 64
    }

    fn to_bytes(&self) -> (r: Result<Vec<u8>, Error>) {
        let mut out: Vec<u8> = Vec::new();
        write_big(&mut out, &self.0);
        assert(out@ =~= enc_big(self@));
        Ok(out)
    }
}

impl FromBytes for U512 {
    open spec fn dec(b: Seq<u8>) -> Option<(Seq<u8>, int)> {
        dec_big(b, 64)
    }

    fn from_bytes(bytes: &[u8], pos: usize) -> (r: Result<(U512, usize), Error>) {
        let (v, end) = read_big::<64>(bytes, pos)?;
        Ok((U512(v), end))
    }

    proof fn lemma_round_trip(v: Seq<u8>, rest: Seq<u8>) {
        crate::bigint::lemma_big_dec(v, rest);
    }

    proof fn lemma_prefix(b: Seq<u8>, v: Seq<u8>, n: int) {
        crate::bigint::lemma_big_dec_prefix(b, 64, v, n);
    }
}

impl CLTyped for U512 {
    open spec fn spec_cl_type() -> CLType {
        CLType::U512
    }

    fn cl_type() -> (r: CLType) {
        CLType::U512
    }
}

// ---------------------------------------------------------------- String

impl ToBytes for String {
    open spec fn enc(v: Seq<char>) -> Seq<u8> {
        enc_string(v)
    }

    open spec fn fits(v: Seq<char>) -> bool {
        fits_u32(encode_utf8(v).len() as int)
    }

    fn to_bytes(&self) -> (r: Result<Vec<u8>, Error>) {
        let mut out: Vec<u8> = Vec::new();
        write_string(&mut out, self)?;
        assert(out@ =~= enc_string(self@));
        Ok(out)
    }
}

impl FromBytes for String {
    open spec fn dec(b: Seq<u8>) -> Option<(Seq<char>, int)> {
        dec_string(b)
    }

    fn from_bytes(bytes: &[u8], pos: usize) -> (r: Result<(String, usize), Error>) {
        read_string(bytes, pos)
    }

    proof fn lemma_round_trip(v: Seq<char>, rest: Seq<u8>) {
        crate::bytesrepr::lemma_string_dec(v, rest);
    }

    proof fn lemma_prefix(b: Seq<u8>, v: Seq<char>, n: int) {
        let (raw, m) = dec_bytes(b)->0;
        crate::bytesrepr::lemma_bytes_dec_prefix(b, raw, m);
        decode_utf8_encode_utf8(raw);
    }
}

impl CLTyped for String {
    open spec fn spec_cl_type() -> CLType {
        CLType::String
    }

    fn cl_type() -> (r: CLType) {
        CLType::String
    }
}

// ---------------------------------------------------------------- Key

impl ToBytes for Key {
    open spec fn enc(v: Key) -> Seq<u8> {
        enc_key(v)
    }

    open spec fn fits(v: Key) -> bool {
        true
    }

    fn to_bytes(&self) -> (r: Result<Vec<u8>, Error>) {
        let mut out: Vec<u8> = Vec::new();
        self.append_bytes(&mut out);
        assert(out@ =~= enc_key(*self));
        Ok(out)
    }
}

impl FromBytes for Key {
    open spec fn dec(b: Seq<u8>) -> Option<(Key, int)> {
        dec_key(b)
    }

    fn from_bytes(bytes: &[u8], pos: usize) -> (r: Result<(Key, usize), Error>) {
        Key::read_bytes(bytes, pos)
    }

    proof fn lemma_round_trip(v: Key, rest: Seq<u8>) {
        crate::key::lemma_key_round_trip(v, rest);
    }

    proof fn lemma_prefix(b: Seq<u8>, v: Key, n: int) {
        crate::key::lemma_key_prefix(b, v, n);
    }
}

impl CLTyped for Key {
    open spec fn spec_cl_type() -> CLType {
        CLType::Key
    }

    fn cl_type() -> (r: CLType) {
        CLType::Key
    }
}

// ---------------------------------------------------------------- (String, Key)

/// A named key: the name's encoding, then the key's.
pub open spec fn dec_named_key(b: Seq<u8>) -> Option<((Seq<char>, Key), int)> {
    match dec_string(b) {
        Some((s, n)) => if 0 <= n <= b.len() {
            match dec_key(b.subrange(n, b.len() as int)) {
                Some((k, m)) => Some(((s, k), n + m)),
                None => None,
            }
        } else {
            None
        },
        None => None,
    }
}

impl ToBytes for (String, Key) {
    open spec fn enc(v: (Seq<char>, Key)) -> Seq<u8> {
        enc_string(v.0) + enc_key(v.1)
    }

    open spec fn fits(v: (Seq<char>, Key)) -> bool {
        fits_u32(encode_utf8(v.0).len() as int)
    }

    fn to_bytes(&self) -> (r: Result<Vec<u8>, Error>) {
        let mut out: Vec<u8> = Vec::new();
        write_string(&mut out, &self.0)?;
        self.1.append_bytes(&mut out);
        assert(out@ =~= enc_string(self.0@) + enc_key(self.1));
        Ok(out)
    }
}

impl FromBytes for (String, Key) {
    open spec fn dec(b: Seq<u8>) -> Option<((Seq<char>, Key), int)> {
        dec_named_key(b)
    }

    fn from_bytes(bytes: &[u8], pos: usize) -> (r: Result<((String, Key), usize), Error>) {
        let ghost b = bytes@.subrange(pos as int, bytes@.len() as int);
        let (s, p) = read_string(bytes, pos)?;
        assert(b.subrange(p - pos, b.len() as int) =~= bytes@.subrange(p as int, bytes@.len() as int));
        let (k, end) = Key::read_bytes(bytes, p)?;
        Ok(((s, k), end))
    }

    proof fn lemma_round_trip(v: (Seq<char>, Key), rest: Seq<u8>) {
        let b = enc_string(v.0) + enc_key(v.1) + rest;
        assert(b =~= enc_string(v.0) + (enc_key(v.1) + rest));
        crate::bytesrepr::lemma_string_dec(v.0, enc_key(v.1) + rest);
        let n = enc_string(v.0).len() as int;
        assert(b.subrange(n, b.len() as int) =~= enc_key(v.1) + rest);
        crate::key::lemma_key_round_trip(v.1, rest);
    }

    proof fn lemma_prefix(b: Seq<u8>, v: (Seq<char>, Key), n: int) {
        let (s, m) = dec_string(b)->0;
        <String as FromBytes>::lemma_prefix(b, s, m);
        let r = b.subrange(m, b.len() as int);
        let (k, l) = dec_key(r)->0;
        crate::key::lemma_key_prefix(r, k, l);
        assert(b.subrange(0, n) =~= b.subrange(0, m) + r.subrange(0, l));
    }
}

/// The type tag of a named key: a pair of a string and a key.
pub open spec fn spec_named_key_type() -> CLType {
    CLType::Tuple2(Box::new(CLType::String), Box::new(CLType::Key))
}

pub fn named_key_type() -> (r: CLType)
    ensures
        r == spec_named_key_type(),
{
    CLType::Tuple2(Box::new(CLType::String), Box::new(CLType::Key))
}

impl CLTyped for (String, Key) {
    open spec fn spec_cl_type() -> CLType {
        spec_named_key_type()
    }

    fn cl_type() -> (r: CLType) {
        named_key_type()
    }
}


// ---------------------------------------------------------------- lists of CLValues

/// The views of a list of values.
pub open spec fn views_of(s: Seq<CLValue>) -> Seq<(CLType, Seq<u8>)> {
    s.map_values(|c: CLValue| c@)
}

/// The wire forms of values, one after another.
pub open spec fn enc_cl_value_seq(s: Seq<(CLType, Seq<u8>)>) -> Seq<u8>
    decreases s.len(),
{
    if s.len() == 0 {
        Seq::empty()
    } else {
        enc_cl_value_seq(s.drop_last()) + enc_cl_value(s.last())
    }
}

/// A list of values: their count as a `u32`, then their wire forms.
pub open spec fn enc_cl_value_list(s: Seq<(CLType, Seq<u8>)>) -> Seq<u8> {
    crate::bytesrepr::u32_le(s.len() as u32) + enc_cl_value_seq(s)
}

/// Reads `n` values, one after another.
pub open spec fn dec_cl_value_seq(b: Seq<u8>, n: nat) -> Option<(Seq<(CLType, Seq<u8>)>, int)>
    decreases n,
{
    if n == 0 {
        Some((Seq::empty(), 0))
    } else {
        match dec_cl_value(b) {
            Some((v, m)) => if 0 <= m <= b.len() {
                match dec_cl_value_seq(b.subrange(m, b.len() as int), (n - 1) as nat) {
                    Some((vs, k)) => Some((seq![v] + vs, m + k)),
                    None => None,
                }
            } else {
                None
            },
            None => None,
        }
    }
}

pub open spec fn dec_cl_value_list(b: Seq<u8>) -> Option<(Seq<(CLType, Seq<u8>)>, int)> {
    match crate::bytesrepr::dec_u32(b) {
        Some((n, _)) => match dec_cl_value_seq(b.subrange(4, b.len() as int), n as nat) {
            Some((vs, k)) => Some((vs, 4 + k)),
            None => None,
        },
        None => None,
    }
}

/// Whether every value of a list can be encoded, and their count fits a `u32`.
pub open spec fn list_fits(s: Seq<(CLType, Seq<u8>)>) -> bool {
    fits_u32(s.len() as int) && forall|i: int| 0 <= i < s.len() ==> fits_u32(#[trigger] s[i].1.len() as int)
}

/// Encodes a list of values.
pub fn cl_values_to_bytes(values: &Vec<CLValue>) -> (r: Result<Vec<u8>, Error>)
    ensures
        match r {
            Ok(b) => list_fits(views_of(values@)) && b@ == enc_cl_value_list(views_of(values@)),
            Err(e) => !list_fits(views_of(values@)) && e == Error::OutOfMemoryError,
        },
{
    let ghost vs = views_of(values@);
    if values.len() > u32::MAX as usize {
        return Err(Error::OutOfMemoryError);
    }
    let mut out: Vec<u8> = Vec::new();
    write_u32(&mut out, values.len() as u32);
    let mut i: usize = 0;
    while i < values.len()
        invariant
            0 <= i <= values@.len(),
            values@.len() <= u32::MAX,
            vs == views_of(values@),
            forall|j: int| 0 <= j < i ==> fits_u32(#[trigger] vs[j].1.len() as int),
            out@ == crate::bytesrepr::u32_le(values@.len() as u32) + enc_cl_value_seq(
                vs.subrange(0, i as int),
            ),
        decreases values@.len() - i,
    {
        let b = match values[i].to_bytes() {
            Ok(b) => b,
            Err(e) => {
                return Err(e);
            },
        };
        crate::bytesrepr::write_raw(&mut out, b.as_slice());
        proof {
            assert(vs.subrange(0, i + 1).drop_last() =~= vs.subrange(0, i as int));
        }
        i = i + 1;
    }
    assert(vs.subrange(0, values@.len() as int) =~= vs);
    Ok(out)
}

/// Reads a list of values at `pos`.
pub fn cl_values_from_bytes(bytes: &[u8], pos: usize) -> (r: Result<(Vec<CLValue>, usize), Error>)
    requires
        pos <= bytes@.len(),
    ensures
        match r {
            Ok((v, end)) => dec_cl_value_list(bytes@.subrange(pos as int, bytes@.len() as int))
                == Some((views_of(v@), end - pos)) && end <= bytes@.len(),
            Err(_) => dec_cl_value_list(bytes@.subrange(pos as int, bytes@.len() as int)) is None,
        },
{
    let ghost b = bytes@.subrange(pos as int, bytes@.len() as int);
    let (n, start) = crate::bytesrepr::read_u32(bytes, pos)?;
    let ghost body = b.subrange(4, b.len() as int);
    assert(body =~= bytes@.subrange(start as int, bytes@.len() as int));
    let mut result: Vec<CLValue> = Vec::new();
    let mut p: usize = start;
    let mut i: u32 = 0;
    while i < n
        invariant
            start <= p <= bytes@.len(),
            0 <= i <= n,
            start == pos + 4,
            b == bytes@.subrange(pos as int, bytes@.len() as int),
            crate::bytesrepr::dec_u32(b) == Some((n, 4int)),
            body == b.subrange(4, b.len() as int),
            body == bytes@.subrange(start as int, bytes@.len() as int),
            dec_cl_value_seq(body, n as nat) == (match dec_cl_value_seq(
                bytes@.subrange(p as int, bytes@.len() as int),
                (n - i) as nat,
            ) {
                Some((vs, k)) => Some((views_of(result@) + vs, (p - start) + k)),
                None => None::<(Seq<(CLType, Seq<u8>)>, int)>,
            }),
        decreases n - i,
    {
        let ghost rest = bytes@.subrange(p as int, bytes@.len() as int);
        let (v, q) = match CLValue::from_bytes(bytes, p) {
            Ok(x) => x,
            Err(e) => {
                assert(dec_cl_value_seq(rest, (n - i) as nat) is None);
                return Err(e);
            },
        };
        proof {
            <CLValue as FromBytes>::lemma_prefix(rest, v@, q - p);
            assert(rest.subrange(q - p, rest.len() as int) =~= bytes@.subrange(
                q as int,
                bytes@.len() as int,
            ));
            assert(views_of(result@.push(v)) =~= views_of(result@) + seq![v@]);
        }
        let ghost before = result@;
        result.push(v);
        proof {
            assert(views_of(result@) =~= views_of(before) + seq![v@]);
            match dec_cl_value_seq(bytes@.subrange(q as int, bytes@.len() as int), (n - i - 1) as nat) {
                Some((vs, k)) => {
                    assert(views_of(before) + (seq![v@] + vs) =~= views_of(result@) + vs);
                },
                None => {},
            }
        }
        p = q;
        i = i + 1;
    }
    assert(bytes@.subrange(p as int, bytes@.len() as int).subrange(0, 0) =~= Seq::<u8>::empty());
    assert(views_of(result@) + Seq::<(CLType, Seq<u8>)>::empty() =~= views_of(result@));
    Ok((result, p))
}

#[verifier::rlimit(100)]
#[verifier::spinoff_prover]
proof fn lemma_cl_value_seq_round_trip(s: Seq<(CLType, Seq<u8>)>, rest: Seq<u8>)
    requires
        forall|i: int| 0 <= i < s.len() ==> fits_u32(#[trigger] s[i].1.len() as int),
    ensures
        dec_cl_value_seq(enc_cl_value_seq(s) + rest, s.len()) == Some(
            (s, enc_cl_value_seq(s).len() as int),
        ),
    decreases s.len(),
{
    if s.len() > 0 {
        let h = s[0];
        let t = s.drop_first();
        lemma_enc_seq_front(s);
        assert(enc_cl_value_seq(s) + rest =~= enc_cl_value(h) + (enc_cl_value_seq(t) + rest));
        <CLValue as FromBytes>::lemma_round_trip(h, enc_cl_value_seq(t) + rest);
        let b = enc_cl_value_seq(s) + rest;
        let m = enc_cl_value(h).len() as int;
        assert(b.subrange(m, b.len() as int) =~= enc_cl_value_seq(t) + rest);
        assert forall|i: int| 0 <= i < t.len() implies fits_u32(#[trigger] t[i].1.len() as int) by {
            assert(t[i] == s[i + 1]);
        }
        lemma_cl_value_seq_round_trip(t, rest);
        assert(seq![h] + t =~= s);
    }
}

proof fn lemma_enc_seq_front(s: Seq<(CLType, Seq<u8>)>)
    requires
        s.len() > 0,
    ensures
        enc_cl_value_seq(s) == enc_cl_value(s[0]) + enc_cl_value_seq(s.drop_first()),
    decreases s.len(),
{
    if s.len() == 1 {
        assert(s.drop_last() =~= Seq::<(CLType, Seq<u8>)>::empty());
        assert(s.drop_first() =~= Seq::<(CLType, Seq<u8>)>::empty());
        assert(enc_cl_value(s[0]) + Seq::<u8>::empty() =~= enc_cl_value(s[0]));
    } else {
        lemma_enc_seq_front(s.drop_last());
        assert(s.drop_last().drop_first() =~= s.drop_first().drop_last());
        assert(s.drop_first().last() == s.last());
        assert(enc_cl_value_seq(s) =~= enc_cl_value(s[0]) + enc_cl_value_seq(s.drop_first()));
    }
}

/// Decoding the encoding of a list of values gives the list back.
pub proof fn lemma_cl_value_list_round_trip(s: Seq<(CLType, Seq<u8>)>, rest: Seq<u8>)
    requires
        list_fits(s),
    ensures
        dec_cl_value_list(enc_cl_value_list(s) + rest) == Some(
            (s, enc_cl_value_list(s).len() as int),
        ),
{
    let b = enc_cl_value_list(s) + rest;
    crate::bytesrepr::lemma_u32_dec(s.len() as u32, enc_cl_value_seq(s) + rest);
    assert(b =~= crate::bytesrepr::u32_le(s.len() as u32) + (enc_cl_value_seq(s) + rest));
    assert(b.subrange(4, b.len() as int) =~= enc_cl_value_seq(s) + rest);
    lemma_cl_value_seq_round_trip(s, rest);
}

#[verifier::rlimit(100)]
#[verifier::spinoff_prover]
proof fn lemma_cl_value_seq_prefix(b: Seq<u8>, n: nat, s: Seq<(CLType, Seq<u8>)>, k: int)
    requires
        dec_cl_value_seq(b, n) == Some((s, k)),
    ensures
        0 <= k <= b.len(),
        s.len() == n,
        b.subrange(0, k) == enc_cl_value_seq(s),
        forall|i: int| 0 <= i < s.len() ==> fits_u32(#[trigger] s[i].1.len() as int),
    decreases n,
{
    if n == 0 {
        assert(b.subrange(0, 0) =~= Seq::<u8>::empty());
    } else {
        let (e, m) = dec_cl_value(b)->0;
        <CLValue as FromBytes>::lemma_prefix(b, e, m);
        let r = b.subrange(m, b.len() as int);
        let (es, j) = dec_cl_value_seq(r, (n - 1) as nat)->0;
        lemma_cl_value_seq_prefix(r, (n - 1) as nat, es, j);
        assert(s == seq![e] + es);
        assert(s.drop_first() =~= es);
        lemma_enc_seq_front(s);
        assert(b.subrange(0, k) =~= b.subrange(0, m) + r.subrange(0, j));
        assert forall|i: int| 0 <= i < s.len() implies fits_u32(#[trigger] s[i].1.len() as int) by {
            if i > 0 {
                assert(s[i] == es[i - 1]);
            }
        }
    }
}

/// Re-encoding a decoded list of values gives back the bytes it was read from.
pub proof fn lemma_cl_value_list_prefix(b: Seq<u8>, s: Seq<(CLType, Seq<u8>)>, n: int)
    requires
        dec_cl_value_list(b) == Some((s, n)),
    ensures
        0 <= n <= b.len(),
        list_fits(s),
        b.subrange(0, n) == enc_cl_value_list(s),
{
    let (c, _) = crate::bytesrepr::dec_u32(b)->0;
    let body = b.subrange(4, b.len() as int);
    let (t, k) = dec_cl_value_seq(body, c as nat)->0;
    lemma_cl_value_seq_prefix(body, c as nat, t, k);
    crate::bytesrepr::lemma_u32_le_of_from_le(b);
    assert(b.subrange(0, n) =~= b.subrange(0, 4) + body.subrange(0, k));
}

// ---------------------------------------------------------------- laws

/// Decoding the encoding of any value gives the value back, with nothing left over.
pub proof fn lemma_decode_encode<T: FromBytes>(v: T::V)
    requires
        T::fits(v),
    ensures
        dec_whole::<T>(T::enc(v)) == Some(v),
{
    T::lemma_round_trip(v, Seq::empty());
    assert(T::enc(v) + Seq::empty() =~= T::enc(v));
}

/// Re-encoding what was decoded from `b` gives a prefix of `b`, or `b` itself.
pub proof fn lemma_encode_decode<T: FromBytes>(b: Seq<u8>, v: T::V, n: int)
    requires
        T::dec(b) == Some((v, n)),
    ensures
        T::enc(v).len() <= b.len(),
        b.subrange(0, T::enc(v).len() as int) == T::enc(v),
{
    T::lemma_prefix(b, v, n);
}

/// A value put into a `CLValue` as a `T` comes back out as a `T` unchanged.
pub proof fn lemma_from_t_into_t<T: CLTyped>(x: T, v: CLValue, r: Result<T, CLValueError>)
    requires
        T::fits(x@),
        v@ == (T::spec_cl_type(), T::enc(x@)),
        into_t_matches::<T>(v@, r),
    ensures
        r is Ok,
        r->Ok_0@ == x@,
{
    lemma_decode_encode::<T>(x@);
}

/// A value put into a `CLValue` as a `T` cannot be taken out as a `U` with another tag.
pub proof fn lemma_from_t_into_other<T: CLTyped, U: CLTyped>(
    x: T,
    v: CLValue,
    r: Result<U, CLValueError>,
)
    requires
        T::spec_cl_type() != U::spec_cl_type(),
        v@ == (T::spec_cl_type(), T::enc(x@)),
        into_t_matches::<U>(v@, r),
    ensures
        r == Err::<U, CLValueError>(
            CLValueError::Type(
                CLTypeMismatch { expected: U::spec_cl_type(), found: T::spec_cl_type() },
            ),
        ),
{
}

} // verus!
