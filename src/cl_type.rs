use vstd::prelude::*;
use vstd::string::*;

use crate::bytesrepr::{dec_u32, read_u32, read_u8, u32_le, write_u32, Error};

verus! {

/// The type tag that a `CLValue` carries.
#[derive(Eq, Debug)]
pub enum CLType {
    Bool,
    I32,
    I64,
    U8,
    U32,
    U64,
    U128,
    U256,
    U512,
    Unit,
    String,
    Key,
    URef,
    Option(Box<CLType>),
    List(Box<CLType>),
    FixedList(Box<CLType>, u32),
    Result { ok: Box<CLType>, err: Box<CLType> },
    MapOf { key: Box<CLType>, value: Box<CLType> },
    Tuple1(Box<CLType>),
    Tuple2(Box<CLType>, Box<CLType>),
    Tuple3(Box<CLType>, Box<CLType>, Box<CLType>),
    Any,
}

pub const TAG_BOOL: u8 = 0;
pub const TAG_I32: u8 = 1;
pub const TAG_I64: u8 = 2;
pub const TAG_U8: u8 = 3;
pub const TAG_U32: u8 = 4;
pub const TAG_U64: u8 = 5;
pub const TAG_U128: u8 = 6;
pub const TAG_U256: u8 = 7;
pub const TAG_U512: u8 = 8;
pub const TAG_UNIT: u8 = 9;
pub const TAG_STRING: u8 = 10;
pub const TAG_KEY: u8 = 11;
pub const TAG_UREF: u8 = 12;
pub const TAG_OPTION: u8 = 13;
pub const TAG_LIST: u8 = 14;
pub const TAG_FIXED_LIST: u8 = 15;
pub const TAG_RESULT: u8 = 16;
pub const TAG_MAP: u8 = 17;
pub const TAG_TUPLE1: u8 = 18;
pub const TAG_TUPLE2: u8 = 19;
pub const TAG_TUPLE3: u8 = 20;
pub const TAG_ANY: u8 = 21;

/// The tag byte of a type without parameters.
pub open spec fn simple_tag(t: CLType) -> Option<u8> {
    match t {
        CLType::Bool => Some(TAG_BOOL),
        CLType::I32 => Some(TAG_I32),
        CLType::I64 => Some(TAG_I64),
        CLType::U8 => Some(TAG_U8),
        CLType::U32 => Some(TAG_U32),
        CLType::U64 => Some(TAG_U64),
        CLType::U128 => Some(TAG_U128),
        CLType::U256 => Some(TAG_U256),
        CLType::U512 => Some(TAG_U512),
        CLType::Unit => Some(TAG_UNIT),
        CLType::String => Some(TAG_STRING),
        CLType::Key => Some(TAG_KEY),
        CLType::URef => Some(TAG_UREF),
        CLType::Any => Some(TAG_ANY),
        _ => None,
    }
}

/// The type without parameters whose tag byte is `b`.
pub open spec fn simple_of_tag(b: u8) -> Option<CLType> {
    if b == TAG_BOOL {
        Some(CLType::Bool)
    } else if b == TAG_I32 {
        Some(CLType::I32)
    } else if b == TAG_I64 {
        Some(CLType::I64)
    } else if b == TAG_U8 {
        Some(CLType::U8)
    } else if b == TAG_U32 {
        Some(CLType::U32)
    } else if b == TAG_U64 {
        Some(CLType::U64)
    } else if b == TAG_U128 {
        Some(CLType::U128)
    } else if b == TAG_U256 {
        Some(CLType::U256)
    } else if b == TAG_U512 {
        Some(CLType::U512)
    } else if b == TAG_UNIT {
        Some(CLType::Unit)
    } else if b == TAG_STRING {
        Some(CLType::String)
    } else if b == TAG_KEY {
        Some(CLType::Key)
    } else if b == TAG_UREF {
        Some(CLType::URef)
    } else if b == TAG_ANY {
        Some(CLType::Any)
    } else {
        None
    }
}

/// A type's encoding: its tag byte, then the encodings of its parameters.
pub open spec fn enc_cl_type(t: CLType) -> Seq<u8>
    decreases t,
{
    match t {
        CLType::Option(a) => seq![TAG_OPTION] + enc_cl_type(*a),
        CLType::List(a) => seq![TAG_LIST] + enc_cl_type(*a),
        CLType::FixedList(a, n) => seq![TAG_FIXED_LIST] + enc_cl_type(*a) + u32_le(n),
        CLType::Result { ok, err } => seq![TAG_RESULT] + enc_cl_type(*ok) + enc_cl_type(*err),
        CLType::MapOf { key, value } => seq![TAG_MAP] + enc_cl_type(*key) + enc_cl_type(*value),
        CLType::Tuple1(a) => seq![TAG_TUPLE1] + enc_cl_type(*a),
        CLType::Tuple2(a, b) => seq![TAG_TUPLE2] + enc_cl_type(*a) + enc_cl_type(*b),
        CLType::Tuple3(a, b, c) => seq![TAG_TUPLE3] + enc_cl_type(*a) + enc_cl_type(*b)
            + enc_cl_type(*c),
        _ => seq![simple_tag(t)->0],
    }
}

/// Decodes one type and then one more after it, from `b`.
pub open spec fn dec_cl_type_pair(b: Seq<u8>) -> Option<(CLType, CLType, int)>
    decreases b.len(), 1int,
{
    match dec_cl_type(b) {
        Some((x, n)) => if 0 < n <= b.len() {
            match dec_cl_type(b.subrange(n, b.len() as int)) {
                Some((y, m)) => Some((x, y, n + m)),
                None => None,
            }
        } else {
            None
        },
        None => None,
    }
}

/// Reads a type's encoding; gives the type and how many bytes it took.
pub open spec fn dec_cl_type(b: Seq<u8>) -> Option<(CLType, int)>
    decreases b.len(), 0int,
{
    if b.len() == 0 {
        None
    } else {
        let tag = b[0];
        let rest = b.subrange(1, b.len() as int);
        if tag == TAG_OPTION || tag == TAG_LIST || tag == TAG_TUPLE1 || tag == TAG_FIXED_LIST {
            match dec_cl_type(rest) {
                Some((a, n)) => if tag == TAG_OPTION {
                    Some((CLType::Option(Box::new(a)), 1 + n))
                } else if tag == TAG_LIST {
                    Some((CLType::List(Box::new(a)), 1 + n))
                } else if tag == TAG_TUPLE1 {
                    Some((CLType::Tuple1(Box::new(a)), 1 + n))
                } else if 0 <= n <= rest.len() {
                    match dec_u32(rest.subrange(n, rest.len() as int)) {
                        Some((len, m)) => Some((CLType::FixedList(Box::new(a), len), 1 + n + m)),
                        None => None,
                    }
                } else {
                    None
                },
                None => None,
            }
        } else if tag == TAG_RESULT || tag == TAG_MAP || tag == TAG_TUPLE2 {
            match dec_cl_type_pair(rest) {
                Some((x, y, n)) => if tag == TAG_RESULT {
                    Some((CLType::Result { ok: Box::new(x), err: Box::new(y) }, 1 + n))
                } else if tag == TAG_MAP {
                    Some((CLType::MapOf { key: Box::new(x), value: Box::new(y) }, 1 + n))
                } else {
                    Some((CLType::Tuple2(Box::new(x), Box::new(y)), 1 + n))
                },
                None => None,
            }
        } else if tag == TAG_TUPLE3 {
            match dec_cl_type_pair(rest) {
                Some((x, y, n)) => if 0 < n <= rest.len() {
                    match dec_cl_type(rest.subrange(n, rest.len() as int)) {
                        Some((z, m)) => Some(
                            (CLType::Tuple3(Box::new(x), Box::new(y), Box::new(z)), 1 + n + m),
                        ),
                        None => None,
                    }
                } else {
                    None
                },
                None => None,
            }
        } else {
            match simple_of_tag(tag) {
                Some(t) => Some((t, 1)),
                None => None,
            }
        }
    }
}


proof fn lemma_enc_cl_type_nonempty(t: CLType)
    ensures
        enc_cl_type(t).len() >= 1,
        enc_cl_type(t)[0] == enc_cl_type(t)[0],
{
}

#[verifier::rlimit(100)]
#[verifier::spinoff_prover]
proof fn lemma_pair(x: CLType, y: CLType, rest: Seq<u8>)
    requires
        dec_cl_type(enc_cl_type(x) + (enc_cl_type(y) + rest)) == Some(
            (x, enc_cl_type(x).len() as int),
        ),
        dec_cl_type(enc_cl_type(y) + rest) == Some((y, enc_cl_type(y).len() as int)),
    ensures
        dec_cl_type_pair(enc_cl_type(x) + enc_cl_type(y) + rest) == Some(
            (x, y, (enc_cl_type(x).len() + enc_cl_type(y).len()) as int),
        ),
{
    let b = enc_cl_type(x) + enc_cl_type(y) + rest;
    assert(b =~= enc_cl_type(x) + (enc_cl_type(y) + rest));
    let k = enc_cl_type(x).len() as int;
    assert(b.subrange(k, b.len() as int) =~= enc_cl_type(y) + rest);
    lemma_enc_cl_type_nonempty(x);
}

spec fn round_trips(t: CLType, rest: Seq<u8>) -> bool {
    dec_cl_type(enc_cl_type(t) + rest) == Some((t, enc_cl_type(t).len() as int))
}

#[verifier::rlimit(100)]
#[verifier::spinoff_prover]
proof fn lemma_rt_unary(t: CLType, a: CLType, rest: Seq<u8>)
    requires
        t == CLType::Option(Box::new(a)) || t == CLType::List(Box::new(a)) || t
            == CLType::Tuple1(Box::new(a)),
        round_trips(a, rest),
    ensures
        round_trips(t, rest),
{
    let b = enc_cl_type(t) + rest;
    assert(b.subrange(1, b.len() as int) =~= enc_cl_type(a) + rest);
}

#[verifier::rlimit(100)]
#[verifier::spinoff_prover]
proof fn lemma_rt_fixed(t: CLType, a: CLType, n: u32, rest: Seq<u8>)
    requires
        t == CLType::FixedList(Box::new(a), n),
        round_trips(a, u32_le(n) + rest),
    ensures
        round_trips(t, rest),
{
    let b = enc_cl_type(t) + rest;
    let r = b.subrange(1, b.len() as int);
    assert(r =~= enc_cl_type(a) + (u32_le(n) + rest));
    let k = enc_cl_type(a).len() as int;
    assert(r.subrange(k, r.len() as int) =~= u32_le(n) + rest);
    crate::bytesrepr::lemma_u32_dec(n, rest);
}

spec fn binary_of(t: CLType, x: CLType, y: CLType) -> bool {
    match t {
        CLType::Result { ok, err } => *ok == x && *err == y,
        CLType::MapOf { key, value } => *key == x && *value == y,
        CLType::Tuple2(a, b) => *a == x && *b == y,
        _ => false,
    }
}

#[verifier::rlimit(100)]
proof fn lemma_rt_binary(t: CLType, x: CLType, y: CLType, rest: Seq<u8>)
    requires
        binary_of(t, x, y),
        round_trips(x, enc_cl_type(y) + rest),
        round_trips(y, rest),
    ensures
        round_trips(t, rest),
{
    let b = enc_cl_type(t) + rest;
    lemma_pair(x, y, rest);
    let r = b.subrange(1, b.len() as int);
    assert(r =~= enc_cl_type(x) + enc_cl_type(y) + rest);
    let p = dec_cl_type_pair(r);
    match t {
        CLType::Result { .. } => {
            assert(b[0] == TAG_RESULT);
        },
        CLType::MapOf { .. } => {
            assert(b[0] == TAG_MAP);
        },
        _ => {
            assert(b[0] == TAG_TUPLE2);
        },
    }
}

#[verifier::rlimit(100)]
#[verifier::spinoff_prover]
proof fn lemma_rt_ternary(x: CLType, y: CLType, z: CLType, rest: Seq<u8>)
    requires
        round_trips(x, enc_cl_type(y) + (enc_cl_type(z) + rest)),
        round_trips(y, enc_cl_type(z) + rest),
        round_trips(z, rest),
    ensures
        round_trips(CLType::Tuple3(Box::new(x), Box::new(y), Box::new(z)), rest),
{
    let t = CLType::Tuple3(Box::new(x), Box::new(y), Box::new(z));
    let b = enc_cl_type(t) + rest;
    let r = b.subrange(1, b.len() as int);
    let zr = enc_cl_type(z) + rest;
    lemma_pair(x, y, zr);
    assert(r =~= enc_cl_type(x) + enc_cl_type(y) + zr);
    let k = (enc_cl_type(x).len() + enc_cl_type(y).len()) as int;
    assert(r.subrange(k, r.len() as int) =~= zr);
    lemma_enc_cl_type_nonempty(x);
}

/// Decoding a type's encoding, whatever follows it, gives the type back.
pub proof fn lemma_cl_type_round_trip(t: CLType, rest: Seq<u8>)
    ensures
        dec_cl_type(enc_cl_type(t) + rest) == Some((t, enc_cl_type(t).len() as int)),
    decreases t,
{
    match t {
        CLType::Option(a) => {
            lemma_cl_type_round_trip(*a, rest);
            lemma_rt_unary(t, *a, rest);
        },
        CLType::List(a) => {
            lemma_cl_type_round_trip(*a, rest);
            lemma_rt_unary(t, *a, rest);
        },
        CLType::Tuple1(a) => {
            lemma_cl_type_round_trip(*a, rest);
            lemma_rt_unary(t, *a, rest);
        },
        CLType::FixedList(a, n) => {
            lemma_cl_type_round_trip(*a, u32_le(n) + rest);
            lemma_rt_fixed(t, *a, n, rest);
        },
        CLType::Result { ok: x, err: y } => {
            lemma_cl_type_round_trip(*x, enc_cl_type(*y) + rest);
            lemma_cl_type_round_trip(*y, rest);
            lemma_rt_binary(t, *x, *y, rest);
        },
        CLType::MapOf { key: x, value: y } => {
            lemma_cl_type_round_trip(*x, enc_cl_type(*y) + rest);
            lemma_cl_type_round_trip(*y, rest);
            lemma_rt_binary(t, *x, *y, rest);
        },
        CLType::Tuple2(x, y) => {
            lemma_cl_type_round_trip(*x, enc_cl_type(*y) + rest);
            lemma_cl_type_round_trip(*y, rest);
            lemma_rt_binary(t, *x, *y, rest);
        },
        CLType::Tuple3(x, y, z) => {
            lemma_cl_type_round_trip(*x, enc_cl_type(*y) + (enc_cl_type(*z) + rest));
            lemma_cl_type_round_trip(*y, enc_cl_type(*z) + rest);
            lemma_cl_type_round_trip(*z, rest);
            lemma_rt_ternary(*x, *y, *z, rest);
        },
        _ => {
        },
    }
}

/// What the type decoder took is the encoding of what it gave.
#[verifier::rlimit(100)]
#[verifier::spinoff_prover]
pub proof fn lemma_cl_type_prefix(b: Seq<u8>, t: CLType, n: int)
    requires
        dec_cl_type(b) == Some((t, n)),
    ensures
        0 < n <= b.len(),
        b.subrange(0, n) == enc_cl_type(t),
    decreases b.len(),
{
    let tag = b[0];
    let r = b.subrange(1, b.len() as int);
    if tag == TAG_OPTION || tag == TAG_LIST || tag == TAG_TUPLE1 || tag == TAG_FIXED_LIST {
        let (a, m) = dec_cl_type(r)->0;
        lemma_cl_type_prefix(r, a, m);
        if tag == TAG_FIXED_LIST {
            let r2 = r.subrange(m, r.len() as int);
            let (len, _) = dec_u32(r2)->0;
            crate::bytesrepr::lemma_u32_le_of_from_le(r2);
            assert(b.subrange(0, n) =~= seq![tag] + r.subrange(0, m) + r2.subrange(0, 4));
        } else {
            assert(b.subrange(0, n) =~= seq![tag] + r.subrange(0, m));
        }
    } else if tag == TAG_RESULT || tag == TAG_MAP || tag == TAG_TUPLE2 || tag == TAG_TUPLE3 {
        assert(dec_cl_type_pair(r) is Some);
        let (x, m1) = dec_cl_type(r)->0;
        lemma_cl_type_prefix(r, x, m1);
        let r2 = r.subrange(m1, r.len() as int);
        let (y, m2) = dec_cl_type(r2)->0;
        lemma_cl_type_prefix(r2, y, m2);
        if tag == TAG_TUPLE3 {
            let r3 = r.subrange(m1 + m2, r.len() as int);
            let (z, m3) = dec_cl_type(r3)->0;
            lemma_cl_type_prefix(r3, z, m3);
            assert(b.subrange(0, n) =~= seq![tag] + r.subrange(0, m1) + r2.subrange(0, m2)
                + r3.subrange(0, m3));
        } else {
            assert(b.subrange(0, n) =~= seq![tag] + r.subrange(0, m1) + r2.subrange(0, m2));
        }
    } else {
        assert(b.subrange(0, n) =~= seq![tag]);
    }
}

impl CLType {
    /// The tag byte of a type without parameters, in exec code.
    fn simple_tag_of(&self) -> (r: u8)
        requires
            simple_tag(*self) is Some,
        ensures
            r == simple_tag(*self)->0,
    {
        match self {
            CLType::Bool => TAG_BOOL,
            CLType::I32 => TAG_I32,
            CLType::I64 => TAG_I64,
            CLType::U8 => TAG_U8,
            CLType::U32 => TAG_U32,
            CLType::U64 => TAG_U64,
            CLType::U128 => TAG_U128,
            CLType::U256 => TAG_U256,
            CLType::U512 => TAG_U512,
            CLType::Unit => TAG_UNIT,
            CLType::String => TAG_STRING,
            CLType::Key => TAG_KEY,
            CLType::URef => TAG_UREF,
            _ => TAG_ANY,
        }
    }

    /// Appends the encoding of this type.
    pub fn append_bytes(&self, out: &mut Vec<u8>)
        ensures
            final(out)@ == old(out)@ + enc_cl_type(*self),
        decreases self,
    {
        match self {
            CLType::Option(a) => {
                out.push(TAG_OPTION);
                a.append_bytes(out);
            },
            CLType::List(a) => {
                out.push(TAG_LIST);
                a.append_bytes(out);
            },
            CLType::FixedList(a, n) => {
                out.push(TAG_FIXED_LIST);
                a.append_bytes(out);
                write_u32(out, *n);
            },
            CLType::Result { ok, err } => {
                out.push(TAG_RESULT);
                ok.append_bytes(out);
                err.append_bytes(out);
            },
            CLType::MapOf { key, value } => {
                out.push(TAG_MAP);
                key.append_bytes(out);
                value.append_bytes(out);
            },
            CLType::Tuple1(a) => {
                out.push(TAG_TUPLE1);
                a.append_bytes(out);
            },
            CLType::Tuple2(a, b) => {
                out.push(TAG_TUPLE2);
                a.append_bytes(out);
                b.append_bytes(out);
            },
            CLType::Tuple3(a, b, c) => {
                out.push(TAG_TUPLE3);
                a.append_bytes(out);
                b.append_bytes(out);
                c.append_bytes(out);
            },
            _ => {
                out.push(self.simple_tag_of());
            },
        }
        assert(out@ =~= old(out)@ + enc_cl_type(*self));
    }

    /// The encoding of this type.
    pub fn to_bytes(&self) -> (r: Vec<u8>)
        ensures
            r@ == enc_cl_type(*self),
    {
        let mut out: Vec<u8> = Vec::new();
        self.append_bytes(&mut out);
        assert(out@ =~= enc_cl_type(*self));
        out
    }

    /// Reads the encoding of a type at `pos`.
    #[verifier::rlimit(100)]
    #[verifier::spinoff_prover]
    pub fn read_bytes(bytes: &[u8], pos: usize) -> (r: Result<(CLType, usize), Error>)
        requires
            pos <= bytes@.len(),
        ensures
            match r {
                Ok((t, end)) => dec_cl_type(bytes@.subrange(pos as int, bytes@.len() as int))
                    == Some((t, end - pos)) && pos < end <= bytes@.len(),
                Err(_) => dec_cl_type(bytes@.subrange(pos as int, bytes@.len() as int)) is None,
            },
        decreases bytes@.len() - pos,
    {
        let ghost b = bytes@.subrange(pos as int, bytes@.len() as int);
        let (tag, p) = read_u8(bytes, pos)?;
        let ghost rest = b.subrange(1, b.len() as int);
        assert(rest =~= bytes@.subrange(p as int, bytes@.len() as int));
        if tag == TAG_OPTION || tag == TAG_LIST || tag == TAG_TUPLE1 || tag == TAG_FIXED_LIST {
            let (a, q) = CLType::read_bytes(bytes, p)?;
            if tag == TAG_OPTION {
                Ok((CLType::Option(Box::new(a)), q))
            } else if tag == TAG_LIST {
                Ok((CLType::List(Box::new(a)), q))
            } else if tag == TAG_TUPLE1 {
                Ok((CLType::Tuple1(Box::new(a)), q))
            } else {
                assert(rest.subrange(q - p, rest.len() as int) =~= bytes@.subrange(
                    q as int,
                    bytes@.len() as int,
                ));
                let (n, end) = read_u32(bytes, q)?;
                Ok((CLType::FixedList(Box::new(a), n), end))
            }
        } else if tag == TAG_RESULT || tag == TAG_MAP || tag == TAG_TUPLE2 || tag == TAG_TUPLE3 {
            let (x, q) = match CLType::read_bytes(bytes, p) {
                Ok(v) => v,
                Err(err) => {
                    assert(dec_cl_type_pair(rest) is None);
                    return Err(err);
                },
            };
            assert(rest.subrange(q - p, rest.len() as int) =~= bytes@.subrange(
                q as int,
                bytes@.len() as int,
            ));
            let (y, e) = match CLType::read_bytes(bytes, q) {
                Ok(v) => v,
                Err(err) => {
                    assert(dec_cl_type_pair(rest) is None);
                    return Err(err);
                },
            };
            assert(dec_cl_type_pair(rest) == Some((x, y, e - p)));
            if tag == TAG_RESULT {
                Ok((CLType::Result { ok: Box::new(x), err: Box::new(y) }, e))
            } else if tag == TAG_MAP {
                Ok((CLType::MapOf { key: Box::new(x), value: Box::new(y) }, e))
            } else if tag == TAG_TUPLE2 {
                Ok((CLType::Tuple2(Box::new(x), Box::new(y)), e))
            } else {
                assert(rest.subrange(e - p, rest.len() as int) =~= bytes@.subrange(
                    e as int,
                    bytes@.len() as int,
                ));
                let (z, end) = CLType::read_bytes(bytes, e)?;
                Ok((CLType::Tuple3(Box::new(x), Box::new(y), Box::new(z)), end))
            }
        } else {
            let t = if tag == TAG_BOOL {
                CLType::Bool
            } else if tag == TAG_I32 {
                CLType::I32
            } else if tag == TAG_I64 {
                CLType::I64
            } else if tag == TAG_U8 {
                CLType::U8
            } else if tag == TAG_U32 {
                CLType::U32
            } else if tag == TAG_U64 {
                CLType::U64
            } else if tag == TAG_U128 {
                CLType::U128
            } else if tag == TAG_U256 {
                CLType::U256
            } else if tag == TAG_U512 {
                CLType::U512
            } else if tag == TAG_UNIT {
                CLType::Unit
            } else if tag == TAG_STRING {
                CLType::String
            } else if tag == TAG_KEY {
                CLType::Key
            } else if tag == TAG_UREF {
                CLType::URef
            } else if tag == TAG_ANY {
                CLType::Any
            } else {
                return Err(Error::FormattingError);
            };
            Ok((t, p))
        }
    }

    /// Whether two types are the same, in exec code.
    pub fn same(&self, other: &CLType) -> (r: bool)
        ensures
            r == (*self == *other),
        decreases self,
    {
        match (self, other) {
            (CLType::Option(a), CLType::Option(b)) => a.same(b),
            (CLType::List(a), CLType::List(b)) => a.same(b),
            (CLType::FixedList(a, n), CLType::FixedList(b, m)) => *n == *m && a.same(b),
            (CLType::Result { ok: a, err: b }, CLType::Result { ok: c, err: d }) => a.same(c)
                && b.same(d),
            (CLType::MapOf { key: a, value: b }, CLType::MapOf { key: c, value: d }) => a.same(c)
                && b.same(d),
            (CLType::Tuple1(a), CLType::Tuple1(b)) => a.same(b),
            (CLType::Tuple2(a, b), CLType::Tuple2(c, d)) => a.same(c) && b.same(d),
            (CLType::Tuple3(a, b, c), CLType::Tuple3(d, e, f)) => a.same(d) && b.same(e) && c.same(
                f,
            ),
            (CLType::Bool, CLType::Bool) => true,
            (CLType::I32, CLType::I32) => true,
            (CLType::I64, CLType::I64) => true,
            (CLType::U8, CLType::U8) => true,
            (CLType::U32, CLType::U32) => true,
            (CLType::U64, CLType::U64) => true,
            (CLType::U128, CLType::U128) => true,
            (CLType::U256, CLType::U256) => true,
            (CLType::U512, CLType::U512) => true,
            (CLType::Unit, CLType::Unit) => true,
            (CLType::String, CLType::String) => true,
            (CLType::Key, CLType::Key) => true,
            (CLType::URef, CLType::URef) => true,
            (CLType::Any, CLType::Any) => true,
            _ => false,
        }
    }

    /// A copy of this type.
    pub fn copy(&self) -> (r: CLType)
        ensures
            r == *self,
        decreases self,
    {
        match self {
            CLType::Option(a) => CLType::Option(Box::new(a.copy())),
            CLType::List(a) => CLType::List(Box::new(a.copy())),
            CLType::FixedList(a, n) => CLType::FixedList(Box::new(a.copy()), *n),
            CLType::Result { ok, err } => CLType::Result {
                ok: Box::new(ok.copy()),
                err: Box::new(err.copy()),
            },
            CLType::MapOf { key, value } => CLType::MapOf {
                key: Box::new(key.copy()),
                value: Box::new(value.copy()),
            },
            CLType::Tuple1(a) => CLType::Tuple1(Box::new(a.copy())),
            CLType::Tuple2(a, b) => CLType::Tuple2(Box::new(a.copy()), Box::new(b.copy())),
            CLType::Tuple3(a, b, c) => CLType::Tuple3(
                Box::new(a.copy()),
                Box::new(b.copy()),
                Box::new(c.copy()),
            ),
            CLType::Bool => CLType::Bool,
            CLType::I32 => CLType::I32,
            CLType::I64 => CLType::I64,
            CLType::U8 => CLType::U8,
            CLType::U32 => CLType::U32,
            CLType::U64 => CLType::U64,
            CLType::U128 => CLType::U128,
            CLType::U256 => CLType::U256,
            CLType::U512 => CLType::U512,
            CLType::Unit => CLType::Unit,
            CLType::String => CLType::String,
            CLType::Key => CLType::Key,
            CLType::URef => CLType::URef,
            CLType::Any => CLType::Any,
        }
    }
}

impl Clone for CLType {
    fn clone(&self) -> (r: CLType)
        ensures
            r == *self,
    {
        self.copy()
    }
}

impl PartialEq for CLType {
    fn eq(&self, other: &CLType) -> (r: bool) {
        self.same(other)
    }
}

impl vstd::std_specs::cmp::PartialEqSpecImpl for CLType {
    open spec fn obeys_eq_spec() -> bool {
        true
    }

    open spec fn eq_spec(&self, other: &CLType) -> bool {
        *self == *other
    }
}


/// The name of a type, as diagnostics show it.
pub open spec fn cl_type_name(t: CLType) -> Seq<char>
    decreases t,
{
    match t {
        CLType::Option(a) => "Option("@ + cl_type_name(*a) + ")"@,
        CLType::List(a) => "List("@ + cl_type_name(*a) + ")"@,
        CLType::FixedList(a, _) => "FixedList("@ + cl_type_name(*a) + ")"@,
        CLType::Result { ok, err } => "Result("@ + cl_type_name(*ok) + ", "@ + cl_type_name(*err)
            + ")"@,
        CLType::MapOf { key, value } => "Map("@ + cl_type_name(*key) + ", "@ + cl_type_name(*value)
            + ")"@,
        CLType::Tuple1(a) => "Tuple1("@ + cl_type_name(*a) + ")"@,
        CLType::Tuple2(a, b) => "Tuple2("@ + cl_type_name(*a) + ", "@ + cl_type_name(*b) + ")"@,
        CLType::Tuple3(a, b, c) => "Tuple3("@ + cl_type_name(*a) + ", "@ + cl_type_name(*b) + ", "@
            + cl_type_name(*c) + ")"@,
        CLType::Bool => "Bool"@,
        CLType::I32 => "I32"@,
        CLType::I64 => "I64"@,
        CLType::U8 => "U8"@,
        CLType::U32 => "U32"@,
        CLType::U64 => "U64"@,
        CLType::U128 => "U128"@,
        CLType::U256 => "U256"@,
        CLType::U512 => "U512"@,
        CLType::Unit => "Unit"@,
        CLType::String => "String"@,
        CLType::Key => "Key"@,
        CLType::URef => "URef"@,
        CLType::Any => "Any"@,
    }
}

/// `open`, then the names of `parts` separated by commas, then `)`.
fn wrap_names(open: &str, parts: &Vec<String>) -> (r: String)
    ensures
        parts@.len() == 1 ==> r@ == open@ + parts@[0]@ + ")"@,
        parts@.len() == 2 ==> r@ == open@ + parts@[0]@ + ", "@ + parts@[1]@ + ")"@,
        parts@.len() == 3 ==> r@ == open@ + parts@[0]@ + ", "@ + parts@[1]@ + ", "@ + parts@[2]@
            + ")"@,
{
    let mut s = String::from_str(open);
    let mut i: usize = 0;
    while i < parts.len()
        invariant
            0 <= i <= parts@.len(),
            i == 0 ==> s@ == open@,
            i == 1 ==> s@ == open@ + parts@[0]@,
            i == 2 ==> s@ == open@ + parts@[0]@ + ", "@ + parts@[1]@,
            i == 3 ==> s@ == open@ + parts@[0]@ + ", "@ + parts@[1]@ + ", "@ + parts@[2]@,
        decreases parts@.len() - i,
    {
        if i > 0 {
            s.append(", ");
        }
        s.append(parts[i].as_str());
        i = i + 1;
    }
    s.append(")");
    s
}

impl CLType {
    /// The name of this type, as diagnostics show it.
    pub fn name(&self) -> (r: String)
        ensures
            r@ == cl_type_name(*self),
        decreases self,
    {
        match self {
            CLType::Option(a) => wrap_names("Option(", &vec![a.name()]),
            CLType::List(a) => wrap_names("List(", &vec![a.name()]),
            CLType::FixedList(a, _) => wrap_names("FixedList(", &vec![a.name()]),
            CLType::Result { ok, err } => wrap_names("Result(", &vec![ok.name(), err.name()]),
            CLType::MapOf { key, value } => wrap_names("Map(", &vec![key.name(), value.name()]),
            CLType::Tuple1(a) => wrap_names("Tuple1(", &vec![a.name()]),
            CLType::Tuple2(a, b) => wrap_names("Tuple2(", &vec![a.name(), b.name()]),
            CLType::Tuple3(a, b, c) => wrap_names("Tuple3(", &vec![a.name(), b.name(), c.name()]),
            CLType::Bool => String::from_str("Bool"),
            CLType::I32 => String::from_str("I32"),
            CLType::I64 => String::from_str("I64"),
            CLType::U8 => String::from_str("U8"),
            CLType::U32 => String::from_str("U32"),
            CLType::U64 => String::from_str("U64"),
            CLType::U128 => String::from_str("U128"),
            CLType::U256 => String::from_str("U256"),
            CLType::U512 => String::from_str("U512"),
            CLType::Unit => String::from_str("Unit"),
            CLType::String => String::from_str("String"),
            CLType::Key => String::from_str("Key"),
            CLType::URef => String::from_str("URef"),
            CLType::Any => String::from_str("Any"),
        }
    }
}

} // verus!
