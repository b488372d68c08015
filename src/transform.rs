use vstd::prelude::*;
use vstd::string::*;

use crate::additive_map::{spec_insert_add, Additive};
use crate::bigint::{le_wrapping_add, U128, U256, U512};
use crate::bytesrepr::{dec_whole, Error, FromBytes, ToBytes};
use crate::cl_type::{cl_type_name, CLType};
use crate::cl_value::{CLTyped, CLValue, CLValueError};
use crate::key::Key;
use crate::stored_value::{type_name_of, NamedKeys, StoredValue, StoredValueView, TypeMismatch};

verus! {

/// The kind of access that a key saw.
#[derive(PartialEq, Eq, Structural, Clone, Copy, Debug)]
pub enum Op {
    Read,
    Write,
    Add,
    NoOp,
}

/// The join of two accesses: `NoOp` below `Read`, below `Add`, below `Write`.
pub open spec fn op_join(a: Op, b: Op) -> Op {
    match (a, b) {
        (a, Op::NoOp) => a,
        (Op::NoOp, b) => b,
        (Op::Read, Op::Read) => Op::Read,
        (Op::Write, _) => Op::Write,
        (_, Op::Write) => Op::Write,
        _ => Op::Add,
    }
}

impl Op {
    pub fn combine(&self, other: &Op) -> (r: Op)
        ensures
            r == op_join(*self, *other),
    {
        match (*self, *other) {
            (a, Op::NoOp) => a,
            (Op::NoOp, b) => b,
            (Op::Read, Op::Read) => Op::Read,
            (Op::Write, _) => Op::Write,
            (_, Op::Write) => Op::Write,
            _ => Op::Add,
        }
    }
}

/// Why a transform could not be applied or composed.
#[derive(PartialEq, Eq, Debug)]
pub enum TransformError {
    Serialization(Error),
    TypeMismatch(TypeMismatch),
}

/// A transform error as mathematical values: a decoding failure, or the
/// expected and found type names of a mismatch.
pub enum TransformErrorView {
    Serialization,
    TypeMismatch(Seq<char>, Seq<char>),
}

impl View for TransformError {
    type V = TransformErrorView;

    open spec fn view(&self) -> TransformErrorView {
        match self {
            TransformError::Serialization(_) => TransformErrorView::Serialization,
            TransformError::TypeMismatch(m) => TransformErrorView::TypeMismatch(m.expected@, m.found@),
        }
    }
}

impl TransformError {
    pub fn copy(&self) -> (r: TransformError)
        ensures
            r@ == self@,
    {
        match self {
            TransformError::Serialization(e) => TransformError::Serialization(*e),
            TransformError::TypeMismatch(m) => TransformError::TypeMismatch(
                TypeMismatch::new(m.expected.clone(), m.found.clone()),
            ),
        }
    }
}

fn mismatch(expected: String, found: String) -> (r: TransformError)
    ensures
        r@ == TransformErrorView::TypeMismatch(expected@, found@),
{
    TransformError::TypeMismatch(TypeMismatch::new(expected, found))
}

/// A change to one stored value.
#[derive(PartialEq, Eq, Debug)]
pub enum Transform {
    Identity,
    Write(StoredValue),
    AddInt32(i32),
    AddUInt64(u64),
    AddUInt128(U128),
    AddUInt256(U256),
    AddUInt512(U512),
    AddKeys(NamedKeys),
    Failure(TransformError),
}

/// A transform as mathematical values.
pub enum TransformView {
    Identity,
    Write(StoredValueView),
    AddInt32(i32),
    AddUInt64(u64),
    AddUInt128(U128),
    AddUInt256(U256),
    AddUInt512(U512),
    AddKeys(Map<Seq<char>, Key>),
    Failure(TransformErrorView),
}

impl View for Transform {
    type V = TransformView;

    open spec fn view(&self) -> TransformView {
        match self {
            Transform::Identity => TransformView::Identity,
            Transform::Write(v) => TransformView::Write(v@),
            Transform::AddInt32(n) => TransformView::AddInt32(*n),
            Transform::AddUInt64(n) => TransformView::AddUInt64(*n),
            Transform::AddUInt128(n) => TransformView::AddUInt128(*n),
            Transform::AddUInt256(n) => TransformView::AddUInt256(*n),
            Transform::AddUInt512(n) => TransformView::AddUInt512(*n),
            Transform::AddKeys(m) => TransformView::AddKeys(m@),
            Transform::Failure(e) => TransformView::Failure(e@),
        }
    }
}

/// Whether an exec result is the one that the spec gives.
pub open spec fn result_matches(
    r: Result<StoredValue, TransformError>,
    s: Result<StoredValueView, TransformErrorView>,
) -> bool {
    match (r, s) {
        (Ok(v), Ok(w)) => v@ == w,
        (Err(e), Err(f)) => e@ == f,
        _ => false,
    }
}

/// Adding to a stored number of type `T`: `f` gives the new number from the old.
/// The value must be a `CLValue` tagged `T` that decodes whole.
pub open spec fn add_to<T: CLTyped>(v: StoredValueView, f: spec_fn(T::V) -> T::V) -> Result<
    StoredValueView,
    TransformErrorView,
> {
    match v {
        StoredValueView::CLValue(c) => if c.0 == T::spec_cl_type() {
            match dec_whole::<T>(c.1) {
                Some(x) => Ok(StoredValueView::CLValue((c.0, T::enc(f(x))))),
                None => Err(TransformErrorView::Serialization),
            }
        } else {
            Err(TransformErrorView::TypeMismatch(cl_type_name(c.0), cl_type_name(T::spec_cl_type())))
        },
        _ => Err(TransformErrorView::TypeMismatch("CLValue"@, type_name_of(v))),
    }
}

/// Adding named keys: the value must be an account or a contract.
pub open spec fn add_keys_to(v: StoredValueView, m: Map<Seq<char>, Key>) -> Result<
    StoredValueView,
    TransformErrorView,
> {
    match v {
        StoredValueView::Account(k) => Ok(StoredValueView::Account(k.union_prefer_right(m))),
        StoredValueView::Contract(b, k) => Ok(StoredValueView::Contract(b, k.union_prefer_right(m))),
        _ => Err(TransformErrorView::TypeMismatch("Contract or Account"@, type_name_of(v))),
    }
}

/// What applying a transform to a value gives.
pub open spec fn spec_apply(t: TransformView, v: StoredValueView) -> Result<
    StoredValueView,
    TransformErrorView,
> {
    match t {
        TransformView::Identity => Ok(v),
        TransformView::Write(w) => Ok(w),
        TransformView::AddInt32(n) => add_to::<i32>(v, |x: i32| x.wrapping_add(n)),
        TransformView::AddUInt64(n) => add_to::<u64>(v, |x: u64| x.wrapping_add(n)),
        TransformView::AddUInt128(n) => add_to::<U128>(v, |x: Seq<u8>| le_wrapping_add(x, n@)),
        TransformView::AddUInt256(n) => add_to::<U256>(v, |x: Seq<u8>| le_wrapping_add(x, n@)),
        TransformView::AddUInt512(n) => add_to::<U512>(v, |x: Seq<u8>| le_wrapping_add(x, n@)),
        TransformView::AddKeys(m) => add_keys_to(v, m),
        TransformView::Failure(e) => Err(e),
    }
}

/// The name of a transform's kind.
pub open spec fn kind_of(t: TransformView) -> Seq<char> {
    match t {
        TransformView::Identity => "Identity"@,
        TransformView::Write(..) => "Write"@,
        TransformView::AddInt32(..) => "AddInt32"@,
        TransformView::AddUInt64(..) => "AddUInt64"@,
        TransformView::AddUInt128(..) => "AddUInt128"@,
        TransformView::AddUInt256(..) => "AddUInt256"@,
        TransformView::AddUInt512(..) => "AddUInt512"@,
        TransformView::AddKeys(..) => "AddKeys"@,
        TransformView::Failure(..) => "Failure"@,
    }
}

/// The transform that does `a` and then `b`.
pub open spec fn spec_combine(a: TransformView, b: TransformView) -> TransformView {
    if b is Identity {
        a
    } else if a is Identity {
        b
    } else if a is Failure {
        a
    } else if b is Failure {
        b
    } else if b is Write {
        b
    } else if a is Write {
        match spec_apply(b, a->Write_0) {
            Ok(n) => TransformView::Write(n),
            Err(e) => TransformView::Failure(e),
        }
    } else {
        match (a, b) {
            (TransformView::AddInt32(i), TransformView::AddInt32(j)) => TransformView::AddInt32(i.wrapping_add(j)),
            (TransformView::AddUInt64(i), TransformView::AddUInt64(j)) => TransformView::AddUInt64(i.wrapping_add(j)),
            (TransformView::AddUInt128(i), TransformView::AddUInt128(j)) => TransformView::AddUInt128(i.wrapping_add(j)),
            (TransformView::AddUInt256(i), TransformView::AddUInt256(j)) => TransformView::AddUInt256(i.wrapping_add(j)),
            (TransformView::AddUInt512(i), TransformView::AddUInt512(j)) => TransformView::AddUInt512(i.wrapping_add(j)),
            (TransformView::AddKeys(m), TransformView::AddKeys(n)) => TransformView::AddKeys(
                m.union_prefer_right(n),
            ),
            _ => TransformView::Failure(TransformErrorView::TypeMismatch(kind_of(a), kind_of(b))),
        }
    }
}

/// Adds `n` to a stored `I32`, wrapping.
fn add_i32(value: StoredValue, n: i32) -> (r: Result<StoredValue, TransformError>)
    ensures
        result_matches(r, add_to::<i32>(value@, |x: i32| x.wrapping_add(n))),
{
    match value {
        StoredValue::CLValue(cl) => {
            if cl.cl_type().same(&CLType::I32) {
                match cl.into_t::<i32>() {
                    Ok(x) => {
                        let sum = x.wrapping_add(n);
                        
                        match CLValue::from_t(sum) {
                            Ok(c) => Ok(StoredValue::CLValue(c)),
                            Err(_) => Err(TransformError::Serialization(Error::OutOfMemoryError)),
                        }
                    },
                    Err(CLValueError::Serialization(e)) => Err(TransformError::Serialization(e)),
                    Err(CLValueError::Type(_)) => Err(TransformError::Serialization(Error::FormattingError)),
                }
            } else {
                Err(mismatch(cl.cl_type().name(), String::from_str("I32")))
            }
        },
        other => Err(mismatch(String::from_str("CLValue"), other.kind_name())),
    }
}

/// Adds `n` to a stored `U64`, wrapping.
fn add_u64(value: StoredValue, n: u64) -> (r: Result<StoredValue, TransformError>)
    ensures
        result_matches(r, add_to::<u64>(value@, |x: u64| x.wrapping_add(n))),
{
    match value {
        StoredValue::CLValue(cl) => {
            if cl.cl_type().same(&CLType::U64) {
                match cl.into_t::<u64>() {
                    Ok(x) => {
                        let sum = x.wrapping_add(n);
                        
                        match CLValue::from_t(sum) {
                            Ok(c) => Ok(StoredValue::CLValue(c)),
                            Err(_) => Err(TransformError::Serialization(Error::OutOfMemoryError)),
                        }
                    },
                    Err(CLValueError::Serialization(e)) => Err(TransformError::Serialization(e)),
                    Err(CLValueError::Type(_)) => Err(TransformError::Serialization(Error::FormattingError)),
                }
            } else {
                Err(mismatch(cl.cl_type().name(), String::from_str("U64")))
            }
        },
        other => Err(mismatch(String::from_str("CLValue"), other.kind_name())),
    }
}

/// Adds `n` to a stored `U128`, wrapping.
fn add_u128(value: StoredValue, n: U128) -> (r: Result<StoredValue, TransformError>)
    ensures
        result_matches(r, add_to::<U128>(value@, |x: Seq<u8>| le_wrapping_add(x, n@))),
{
    match value {
        StoredValue::CLValue(cl) => {
            if cl.cl_type().same(&CLType::U128) {
                match cl.into_t::<U128>() {
                    Ok(x) => {
                        let sum = x.wrapping_add(n);
                        assert(sum@.len() == 16);
                        match CLValue::from_t(sum) {
                            Ok(c) => Ok(StoredValue::CLValue(c)),
                            Err(_) => Err(TransformError::Serialization(Error::OutOfMemoryError)),
                        }
                    },
                    Err(CLValueError::Serialization(e)) => Err(TransformError::Serialization(e)),
                    Err(CLValueError::Type(_)) => Err(TransformError::Serialization(Error::FormattingError)),
                }
            } else {
                Err(mismatch(cl.cl_type().name(), String::from_str("U128")))
            }
        },
        other => Err(mismatch(String::from_str("CLValue"), other.kind_name())),
    }
}

/// Adds `n` to a stored `U256`, wrapping.
fn add_u256(value: StoredValue, n: U256) -> (r: Result<StoredValue, TransformError>)
    ensures
        result_matches(r, add_to::<U256>(value@, |x: Seq<u8>| le_wrapping_add(x, n@))),
{
    match value {
        StoredValue::CLValue(cl) => {
            if cl.cl_type().same(&CLType::U256) {
                match cl.into_t::<U256>() {
                    Ok(x) => {
                        let sum = x.wrapping_add(n);
                        assert(sum@.len() == 32);
                        match CLValue::from_t(sum) {
                            Ok(c) => Ok(StoredValue::CLValue(c)),
                            Err(_) => Err(TransformError::Serialization(Error::OutOfMemoryError)),
                        }
                    },
                    Err(CLValueError::Serialization(e)) => Err(TransformError::Serialization(e)),
                    Err(CLValueError::Type(_)) => Err(TransformError::Serialization(Error::FormattingError)),
                }
            } else {
                Err(mismatch(cl.cl_type().name(), String::from_str("U256")))
            }
        },
        other => Err(mismatch(String::from_str("CLValue"), other.kind_name())),
    }
}

/// Adds `n` to a stored `U512`, wrapping.
fn add_u512(value: StoredValue, n: U512) -> (r: Result<StoredValue, TransformError>)
    ensures
        result_matches(r, add_to::<U512>(value@, |x: Seq<u8>| le_wrapping_add(x, n@))),
{
    match value {
        StoredValue::CLValue(cl) => {
            if cl.cl_type().same(&CLType::U512) {
                match cl.into_t::<U512>() {
                    Ok(x) => {
                        let sum = x.wrapping_add(n);
                        assert(sum@.len() == 64);
                        match CLValue::from_t(sum) {
                            Ok(c) => Ok(StoredValue::CLValue(c)),
                            Err(_) => Err(TransformError::Serialization(Error::OutOfMemoryError)),
                        }
                    },
                    Err(CLValueError::Serialization(e)) => Err(TransformError::Serialization(e)),
                    Err(CLValueError::Type(_)) => Err(TransformError::Serialization(Error::FormattingError)),
                }
            } else {
                Err(mismatch(cl.cl_type().name(), String::from_str("U512")))
            }
        },
        other => Err(mismatch(String::from_str("CLValue"), other.kind_name())),
    }
}

impl Transform {
    pub fn kind_name(&self) -> (r: String)
        ensures
            r@ == kind_of(self@),
    {
        match self {
            Transform::Identity => String::from_str("Identity"),
            Transform::Write(..) => String::from_str("Write"),
            Transform::AddInt32(..) => String::from_str("AddInt32"),
            Transform::AddUInt64(..) => String::from_str("AddUInt64"),
            Transform::AddUInt128(..) => String::from_str("AddUInt128"),
            Transform::AddUInt256(..) => String::from_str("AddUInt256"),
            Transform::AddUInt512(..) => String::from_str("AddUInt512"),
            Transform::AddKeys(..) => String::from_str("AddKeys"),
            Transform::Failure(..) => String::from_str("Failure"),
        }
    }

    /// A copy of this transform.
    pub fn copy(&self) -> (r: Transform)
        ensures
            r@ == self@,
    {
        match self {
            Transform::Identity => Transform::Identity,
            Transform::Write(v) => Transform::Write(v.copy()),
            Transform::AddInt32(n) => Transform::AddInt32(*n),
            Transform::AddUInt64(n) => Transform::AddUInt64(*n),
            Transform::AddUInt128(n) => Transform::AddUInt128(*n),
            Transform::AddUInt256(n) => Transform::AddUInt256(*n),
            Transform::AddUInt512(n) => Transform::AddUInt512(*n),
            Transform::AddKeys(m) => Transform::AddKeys(m.copy()),
            Transform::Failure(e) => Transform::Failure(e.copy()),
        }
    }

    /// Applies this transform to a value.
    pub fn apply(self, value: StoredValue) -> (r: Result<StoredValue, TransformError>)
        ensures
            result_matches(r, spec_apply(self@, value@)),
    {
        match self {
            Transform::Identity => Ok(value),
            Transform::Write(w) => Ok(w),
            Transform::AddInt32(n) => add_i32(value, n),
            Transform::AddUInt64(n) => add_u64(value, n),
            Transform::AddUInt128(n) => add_u128(value, n),
            Transform::AddUInt256(n) => add_u256(value, n),
            Transform::AddUInt512(n) => add_u512(value, n),
            Transform::AddKeys(m) => match value {
                StoredValue::Account(mut a) => {
                    a.named_keys.merge(&m);
                    Ok(StoredValue::Account(a))
                },
                StoredValue::Contract(mut c) => {
                    c.named_keys.merge(&m);
                    Ok(StoredValue::Contract(c))
                },
                other => Err(mismatch(String::from_str("Contract or Account"), other.kind_name())),
            },
            Transform::Failure(e) => Err(e),
        }
    }

    /// The transform that does `self` and then `other`.
    pub fn combine(self, other: Transform) -> (r: Transform)
        ensures
            r@ == spec_combine(self@, other@),
    {
        if let Transform::Identity = other {
            return self;
        }
        if let Transform::Identity = self {
            return other;
        }
        if let Transform::Failure(_) = self {
            return self;
        }
        if let Transform::Failure(_) = other {
            return other;
        }
        if let Transform::Write(_) = other {
            return other;
        }
        if let Transform::Write(v) = self {
            return match other.apply(v) {
                Ok(n) => Transform::Write(n),
                Err(e) => Transform::Failure(e),
            };
        }
        let ka = self.kind_name();
        let kb = other.kind_name();
        match (self, other) {
            (Transform::AddInt32(i), Transform::AddInt32(j)) => Transform::AddInt32(i.wrapping_add(j)),
            (Transform::AddUInt64(i), Transform::AddUInt64(j)) => Transform::AddUInt64(i.wrapping_add(j)),
            (Transform::AddUInt128(i), Transform::AddUInt128(j)) => Transform::AddUInt128(i.wrapping_add(j)),
            (Transform::AddUInt256(i), Transform::AddUInt256(j)) => Transform::AddUInt256(i.wrapping_add(j)),
            (Transform::AddUInt512(i), Transform::AddUInt512(j)) => Transform::AddUInt512(i.wrapping_add(j)),
            (Transform::AddKeys(mut m), Transform::AddKeys(n)) => {
                m.merge(&n);
                Transform::AddKeys(m)
            },
            _ => Transform::Failure(mismatch(ka, kb)),
        }
    }
}

impl View for Op {
    type V = Op;

    open spec fn view(&self) -> Op {
        *self
    }
}

impl Additive for Op {
    open spec fn spec_sum(a: Op, b: Op) -> Op {
        op_join(a, b)
    }

    fn sum(self, other: Op) -> (r: Op) {
        self.combine(&other)
    }

    fn duplicate(&self) -> (r: Op) {
        *self
    }
}

/// The identity changes nothing, before or after another transform.
pub proof fn lemma_identity_neutral(t: TransformView)
    ensures
        spec_combine(t, TransformView::Identity) == t,
        spec_combine(TransformView::Identity, t) == t,
{
}

/// A later write absorbs whatever came before it, but a failure.
pub proof fn lemma_write_absorbs(t: TransformView, v: StoredValueView)
    requires
        !(t is Failure),
    ensures
        spec_combine(t, TransformView::Write(v)) == TransformView::Write(v),
{
}

/// Whether a transform adds a number, and of which width.
pub open spec fn numeric_width(t: TransformView) -> Option<CLType> {
    match t {
        TransformView::AddInt32(_) => Some(CLType::I32),
        TransformView::AddUInt64(_) => Some(CLType::U64),
        TransformView::AddUInt128(_) => Some(CLType::U128),
        TransformView::AddUInt256(_) => Some(CLType::U256),
        TransformView::AddUInt512(_) => Some(CLType::U512),
        _ => None,
    }
}

/// Composing additions of two different widths is a type-mismatch failure.
pub proof fn lemma_add_width_mismatch(a: TransformView, b: TransformView)
    requires
        numeric_width(a) is Some,
        numeric_width(b) is Some,
        numeric_width(a) != numeric_width(b),
    ensures
        spec_combine(a, b) == TransformView::Failure(
            TransformErrorView::TypeMismatch(kind_of(a), kind_of(b)),
        ),
{
}

impl Additive for Transform {
    open spec fn spec_sum(a: TransformView, b: TransformView) -> TransformView {
        spec_combine(a, b)
    }

    fn sum(self, other: Transform) -> (r: Transform) {
        self.combine(other)
    }

    fn duplicate(&self) -> (r: Transform) {
        self.copy()
    }
}

/// Whether a transform adds: a number, or named keys.
pub open spec fn is_addition(t: TransformView) -> bool {
    numeric_width(t) is Some || t is AddKeys
}

proof fn lemma_wrapping_assoc_i32(a: i32, b: i32, c: i32)
    ensures
        a.wrapping_add(b).wrapping_add(c) == a.wrapping_add(b.wrapping_add(c)),
{
    assert(a.wrapping_add(b).wrapping_add(c) == a.wrapping_add(b.wrapping_add(c))) by (bit_vector);
}

proof fn lemma_wrapping_assoc_u64(a: u64, b: u64, c: u64)
    ensures
        a.wrapping_add(b).wrapping_add(c) == a.wrapping_add(b.wrapping_add(c)),
{
    assert(a.wrapping_add(b).wrapping_add(c) == a.wrapping_add(b.wrapping_add(c))) by (bit_vector);
}

#[verifier::rlimit(100)]
#[verifier::spinoff_prover]
proof fn lemma_combine_apply_i32(i: i32, t: TransformView, x: StoredValueView, m: StoredValueView, nv: StoredValueView)
    requires
        is_addition(t),
        spec_apply(TransformView::AddInt32(i), x) == Ok::<StoredValueView, TransformErrorView>(m),
        spec_apply(t, m) == Ok::<StoredValueView, TransformErrorView>(nv),
    ensures
        spec_apply(spec_combine(TransformView::AddInt32(i), t), x) == Ok::<
            StoredValueView,
            TransformErrorView,
        >(nv),
{
    let a = dec_whole::<i32>(x->CLValue_0.1)->Some_0;
    crate::cl_value::lemma_decode_encode::<i32>(a.wrapping_add(i));
    if let TransformView::AddInt32(j) = t {
        lemma_wrapping_assoc_i32(a, i, j);
    }
}

#[verifier::rlimit(100)]
#[verifier::spinoff_prover]
proof fn lemma_combine_apply_u64(i: u64, t: TransformView, x: StoredValueView, m: StoredValueView, nv: StoredValueView)
    requires
        is_addition(t),
        spec_apply(TransformView::AddUInt64(i), x) == Ok::<StoredValueView, TransformErrorView>(m),
        spec_apply(t, m) == Ok::<StoredValueView, TransformErrorView>(nv),
    ensures
        spec_apply(spec_combine(TransformView::AddUInt64(i), t), x) == Ok::<
            StoredValueView,
            TransformErrorView,
        >(nv),
{
    let a = dec_whole::<u64>(x->CLValue_0.1)->Some_0;
    crate::cl_value::lemma_decode_encode::<u64>(a.wrapping_add(i));
    if let TransformView::AddUInt64(j) = t {
        lemma_wrapping_assoc_u64(a, i, j);
    }
}

#[verifier::rlimit(100)]
#[verifier::spinoff_prover]
proof fn lemma_combine_apply_u128(i: U128, t: TransformView, x: StoredValueView, m: StoredValueView, nv: StoredValueView)
    requires
        is_addition(t),
        spec_apply(TransformView::AddUInt128(i), x) == Ok::<StoredValueView, TransformErrorView>(m),
        spec_apply(t, m) == Ok::<StoredValueView, TransformErrorView>(nv),
    ensures
        spec_apply(spec_combine(TransformView::AddUInt128(i), t), x) == Ok::<
            StoredValueView,
            TransformErrorView,
        >(nv),
{
    let bytes = x->CLValue_0.1;
    let a = dec_whole::<U128>(bytes)->Some_0;
    <U128 as FromBytes>::lemma_prefix(bytes, a, bytes.len() as int);
    crate::bigint::lemma_le_wrapping_add(a, i@);
    crate::cl_value::lemma_decode_encode::<U128>(le_wrapping_add(a, i@));
    if let TransformView::AddUInt128(j) = t {
        i.lemma_spec_wrapping_add(j);
        crate::bigint::lemma_le_wrapping_add_assoc(a, i@, j@);
    }
}

#[verifier::rlimit(100)]
#[verifier::spinoff_prover]
proof fn lemma_combine_apply_u256(i: U256, t: TransformView, x: StoredValueView, m: StoredValueView, nv: StoredValueView)
    requires
        is_addition(t),
        spec_apply(TransformView::AddUInt256(i), x) == Ok::<StoredValueView, TransformErrorView>(m),
        spec_apply(t, m) == Ok::<StoredValueView, TransformErrorView>(nv),
    ensures
        spec_apply(spec_combine(TransformView::AddUInt256(i), t), x) == Ok::<
            StoredValueView,
            TransformErrorView,
        >(nv),
{
    let bytes = x->CLValue_0.1;
    let a = dec_whole::<U256>(bytes)->Some_0;
    <U256 as FromBytes>::lemma_prefix(bytes, a, bytes.len() as int);
    crate::bigint::lemma_le_wrapping_add(a, i@);
    crate::cl_value::lemma_decode_encode::<U256>(le_wrapping_add(a, i@));
    if let TransformView::AddUInt256(j) = t {
        i.lemma_spec_wrapping_add(j);
        crate::bigint::lemma_le_wrapping_add_assoc(a, i@, j@);
    }
}

#[verifier::rlimit(100)]
#[verifier::spinoff_prover]
proof fn lemma_combine_apply_u512(i: U512, t: TransformView, x: StoredValueView, m: StoredValueView, nv: StoredValueView)
    requires
        is_addition(t),
        spec_apply(TransformView::AddUInt512(i), x) == Ok::<StoredValueView, TransformErrorView>(m),
        spec_apply(t, m) == Ok::<StoredValueView, TransformErrorView>(nv),
    ensures
        spec_apply(spec_combine(TransformView::AddUInt512(i), t), x) == Ok::<
            StoredValueView,
            TransformErrorView,
        >(nv),
{
    let bytes = x->CLValue_0.1;
    let a = dec_whole::<U512>(bytes)->Some_0;
    <U512 as FromBytes>::lemma_prefix(bytes, a, bytes.len() as int);
    crate::bigint::lemma_le_wrapping_add(a, i@);
    crate::cl_value::lemma_decode_encode::<U512>(le_wrapping_add(a, i@));
    if let TransformView::AddUInt512(j) = t {
        i.lemma_spec_wrapping_add(j);
        crate::bigint::lemma_le_wrapping_add_assoc(a, i@, j@);
    }
}

#[verifier::rlimit(100)]
#[verifier::spinoff_prover]
proof fn lemma_combine_apply_keys(
    k1: Map<Seq<char>, Key>,
    t: TransformView,
    x: StoredValueView,
    m: StoredValueView,
    nv: StoredValueView,
)
    requires
        is_addition(t),
        spec_apply(TransformView::AddKeys(k1), x) == Ok::<StoredValueView, TransformErrorView>(m),
        spec_apply(t, m) == Ok::<StoredValueView, TransformErrorView>(nv),
    ensures
        spec_apply(spec_combine(TransformView::AddKeys(k1), t), x) == Ok::<
            StoredValueView,
            TransformErrorView,
        >(nv),
{
    if let TransformView::AddKeys(k2) = t {
        match x {
            StoredValueView::Account(k0) => {
                assert(k0.union_prefer_right(k1).union_prefer_right(k2) =~= k0.union_prefer_right(
                    k1.union_prefer_right(k2),
                ));
            },
            StoredValueView::Contract(_, k0) => {
                assert(k0.union_prefer_right(k1).union_prefer_right(k2) =~= k0.union_prefer_right(
                    k1.union_prefer_right(k2),
                ));
            },
            _ => {},
        }
    }
}

/// Doing `f` and then an addition `t` to a value, where both succeed, is doing
/// their composition: `(f + t).apply(x) == t.apply(f.apply(x))`.
pub proof fn lemma_combine_then_apply(
    f: TransformView,
    t: TransformView,
    x: StoredValueView,
    m: StoredValueView,
    nv: StoredValueView,
)
    requires
        is_addition(t),
        spec_apply(f, x) == Ok::<StoredValueView, TransformErrorView>(m),
        spec_apply(t, m) == Ok::<StoredValueView, TransformErrorView>(nv),
    ensures
        spec_apply(spec_combine(f, t), x) == Ok::<StoredValueView, TransformErrorView>(nv),
{
    match f {
        TransformView::AddInt32(i) => lemma_combine_apply_i32(i, t, x, m, nv),
        TransformView::AddUInt64(i) => lemma_combine_apply_u64(i, t, x, m, nv),
        TransformView::AddUInt128(i) => lemma_combine_apply_u128(i, t, x, m, nv),
        TransformView::AddUInt256(i) => lemma_combine_apply_u256(i, t, x, m, nv),
        TransformView::AddUInt512(i) => lemma_combine_apply_u512(i, t, x, m, nv),
        TransformView::AddKeys(k) => lemma_combine_apply_keys(k, t, x, m, nv),
        _ => {},
    }
}

/// The join of accesses is associative.
pub proof fn lemma_op_join_associative(a: Op, b: Op, c: Op)
    ensures
        op_join(op_join(a, b), c) == op_join(a, op_join(b, c)),
{
    match a {
        Op::NoOp => {},
        Op::Read => match b {
            Op::NoOp => {},
            Op::Read => {},
            Op::Write => {},
            Op::Add => {},
        },
        Op::Write => {},
        Op::Add => match b {
            Op::NoOp => {},
            Op::Read => {},
            Op::Write => {},
            Op::Add => {},
        },
    }
}

/// Recording `a` and then `b` at a key of the access map leaves what recording
/// their join leaves.
pub proof fn lemma_ops_insert_twice(m: Map<Key, Op>, k: Key, a: Op, b: Op)
    ensures
        spec_insert_add::<Op>(spec_insert_add::<Op>(m, k, a), k, b) == spec_insert_add::<Op>(
            m,
            k,
            op_join(a, b),
        ),
{
    if m.contains_key(k) {
        lemma_op_join_associative(m[k], a, b);
    }
    crate::additive_map::lemma_insert_add_twice::<Op>(m, k, a, b);
}

} // verus!
