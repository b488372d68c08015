use vstd::prelude::*;
use vstd::string::*;

use crate::additive_map::{spec_insert_add, AdditiveMap};
use crate::bigint::{U128, U256, U512};
use crate::bytesrepr::{dec_whole, Error};
use crate::cache::TrackingCopyCache;

use crate::cl_type::CLType;
use crate::cl_value::{named_key_type, spec_named_key_type, CLValue, CLValueError};
use crate::key::Key;
use crate::state::{StateReader, StorageError};
use crate::stored_value::{type_name_of, NamedKeys, StoredValue, StoredValueView, TypeMismatch};
use crate::transform::{spec_apply, Op, Transform, TransformError, TransformErrorView, TransformView};

verus! {

/// The byte budget of a tracking copy's read cache.
pub const DEFAULT_CACHE_SIZE: usize = 16384;

/// The types that `add` takes, as its type mismatch names them.
pub const ADD_TYPES: &'static str = "I32, U64, U128, U256, U512 or (String, Key) tuple";

/// What an execution did: the accesses each key saw, and the change to each.
pub struct ExecutionEffect {
    pub ops: AdditiveMap<Op>,
    pub transforms: AdditiveMap<Transform>,
}

/// The outcome of `add`.
#[derive(PartialEq, Eq, Debug)]
pub enum AddResult {
    Success,
    KeyNotFound(Key),
    TypeMismatch(TypeMismatch),
    Serialization(Error),
}

/// The outcome of `add`, as mathematical values.
pub enum AddResultView {
    Success,
    KeyNotFound(Key),
    TypeMismatch(Seq<char>, Seq<char>),
    Serialization,
}

impl View for AddResult {
    type V = AddResultView;

    open spec fn view(&self) -> AddResultView {
        match self {
            AddResult::Success => AddResultView::Success,
            AddResult::KeyNotFound(k) => AddResultView::KeyNotFound(*k),
            AddResult::TypeMismatch(m) => AddResultView::TypeMismatch(m.expected@, m.found@),
            AddResult::Serialization(_) => AddResultView::Serialization,
        }
    }
}

impl AddResult {
    /// The outcome for a value that could not be read as the type it is tagged with.
    pub fn from_cl_value_error(error: CLValueError) -> (r: AddResult)
        ensures
            error is Serialization ==> r@ == AddResultView::Serialization,
            error is Type ==> r@ == AddResultView::TypeMismatch(
                crate::cl_type::cl_type_name(error->Type_0.expected),
                crate::cl_type::cl_type_name(error->Type_0.found),
            ),
    {
        match error {
            CLValueError::Serialization(e) => AddResult::Serialization(e),
            CLValueError::Type(m) => AddResult::TypeMismatch(
                TypeMismatch::new(m.expected.name(), m.found.name()),
            ),
        }
    }
}

/// What `add` does with a value, before it looks at the key's current value.
pub enum AddPlan {
    /// Apply this transform.
    Apply(TransformView),
    /// The value is tagged with a type that `add` takes, but its bytes do not decode.
    Undecodable,
    /// The value is of a type that `add` does not take.
    WrongType,
}

/// The number of width 128, 256 or 512 whose bytes are `x`.
pub open spec fn u128_of(x: Seq<u8>) -> U128 {
    choose|u: U128| u@ == x
}

pub open spec fn u256_of(x: Seq<u8>) -> U256 {
    choose|u: U256| u@ == x
}

pub open spec fn u512_of(x: Seq<u8>) -> U512 {
    choose|u: U512| u@ == x
}

pub open spec fn add_plan(v: StoredValueView) -> AddPlan {
    match v {
        StoredValueView::CLValue(c) => if c.0 == CLType::I32 {
            match dec_whole::<i32>(c.1) {
                Some(x) => AddPlan::Apply(TransformView::AddInt32(x)),
                None => AddPlan::Undecodable,
            }
        } else if c.0 == CLType::U64 {
            match dec_whole::<u64>(c.1) {
                Some(x) => AddPlan::Apply(TransformView::AddUInt64(x)),
                None => AddPlan::Undecodable,
            }
        } else if c.0 == CLType::U128 {
            match dec_whole::<U128>(c.1) {
                Some(x) => AddPlan::Apply(TransformView::AddUInt128(u128_of(x))),
                None => AddPlan::Undecodable,
            }
        } else if c.0 == CLType::U256 {
            match dec_whole::<U256>(c.1) {
                Some(x) => AddPlan::Apply(TransformView::AddUInt256(u256_of(x))),
                None => AddPlan::Undecodable,
            }
        } else if c.0 == CLType::U512 {
            match dec_whole::<U512>(c.1) {
                Some(x) => AddPlan::Apply(TransformView::AddUInt512(u512_of(x))),
                None => AddPlan::Undecodable,
            }
        } else if c.0 == spec_named_key_type() {
            match dec_whole::<(String, Key)>(c.1) {
                Some(nk) => AddPlan::Apply(
                    TransformView::AddKeys(Map::<Seq<char>, Key>::empty().insert(nk.0, nk.1)),
                ),
                None => AddPlan::Undecodable,
            }
        } else {
            AddPlan::WrongType
        },
        _ => AddPlan::WrongType,
    }
}

/// What `add` returns for a value whose key currently holds `cur`.
pub open spec fn add_outcome(v: StoredValueView, cur: StoredValueView) -> AddResultView {
    match add_plan(v) {
        AddPlan::WrongType => AddResultView::TypeMismatch(ADD_TYPES@, type_name_of(v)),
        AddPlan::Undecodable => AddResultView::Serialization,
        AddPlan::Apply(t) => match spec_apply(t, cur) {
            Ok(_) => AddResultView::Success,
            Err(TransformErrorView::TypeMismatch(e, f)) => AddResultView::TypeMismatch(e, f),
            Err(TransformErrorView::Serialization) => AddResultView::Serialization,
        },
    }
}

/// Whether transform `t` turns what the snapshot holds (if anything) into `m`;
/// where the snapshot holds nothing, `t` must write `m`.
pub open spec fn produces(t: TransformView, base: Option<StoredValueView>, m: StoredValueView) -> bool {
    match base {
        Some(x) => spec_apply(t, x) == Ok::<StoredValueView, TransformErrorView>(m),
        None => t == TransformView::Write(m),
    }
}

pub open spec fn base_at(base: Map<Key, StoredValueView>, k: Key) -> Option<StoredValueView> {
    if base.contains_key(k) {
        Some(base[k])
    } else {
        None
    }
}

/// The recorded transforms agree with the writes: each written key has a
/// transform that turns the snapshot's value into the written one, and a key
/// that was only read has the identity.
pub open spec fn effects_consistent(
    base: Map<Key, StoredValueView>,
    muts: Map<Key, StoredValueView>,
    fns: Map<Key, TransformView>,
) -> bool {
    &&& forall|k: Key| #[trigger]
        muts.contains_key(k) ==> fns.contains_key(k) && produces(fns[k], base_at(base, k), muts[k])
    &&& forall|k: Key| #[trigger]
        fns.contains_key(k) && !muts.contains_key(k) ==> fns[k] == TransformView::Identity
}

/// What `add` applies is an addition.
proof fn lemma_add_plan_is_addition(v: StoredValueView)
    ensures
        add_plan(v) is Apply ==> crate::transform::is_addition(add_plan(v)->Apply_0),
{
}

/// Whether two tracking copies hold the same writes, accesses and transforms.
pub open spec fn same_effects<R: StateReader>(a: TrackingCopy<R>, b: TrackingCopy<R>) -> bool {
    a.muts() == b.muts() && a.ops_view() == b.ops_view() && a.fns_view() == b.fns_view()
}

/// What a successful `add` of `v` at normalized key `k` does to a tracking copy.
pub open spec fn add_applied<R: StateReader>(
    a: TrackingCopy<R>,
    b: TrackingCopy<R>,
    k: Key,
    v: StoredValueView,
) -> bool {
    let t = add_plan(v)->Apply_0;
    &&& b.muts() == a.muts().insert(k, spec_apply(t, a.current()[k])->Ok_0)
    &&& b.ops_view() == spec_insert_add::<Op>(a.ops_view(), k, Op::Add)
    &&& b.fns_view() == spec_insert_add::<Transform>(a.fns_view(), k, t)
}

/// The result of a query.
#[derive(Debug)]
pub enum TrackingCopyQueryResult {
    Success(StoredValue),
    ValueNotFound(String),
    CircularReference(String),
}

/// How a query ends, as mathematical values.
pub enum QueryOutcome {
    Found(StoredValueView),
    NotFound,
    Circular,
}

/// The characters of each name of a path.
pub open spec fn path_names(path: Seq<String>) -> Seq<Seq<char>> {
    path.map_values(|s: String| s@)
}

/// The named keys of an account or a contract.
pub open spec fn named_keys_of(v: StoredValueView) -> Option<Map<Seq<char>, Key>> {
    match v {
        StoredValueView::Account(m) => Some(m),
        StoredValueView::Contract(_, m) => Some(m),
        _ => None,
    }
}

/// The key that a `CLValue` tagged `Key` holds.
pub open spec fn key_value_of(v: StoredValueView) -> Option<Key> {
    match v {
        StoredValueView::CLValue(c) => if c.0 == CLType::Key {
            dec_whole::<Key>(c.1)
        } else {
            None
        },
        _ => None,
    }
}

/// Walks `state` from `cur`: an account or a contract is left through the key
/// bound to the next name, a key value through the key it holds; a key met a
/// second time is a circular reference.
pub open spec fn walk(
    state: Map<Key, StoredValueView>,
    cur: Key,
    names: Seq<Seq<char>>,
    visited: Set<Key>,
) -> QueryOutcome
    decreases names.len(), state.dom().difference(visited).len(),
    when state.dom().finite()
{
    if visited.contains(cur) {
        QueryOutcome::Circular
    } else if !state.contains_key(cur) {
        QueryOutcome::NotFound
    } else if names.len() == 0 {
        QueryOutcome::Found(state[cur])
    } else {
        let v = state[cur];
        match named_keys_of(v) {
            Some(m) => if m.contains_key(names[0]) {
                walk(state, m[names[0]].spec_normalize(), names.drop_first(), visited.insert(cur))
            } else {
                QueryOutcome::NotFound
            },
            None => match key_value_of(v) {
                Some(k) => {
                    proof {
                        assert(state.dom().difference(visited.insert(cur)) =~= state.dom().difference(
                            visited,
                        ).remove(cur));
                    }
                    walk(state, k.spec_normalize(), names, visited.insert(cur))
                },
                None => QueryOutcome::NotFound,
            },
        }
    }
}

/// The names walked, each after a slash.
pub open spec fn path_str(names: Seq<Seq<char>>) -> Seq<char>
    decreases names.len(),
{
    if names.len() == 0 {
        Seq::empty()
    } else {
        path_str(names.drop_last()) + "/"@ + names.last()
    }
}

/// A query's message: what stopped it, then the path walked.
pub open spec fn at_path(prefix: Seq<char>, walked: Seq<Seq<char>>) -> Seq<char> {
    prefix + " at path: "@ + path_str(walked)
}

/// The message of a query that does not find a value, along the same walk as
/// `walk`; `walked` holds the names followed so far.
pub open spec fn walk_message(
    state: Map<Key, StoredValueView>,
    cur: Key,
    names: Seq<Seq<char>>,
    visited: Set<Key>,
    walked: Seq<Seq<char>>,
) -> Seq<char>
    decreases names.len(), state.dom().difference(visited).len(),
    when state.dom().finite()
{
    if visited.contains(cur) {
        at_path("Circular reference"@, walked)
    } else if !state.contains_key(cur) {
        at_path("Failed to find base key"@, walked)
    } else if names.len() == 0 {
        Seq::empty()
    } else {
        let v = state[cur];
        match v {
            StoredValueView::Account(m) => if m.contains_key(names[0]) {
                walk_message(
                    state,
                    m[names[0]].spec_normalize(),
                    names.drop_first(),
                    visited.insert(cur),
                    walked.push(names[0]),
                )
            } else {
                at_path("Name "@ + names[0] + " not found in "@ + "Account"@, walked.push(names[0]))
            },
            StoredValueView::Contract(_, m) => if m.contains_key(names[0]) {
                walk_message(
                    state,
                    m[names[0]].spec_normalize(),
                    names.drop_first(),
                    visited.insert(cur),
                    walked.push(names[0]),
                )
            } else {
                at_path("Name "@ + names[0] + " not found in "@ + "Contract"@, walked.push(names[0]))
            },
            StoredValueView::CLValue(c) => if c.0 == CLType::Key {
                match dec_whole::<Key>(c.1) {
                    Some(k) => {
                        proof {
                            assert(state.dom().difference(visited.insert(cur)) =~= state.dom().difference(
                                visited,
                            ).remove(cur));
                        }
                        walk_message(state, k.spec_normalize(), names, visited.insert(cur), walked)
                    },
                    None => at_path("Failed to parse CLValue as Key"@, walked),
                }
            } else {
                at_path(NOT_TRAVERSABLE@, walked)
            },
            StoredValueView::ContractPackage(_) => at_path("ContractPackage value found"@, walked),
            StoredValueView::ContractWasm(_) => at_path("ContractWasm value found"@, walked),
        }
    }
}

/// What a query says of a value that it cannot walk through.
pub const NOT_TRAVERSABLE: &'static str =
    "Query cannot continue as the value found is not an account, contract nor key to such";

/// Whether a query result is the outcome that the walk gives.
pub open spec fn query_matches(r: TrackingCopyQueryResult, o: QueryOutcome) -> bool {
    match (r, o) {
        (TrackingCopyQueryResult::Success(v), QueryOutcome::Found(w)) => v@ == w,
        (TrackingCopyQueryResult::ValueNotFound(_), QueryOutcome::NotFound) => true,
        (TrackingCopyQueryResult::CircularReference(_), QueryOutcome::Circular) => true,
        _ => false,
    }
}

/// `prefix`, then " at path: ", then the names followed so far, each after a slash.
fn path_message(prefix: &str, visited_names: &Vec<String>) -> (r: String)
    ensures
        r@ == at_path(prefix@, path_names(visited_names@)),
{
    let mut msg = String::from_str(prefix);
    msg.append(" at path: ");
    let mut i: usize = 0;
    while i < visited_names.len()
        invariant
            0 <= i <= visited_names@.len(),
            msg@ == prefix@ + " at path: "@ + path_str(path_names(visited_names@.subrange(0, i as int))),
        decreases visited_names@.len() - i,
    {
        msg.append("/");
        msg.append(visited_names[i].as_str());
        proof {
            let ns = path_names(visited_names@.subrange(0, i + 1));
            assert(ns.drop_last() =~= path_names(visited_names@.subrange(0, i as int)));
            assert(msg@ =~= prefix@ + " at path: "@ + path_str(ns));
        }
        i = i + 1;
    }
    assert(visited_names@.subrange(0, visited_names@.len() as int) =~= visited_names@);
    msg
}

/// "Name ", the name, then " not found in ", then `owner`.
fn name_not_found(name: &String, owner: &str) -> (r: String)
    ensures
        r@ == "Name "@ + name@ + " not found in "@ + owner@,
{
    let mut msg = String::from_str("Name ");
    msg.append(name.as_str());
    msg.append(" not found in ");
    msg.append(owner);
    msg
}

/// Whether `k` is among `keys`.
fn contains_key(keys: &Vec<Key>, k: &Key) -> (r: bool)
    ensures
        r == keys@.contains(*k),
{
    let mut i: usize = 0;
    while i < keys.len()
        invariant
            0 <= i <= keys@.len(),
            forall|j: int| 0 <= j < i ==> keys@[j] != *k,
        decreases keys@.len() - i,
    {
        if keys[i] == *k {
            return true;
        }
        i = i + 1;
    }
    false
}

/// A staged layer of reads, writes and adds above a snapshot of global state,
/// which records the effect of what it was asked to do.
pub struct TrackingCopy<R> {
    reader: R,
    cache: TrackingCopyCache,
    ops: AdditiveMap<Op>,
    fns: AdditiveMap<Transform>,
}

impl<R: StateReader> TrackingCopy<R> {
    /// The snapshot below.
    pub open spec fn base(&self) -> Map<Key, StoredValueView> {
        self.reader_view().state()
    }

    /// The values written or added to in this tracking copy.
    pub closed spec fn muts(&self) -> Map<Key, StoredValueView> {
        self.cache.muts()
    }

    /// What each key holds here: what was written, else what the snapshot holds.
    pub open spec fn current(&self) -> Map<Key, StoredValueView> {
        self.base().union_prefer_right(self.muts())
    }

    pub closed spec fn ops_view(&self) -> Map<Key, Op> {
        self.ops@
    }

    pub closed spec fn fns_view(&self) -> Map<Key, TransformView> {
        self.fns@
    }

    /// The cache of reads and writes.
    pub closed spec fn cache_view(&self) -> TrackingCopyCache {
        self.cache
    }

    pub closed spec fn reader_view(&self) -> R {
        self.reader
    }

    pub closed spec fn wf(&self) -> bool {
        &&& self.cache.wf()
        &&& effects_consistent(self.base(), self.muts(), self.fns_view())
        &&& forall|k: Key| #[trigger]
            self.cache.reads().contains_key(k) ==> self.base().contains_key(k)
                && self.cache.reads()[k] == self.base()[k]
    }

    pub fn new(reader: R) -> (r: TrackingCopy<R>)
        ensures
            r.wf(),
            r.reader_view() == reader,
            r.cache_view().reads_order() == Seq::<(Key, StoredValueView)>::empty(),
            r.cache_view().max_size() == DEFAULT_CACHE_SIZE,
            r.cache_view().current_size() == 0,
            r.muts() == Map::<Key, StoredValueView>::empty(),
            r.ops_view() == Map::<Key, Op>::empty(),
            r.fns_view() == Map::<Key, TransformView>::empty(),
    {
        TrackingCopy {
            reader,
            cache: TrackingCopyCache::new(DEFAULT_CACHE_SIZE),
            ops: AdditiveMap::new(),
            fns: AdditiveMap::new(),
        }
    }

    pub fn reader(&self) -> (r: &R)
        ensures
            *r == self.reader_view(),
    {
        &self.reader
    }

    /// Whether `k` is held in the cache, written or read, so that looking it up
    /// needs no call to the reader.
    pub open spec fn is_cached(&self, k: Key) -> bool {
        self.muts().contains_key(k) || self.cache_view().reads().contains_key(k)
    }

    /// The cached reads agree with the snapshot.
    pub proof fn lemma_reads_agree(&self)
        requires
            self.wf(),
        ensures
            forall|k: Key| #[trigger]
                self.cache_view().reads().contains_key(k) ==> self.base().contains_key(k)
                    && self.cache_view().reads()[k] == self.base()[k],
    {
    }

    /// What `key` holds here; the read is cached, and no access is recorded.
    pub fn get(&mut self, key: &Key) -> (r: Result<Option<StoredValue>, StorageError>)
        requires
            old(self).wf(),
        ensures
            final(self).wf(),
            final(self).reader_view() == old(self).reader_view(),
            final(self).muts() == old(self).muts(),
            final(self).ops_view() == old(self).ops_view(),
            final(self).fns_view() == old(self).fns_view(),
            final(self).cache_view().max_size() == old(self).cache_view().max_size(),
            match r {
                Ok(Some(v)) => old(self).current().contains_key(*key) && v@ == old(self).current()[*key],
                Ok(None) => !old(self).current().contains_key(*key),
                Err(_) => !old(self).muts().contains_key(*key) && !old(self).cache_view().reads().contains_key(*key),
            },
            old(self).is_cached(*key) ==> r is Ok,
            !old(self).muts().contains_key(*key) && old(self).cache_view().reads().contains_key(*key)
                ==> r is Ok && r->Ok_0 is Some && r->Ok_0->Some_0@ == old(self).cache_view().reads()[*key],
            r is Ok && r->Ok_0 is Some && !old(self).muts().contains_key(*key)
                && !old(self).cache_view().reads().contains_key(*key)
                && crate::cache::meter(r->Ok_0->Some_0@) <= old(self).cache_view().max_size()
                ==> final(self).cache_view().reads().contains_key(*key),
    {
        if let Some(value) = self.cache.get(key) {
            return Ok(Some(value));
        }
        match self.reader.read(key)? {
            Some(value) => {
                let ghost before = self.cache.reads();
                self.cache.insert_read(*key, value.copy());
                proof {
                    assert forall|k: Key| #[trigger]
                        self.cache.reads().contains_key(k) implies self.base().contains_key(k)
                        && self.cache.reads()[k] == self.base()[k] by {
                        if k != *key {
                            assert(before.contains_key(k));
                        }
                    }
                }
                Ok(Some(value))
            },
            None => Ok(None),
        }
    }

    /// What `key`, normalized, holds here; a hit is recorded as a read.
    pub fn read(&mut self, key: &Key) -> (r: Result<Option<StoredValue>, StorageError>)
        requires
            old(self).wf(),
        ensures
            final(self).wf(),
            final(self).reader_view() == old(self).reader_view(),
            final(self).muts() == old(self).muts(),
            match r {
                Ok(Some(v)) => old(self).current().contains_key(key.spec_normalize())
                    && v@ == old(self).current()[key.spec_normalize()] && final(self).ops_view() == spec_insert_add::<Op>(
                    old(self).ops_view(),
                    key.spec_normalize(),
                    Op::Read,
                ) && final(self).fns_view() == spec_insert_add::<Transform>(
                    old(self).fns_view(),
                    key.spec_normalize(),
                    TransformView::Identity,
                ),
                Ok(None) => !old(self).current().contains_key(key.spec_normalize())
                    && final(self).ops_view() == old(self).ops_view() && final(self).fns_view()
                    == old(self).fns_view(),
                Err(_) => final(self).ops_view() == old(self).ops_view() && final(self).fns_view()
                    == old(self).fns_view(),
            },
            old(self).is_cached(key.spec_normalize()) ==> r is Ok,
    {
        let normalized_key = key.normalize();
        match self.get(&normalized_key)? {
            Some(value) => {
                self.ops.insert_add(normalized_key, Op::Read);
                self.fns.insert_add(normalized_key, Transform::Identity);
                Ok(Some(value))
            },
            None => Ok(None),
        }
    }

    /// Writes `value` under `key`, normalized, and records the write.
    pub fn write(&mut self, key: Key, value: StoredValue)
        requires
            old(self).wf(),
        ensures
            final(self).wf(),
            final(self).reader_view() == old(self).reader_view(),
            final(self).muts() == old(self).muts().insert(key.spec_normalize(), value@),
            final(self).cache_view().reads_order() == old(self).cache_view().reads_order(),
            final(self).cache_view().current_size() == old(self).cache_view().current_size(),
            final(self).cache_view().max_size() == old(self).cache_view().max_size(),
            final(self).ops_view() == spec_insert_add::<Op>(
                old(self).ops_view(),
                key.spec_normalize(),
                Op::Write,
            ),
            final(self).fns_view() == spec_insert_add::<Transform>(
                old(self).fns_view(),
                key.spec_normalize(),
                TransformView::Write(value@),
            ),
    {
        let normalized_key = key.normalize();
        self.cache.insert_write(normalized_key, value.copy());
        self.ops.insert_add(normalized_key, Op::Write);
        self.fns.insert_add(normalized_key, Transform::Write(value));
    }

    /// The transform that adding `value` asks for, or the outcome that refuses it.
    fn plan_add(value: StoredValue) -> (r: Result<Transform, AddResult>)
        ensures
            match add_plan(value@) {
                AddPlan::Apply(t) => r is Ok && r->Ok_0@ == t,
                AddPlan::Undecodable => r is Err && r->Err_0@ == AddResultView::Serialization,
                AddPlan::WrongType => r is Err && r->Err_0@ == AddResultView::TypeMismatch(
                    ADD_TYPES@,
                    type_name_of(value@),
                ),
            },
    {
        let found = value.kind_name();
        let mismatch = AddResult::TypeMismatch(
            TypeMismatch::new(String::from_str(ADD_TYPES), found),
        );
        match value {
            StoredValue::CLValue(cl_value) => {
                let t = cl_value.cl_type().copy();
                if t.same(&CLType::I32) {
                    match cl_value.into_t::<i32>() {
                        Ok(x) => Ok(Transform::AddInt32(x)),
                        Err(e) => Err(AddResult::from_cl_value_error(e)),
                    }
                } else if t.same(&CLType::U64) {
                    match cl_value.into_t::<u64>() {
                        Ok(x) => Ok(Transform::AddUInt64(x)),
                        Err(e) => Err(AddResult::from_cl_value_error(e)),
                    }
                } else if t.same(&CLType::U128) {
                    match cl_value.into_t::<U128>() {
                        Ok(x) => {
                            proof {
                                vstd::array::axiom_array_ext_equal(u128_of(x@).0, x.0);
                            }
                            Ok(Transform::AddUInt128(x))
                        },
                        Err(e) => Err(AddResult::from_cl_value_error(e)),
                    }
                } else if t.same(&CLType::U256) {
                    match cl_value.into_t::<U256>() {
                        Ok(x) => {
                            proof {
                                vstd::array::axiom_array_ext_equal(u256_of(x@).0, x.0);
                            }
                            Ok(Transform::AddUInt256(x))
                        },
                        Err(e) => Err(AddResult::from_cl_value_error(e)),
                    }
                } else if t.same(&CLType::U512) {
                    match cl_value.into_t::<U512>() {
                        Ok(x) => {
                            proof {
                                vstd::array::axiom_array_ext_equal(u512_of(x@).0, x.0);
                            }
                            Ok(Transform::AddUInt512(x))
                        },
                        Err(e) => Err(AddResult::from_cl_value_error(e)),
                    }
                } else if t.same(&named_key_type()) {
                    match cl_value.into_t::<(String, Key)>() {
                        Ok(name_and_key) => {
                            let mut map = NamedKeys::new();
                            map.insert(name_and_key.0, name_and_key.1);
                            Ok(Transform::AddKeys(map))
                        },
                        Err(e) => Err(AddResult::from_cl_value_error(e)),
                    }
                } else {
                    Err(mismatch)
                }
            },
            _ => Err(mismatch),
        }
    }

    /// Adds `value` to what `key`, normalized, holds: numbers of the same width
    /// add, wrapping; a named key is bound in an account or a contract.
    pub fn add(&mut self, key: Key, value: StoredValue) -> (res: Result<AddResult, StorageError>)
        requires
            old(self).wf(),
        ensures
            final(self).wf(),
            final(self).reader_view() == old(self).reader_view(),
            res is Err ==> same_effects(*old(self), *final(self)),
            old(self).is_cached(key.spec_normalize()) ==> res is Ok,
            res is Ok ==> ({
                let r = res->Ok_0;
                let k = key.spec_normalize();
                &&& old(self).current().contains_key(k) ==> r@ == add_outcome(
                    value@,
                    old(self).current()[k],
                )
                &&& !old(self).current().contains_key(k) ==> r@ == AddResultView::KeyNotFound(k)
                &&& r@ == AddResultView::Success ==> add_applied(*old(self), *final(self), k, value@)
                &&& r@ != AddResultView::Success ==> same_effects(*old(self), *final(self))
            }),
    {
        let normalized_key = key.normalize();
        let current_value = match self.get(&normalized_key)? {
            None => {
                return Ok(AddResult::KeyNotFound(normalized_key));
            },
            Some(current_value) => current_value,
        };
        let transform = match Self::plan_add(value) {
            Ok(t) => t,
            Err(refusal) => {
                return Ok(refusal);
            },
        };
        let ghost cur = current_value@;
        let ghost t = transform@;
        let ghost base = self.base();
        let ghost muts0 = self.muts();
        let ghost fns0 = self.fns_view();
        match transform.copy().apply(current_value) {
            Ok(new_value) => {
                let ghost nv = new_value@;
                self.cache.insert_write(normalized_key, new_value);
                self.ops.insert_add(normalized_key, Op::Add);
                self.fns.insert_add(normalized_key, transform);
                proof {
                    let k = normalized_key;
                    lemma_add_plan_is_addition(value@);
                    if muts0.contains_key(k) {
                        let f = fns0[k];
                        if base.contains_key(k) {
                            crate::transform::lemma_combine_then_apply(f, t, base[k], cur, nv);
                        }
                    }
                    assert(produces(self.fns_view()[k], base_at(base, k), nv));
                    assert forall|x: Key| #[trigger]
                        self.muts().contains_key(x) implies self.fns_view().contains_key(x)
                        && produces(self.fns_view()[x], base_at(base, x), self.muts()[x]) by {
                        if x != k {
                            assert(muts0.contains_key(x));
                        }
                    }
                    assert forall|x: Key| #[trigger]
                        self.fns_view().contains_key(x) && !self.muts().contains_key(x)
                        implies self.fns_view()[x] == TransformView::Identity by {
                        assert(fns0.contains_key(x));
                    }
                }
                Ok(AddResult::Success)
            },
            Err(TransformError::TypeMismatch(m)) => Ok(AddResult::TypeMismatch(m)),
            Err(TransformError::Serialization(e)) => Ok(AddResult::Serialization(e)),
        }
    }

    /// The accesses and changes recorded so far.
    pub fn effect(&self) -> (r: ExecutionEffect)
        ensures
            r.ops@ == self.ops_view(),
            r.transforms@ == self.fns_view(),
    {
        ExecutionEffect { ops: self.ops.copy(), transforms: self.fns.copy() }
    }

    /// Follows `path` from `base_key` through the snapshot alone: what this
    /// tracking copy has written is not seen.
    pub fn query(&self, base_key: Key, path: &Vec<String>) -> (res: Result<TrackingCopyQueryResult, StorageError>)
        ensures
            res is Ok ==> ({
                let r = res->Ok_0;
                &&& query_matches(
                r,
                walk(self.base(), base_key.spec_normalize(), path_names(path@), Set::empty()),
            )
                &&& match r {
                TrackingCopyQueryResult::Success(_) => true,
                TrackingCopyQueryResult::ValueNotFound(m) => m@ == walk_message(
                    self.base(),
                    base_key.spec_normalize(),
                    path_names(path@),
                    Set::empty(),
                    Seq::empty(),
                ),
                TrackingCopyQueryResult::CircularReference(m) => m@ == walk_message(
                    self.base(),
                    base_key.spec_normalize(),
                    path_names(path@),
                    Set::empty(),
                    Seq::empty(),
                ),
            }
            }),
    {
        let ghost state = self.base();
        proof {
            self.reader.lemma_state_finite();
        }
        let mut current_key = base_key.normalize();
        let mut visited_keys: Vec<Key> = Vec::new();
        let mut visited_names: Vec<String> = Vec::new();
        let mut i: usize = 0;
        assert(path_names(path@).subrange(0, path@.len() as int) =~= path_names(path@));
        assert(visited_keys@.to_set() =~= Set::<Key>::empty());
        assert(path_names(visited_names@) =~= Seq::<Seq<char>>::empty());
        while i <= path.len()
            invariant
                state == self.base(),
                state.dom().finite(),
                0 <= i <= path@.len(),
                walk(state, base_key.spec_normalize(), path_names(path@), Set::empty()) == walk(
                    state,
                    current_key,
                    path_names(path@).subrange(i as int, path@.len() as int),
                    visited_keys@.to_set(),
                ),
                walk_message(
                    state,
                    base_key.spec_normalize(),
                    path_names(path@),
                    Set::empty(),
                    Seq::empty(),
                ) == walk_message(
                    state,
                    current_key,
                    path_names(path@).subrange(i as int, path@.len() as int),
                    visited_keys@.to_set(),
                    path_names(visited_names@),
                ),
            decreases path@.len() - i, state.dom().difference(visited_keys@.to_set()).len(),
        {
            let ghost names = path_names(path@).subrange(i as int, path@.len() as int);
            let ghost vis = visited_keys@.to_set();
            if contains_key(&visited_keys, &current_key) {
                return Ok(TrackingCopyQueryResult::CircularReference(
                    path_message("Circular reference", &visited_names),
                ));
            }
            let stored_value = match self.reader.read(&current_key)? {
                None => {
                    return Ok(TrackingCopyQueryResult::ValueNotFound(
                        path_message("Failed to find base key", &visited_names),
                    ));
                },
                Some(v) => v,
            };
            if i == path.len() {
                return Ok(TrackingCopyQueryResult::Success(stored_value));
            }
            let ghost old_key = current_key;
            let ghost before_keys = visited_keys@;
            visited_keys.push(current_key);
            proof {
                assert forall|x: Key| visited_keys@.contains(x) <==> (before_keys.contains(x) || x
                    == old_key) by {
                    if before_keys.contains(x) {
                        let j = choose|j: int| 0 <= j < before_keys.len() && before_keys[j] == x;
                        assert(visited_keys@[j] == x);
                    }
                    if visited_keys@.contains(x) {
                        let j = choose|j: int| 0 <= j < visited_keys@.len() && visited_keys@[j] == x;
                        if j < before_keys.len() {
                            assert(before_keys[j] == x);
                        }
                    }
                    if x == old_key {
                        assert(visited_keys@[before_keys.len() as int] == x);
                    }
                }
                assert(visited_keys@.to_set() =~= vis.insert(old_key));
            }
            match stored_value {
                StoredValue::Account(account) => {
                    let name = &path[i];
                    match account.named_keys.get(name) {
                        Some(key) => {
                            current_key = key.normalize();
                            let ghost before = visited_names@;
                            visited_names.push(name.clone());
                            proof {
                                assert(path_names(visited_names@) =~= path_names(before).push(name@));
                                assert(names[0] == name@);
                                assert(names.drop_first() =~= path_names(path@).subrange(
                                    i + 1,
                                    path@.len() as int,
                                ));
                            }
                            i = i + 1;
                        },
                        None => {
                            let msg = name_not_found(name, "Account");
                            let ghost before = visited_names@;
                            visited_names.push(name.clone());
                            proof {
                                assert(path_names(visited_names@) =~= path_names(before).push(name@));
                                assert(names[0] == name@);
                            }
                            return Ok(TrackingCopyQueryResult::ValueNotFound(
                                path_message(msg.as_str(), &visited_names),
                            ));
                        },
                    }
                },
                StoredValue::Contract(contract) => {
                    let name = &path[i];
                    match contract.named_keys.get(name) {
                        Some(key) => {
                            current_key = key.normalize();
                            let ghost before = visited_names@;
                            visited_names.push(name.clone());
                            proof {
                                assert(path_names(visited_names@) =~= path_names(before).push(name@));
                                assert(names[0] == name@);
                                assert(names.drop_first() =~= path_names(path@).subrange(
                                    i + 1,
                                    path@.len() as int,
                                ));
                            }
                            i = i + 1;
                        },
                        None => {
                            let msg = name_not_found(name, "Contract");
                            let ghost before = visited_names@;
                            visited_names.push(name.clone());
                            proof {
                                assert(path_names(visited_names@) =~= path_names(before).push(name@));
                                assert(names[0] == name@);
                            }
                            return Ok(TrackingCopyQueryResult::ValueNotFound(
                                path_message(msg.as_str(), &visited_names),
                            ));
                        },
                    }
                },
                StoredValue::CLValue(cl_value) => {
                    if cl_value.cl_type().same(&CLType::Key) {
                        match cl_value.into_t::<Key>() {
                            Ok(key) => {
                                current_key = key.normalize();
                                proof {
                                    assert(state.dom().difference(vis.insert(old_key))
                                        =~= state.dom().difference(vis).remove(old_key));
                                }
                            },
                            Err(_) => {
                                return Ok(TrackingCopyQueryResult::ValueNotFound(
                                    path_message("Failed to parse CLValue as Key", &visited_names),
                                ));
                            },
                        }
                    } else {
                        return Ok(TrackingCopyQueryResult::ValueNotFound(
                            path_message(NOT_TRAVERSABLE, &visited_names),
                        ));
                    }
                },
                StoredValue::ContractPackage(_) => {
                    return Ok(TrackingCopyQueryResult::ValueNotFound(
                        path_message("ContractPackage value found", &visited_names),
                    ));
                },
                StoredValue::ContractWasm(_) => {
                    return Ok(TrackingCopyQueryResult::ValueNotFound(
                        path_message("ContractWasm value found", &visited_names),
                    ));
                },
            }
        }
        proof {
            assert(false);
        }
        Ok(TrackingCopyQueryResult::ValueNotFound(path_message("Path too long", &visited_names)))
    }

    /// A tracking copy that reads through this one, including its writes, and
    /// records its own changes apart from this one's.
    pub fn fork(&self) -> (r: TrackingCopy<&TrackingCopy<R>>)
        ensures
            r.wf(),
            r.reader_view() == self,
            r.base() == self.current(),
            r.cache_view().reads_order() == Seq::<(Key, StoredValueView)>::empty(),
            r.cache_view().max_size() == DEFAULT_CACHE_SIZE,
            r.cache_view().current_size() == 0,
            r.muts() == Map::<Key, StoredValueView>::empty(),
            r.ops_view() == Map::<Key, Op>::empty(),
            r.fns_view() == Map::<Key, TransformView>::empty(),
    {
        TrackingCopy::new(self)
    }
}

impl<'a, R: StateReader> StateReader for &'a TrackingCopy<R> {
    open spec fn state(&self) -> Map<Key, StoredValueView> {
        (*self).current()
    }

    proof fn lemma_state_finite(&self) {
        self.reader.lemma_state_finite();
        self.cache.lemma_muts_finite();
        assert((*self).current().dom() =~= (*self).base().dom().union((*self).muts().dom()));
    }

    fn read(&self, key: &Key) -> (r: Result<Option<StoredValue>, StorageError>) {
        if let Some(value) = self.cache.get_mut_cached(key) {
            return Ok(Some(value));
        }
        self.reader.read(key)
    }
}


// ---------------------------------------------------------------- laws

/// For every key written or added to, the recorded transform, applied to what
/// the snapshot holds there, gives the value last written; where the snapshot
/// holds nothing, the transform is that write.
pub proof fn lemma_transforms_reproduce_writes<R: StateReader>(tc: &TrackingCopy<R>, k: Key)
    requires
        tc.wf(),
        tc.muts().contains_key(k),
    ensures
        tc.fns_view().contains_key(k),
        tc.base().contains_key(k) ==> spec_apply(tc.fns_view()[k], tc.base()[k]) == Ok::<
            StoredValueView,
            TransformErrorView,
        >(tc.muts()[k]),
        !tc.base().contains_key(k) ==> tc.fns_view()[k] == TransformView::Write(tc.muts()[k]),
{
}

/// A query with an empty path gives what the snapshot holds at the normalized key.
pub proof fn lemma_query_empty_path(state: Map<Key, StoredValueView>, k: Key)
    requires
        state.dom().finite(),
    ensures
        walk(state, k.spec_normalize(), Seq::empty(), Set::empty()) == (if state.contains_key(
            k.spec_normalize(),
        ) {
            QueryOutcome::Found(state[k.spec_normalize()])
        } else {
            QueryOutcome::NotFound
        }),
{
}

/// Two keys that hold each other, as key values, form a circular reference for
/// any query that goes on past them.
pub proof fn lemma_query_cycle(
    state: Map<Key, StoredValueView>,
    a: Key,
    b: Key,
    names: Seq<Seq<char>>,
)
    requires
        state.dom().finite(),
        a.is_normalized(),
        b.is_normalized(),
        a != b,
        names.len() > 0,
        state.contains_key(a),
        state.contains_key(b),
        state[a] == StoredValueView::CLValue((CLType::Key, crate::key::enc_key(b))),
        state[b] == StoredValueView::CLValue((CLType::Key, crate::key::enc_key(a))),
    ensures
        walk(state, a, names, Set::empty()) == QueryOutcome::Circular,
{
    crate::cl_value::lemma_decode_encode::<Key>(a);
    crate::cl_value::lemma_decode_encode::<Key>(b);
    let v0 = Set::<Key>::empty();
    let v1 = v0.insert(a);
    let v2 = v1.insert(b);
    assert(key_value_of(state[a]) == Some(b));
    assert(key_value_of(state[b]) == Some(a));
    assert(v2.contains(a));
    assert(walk(state, a, names, v2) == QueryOutcome::Circular);
    assert(!v1.contains(b));
    assert(walk(state, b, names, v1) == walk(state, a, names, v2));
    assert(walk(state, a, names, v0) == walk(state, b, names, v1));
}

} // verus!
