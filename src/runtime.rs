use vstd::prelude::*;

use crate::bytesrepr::{dec_whole, deserialize, Error as BytesReprError, ToBytes};
use crate::cl_value::{
    cl_values_from_bytes, dec_cl_value_list, enc_cl_value, lemma_cl_value_list_prefix, list_fits,
    views_of, CLValue,
};
use crate::key::{enc_key, Key, ACCESS_ADD, ACCESS_READ, ACCESS_WRITE};
use crate::state::{StateReader, StorageError};
use crate::stored_value::{StoredValue, StoredValueView};
use crate::tracking_copy::{add_applied, same_effects, AddResult, AddResultView, TrackingCopy};
use crate::transform::{Op, Transform, TransformView};
use crate::additive_map::spec_insert_add;
use crate::value_codec::{enc_stored, stored_fits};

verus! {

/// Why the host stops a guest: a trap, which the guest cannot recover from.
#[derive(PartialEq, Eq, Debug)]
pub enum Error {
    /// The interpreter failed, in the words it gave.
    Interpreter(String),
    BytesRepr(BytesReprError),
    ForgedReference(Key),
    NoImportedMemory,
    ArgIndexOutOfBounds(usize),
    FunctionNotFound(String),
    /// The guest returned a value through `ret`.
    Ret,
    /// The guest reverted with a code.
    Revert(u32),
    /// The account that an execution runs for is not in global state.
    MissingAccount(Key),
    /// The store below the snapshot failed.
    Storage(StorageError),
}

/// Whether an outcome is a failure of the store below the snapshot.
pub open spec fn storage_failed<T>(r: Result<T, Error>) -> bool {
    r is Err && r->Err_0 is Storage
}

/// A failure that the guest sees as a code and may recover from.
#[derive(PartialEq, Eq, Structural, Clone, Copy, Debug)]
pub enum ApiError {
    MissingKey,
    TypeMismatch,
    Serialization,
    BufferTooSmall,
    ForgedReference,
    FunctionNotFound,
    ArgIndexOutOfBounds,
    User(u16),
}

/// The code that a guest sees for success.
pub const SUCCESS_CODE: u32 = 0;

/// The first code of the range that user codes are mapped into.
pub const USER_CODE_BASE: u32 = 65536;

pub open spec fn spec_api_code(e: ApiError) -> u32 {
    match e {
        ApiError::MissingKey => 1,
        ApiError::TypeMismatch => 2,
        ApiError::Serialization => 3,
        ApiError::BufferTooSmall => 4,
        ApiError::ForgedReference => 5,
        ApiError::FunctionNotFound => 6,
        ApiError::ArgIndexOutOfBounds => 7,
        ApiError::User(c) => (USER_CODE_BASE + c) as u32,
    }
}

/// The code that a guest sees for a failure.
pub fn api_code(e: ApiError) -> (r: u32)
    ensures
        r == spec_api_code(e),
{
    match e {
        ApiError::MissingKey => 1,
        ApiError::TypeMismatch => 2,
        ApiError::Serialization => 3,
        ApiError::BufferTooSmall => 4,
        ApiError::ForgedReference => 5,
        ApiError::FunctionNotFound => 6,
        ApiError::ArgIndexOutOfBounds => 7,
        ApiError::User(c) => USER_CODE_BASE + c as u32,
    }
}

/// The code that a guest sees for an outcome.
pub fn outcome_code(r: Result<(), ApiError>) -> (c: u32)
    ensures
        match r {
            Ok(()) => c == SUCCESS_CODE,
            Err(e) => c == spec_api_code(e),
        },
{
    match r {
        Ok(()) => SUCCESS_CODE,
        Err(e) => api_code(e),
    }
}

pub fn as_usize(u: u32) -> (r: usize)
    ensures
        r == u,
{
    u as usize
}

/// The rights a URef grants when this execution makes it.
pub const ACCESS_READ_ADD_WRITE: u8 = 7;

/// Whether `rights` include every right of `required`.
pub open spec fn grants(rights: u8, required: u8) -> bool {
    rights & required == required
}

/// Whether `known` lets a guest use `key` with `required` rights: a URef must be
/// known, with those rights; other keys are not references.
pub open spec fn spec_has_access(known: Seq<Key>, key: Key, required: u8) -> bool {
    match key {
        Key::URef(_, rights) => known.contains(key) && grants(rights, required),
        _ => true,
    }
}

/// What a guest sees of an `add` of `v` to `k` in a state where keys hold `current`.
pub open spec fn add_api_result(current: Map<Key, StoredValueView>, k: Key, v: StoredValueView) -> Result<
    (),
    ApiError,
> {
    if !current.contains_key(k.spec_normalize()) {
        Err(ApiError::MissingKey)
    } else {
        match crate::tracking_copy::add_outcome(v, current[k.spec_normalize()]) {
            AddResultView::Success => Ok(()),
            AddResultView::KeyNotFound(_) => Err(ApiError::MissingKey),
            AddResultView::TypeMismatch(_, _) => Err(ApiError::TypeMismatch),
            AddResultView::Serialization => Err(ApiError::Serialization),
        }
    }
}

/// The URefs held by the key values among some arguments, in order.
pub open spec fn arg_urefs(s: Seq<(crate::cl_type::CLType, Seq<u8>)>) -> Seq<Key>
    decreases s.len(),
{
    if s.len() == 0 {
        Seq::empty()
    } else {
        let last = s.last();
        let before = arg_urefs(s.drop_last());
        if last.0 == crate::cl_type::CLType::Key {
            match dec_whole::<Key>(last.1) {
                Some(k) => if k is URef {
                    before.push(k)
                } else {
                    before
                },
                None => before,
            }
        } else {
            before
        }
    }
}

/// The URefs of a prefix of some arguments come first among those of all of them.
proof fn lemma_arg_urefs_prefix(s: Seq<(crate::cl_type::CLType, Seq<u8>)>, n: int)
    requires
        0 <= n <= s.len(),
    ensures
        arg_urefs(s.subrange(0, n)).len() <= arg_urefs(s).len(),
        forall|j: int|
            0 <= j < arg_urefs(s.subrange(0, n)).len() ==> #[trigger] arg_urefs(s.subrange(0, n))[j]
                == arg_urefs(s)[j],
    decreases s.len() - n,
{
    if n < s.len() {
        lemma_arg_urefs_prefix(s, n + 1);
        assert(s.subrange(0, n + 1).drop_last() =~= s.subrange(0, n));
        let p = arg_urefs(s.subrange(0, n));
        let q = arg_urefs(s.subrange(0, n + 1));
        assert forall|j: int| 0 <= j < p.len() implies #[trigger] p[j] == arg_urefs(s)[j] by {
            assert(q[j] == p[j]);
            assert(q[j] == arg_urefs(s)[j]);
        }
    } else {
        assert(s.subrange(0, n) =~= s);
    }
}

/// How a guest's run ended.
#[derive(PartialEq, Eq, Debug)]
pub enum CallOutcome {
    Returned,
    Trapped(Error),
}

/// The host side of one guest's run: its arguments, the references it may use,
/// what it returned, and the buffer through which the host hands it bytes.
pub struct Runtime {
    args: Vec<Vec<u8>>,
    known_urefs: Vec<Key>,
    result: Vec<u8>,
    host_buf: Vec<u8>,
}

impl Runtime {
    pub closed spec fn args_view(&self) -> Seq<Seq<u8>> {
        self.args@.map_values(|a: Vec<u8>| a@)
    }

    pub closed spec fn known(&self) -> Seq<Key> {
        self.known_urefs@
    }

    pub closed spec fn result_view(&self) -> Seq<u8> {
        self.result@
    }

    pub closed spec fn host_buf_view(&self) -> Seq<u8> {
        self.host_buf@
    }

    pub fn new(args: Vec<Vec<u8>>, known_urefs: Vec<Key>) -> (r: Runtime)
        ensures
            r.args_view() == args@.map_values(|a: Vec<u8>| a@),
            r.known() == known_urefs@,
            r.result_view() == Seq::<u8>::empty(),
            r.host_buf_view() == Seq::<u8>::empty(),
    {
        Runtime { args, known_urefs, result: Vec::new(), host_buf: Vec::new() }
    }

    /// Whether the guest may use `key` with `required` rights.
    pub fn has_access(&self, key: &Key, required: u8) -> (r: bool)
        ensures
            r == spec_has_access(self.known(), *key, required),
    {
        match key {
            Key::URef(_, rights) => {
                if *rights & required != required {
                    return false;
                }
                let mut i: usize = 0;
                while i < self.known_urefs.len()
                    invariant
                        0 <= i <= self.known_urefs@.len(),
                        grants(*rights, required),
                        *key == Key::URef(key->URef_0, *rights),
                        forall|j: int| 0 <= j < i ==> self.known_urefs@[j] != *key,
                    decreases self.known_urefs@.len() - i,
                {
                    if self.known_urefs[i] == *key {
                        assert(self.known_urefs@[i as int] == *key);
                        assert(self.known_urefs@.contains(*key));
                        assert(grants(*rights, required));
                        return true;
                    }
                    i = i + 1;
                }
                false
            },
            _ => true,
        }
    }

    /// Stages argument `i` in the host buffer and gives its length.
    pub fn load_arg(&mut self, i: usize) -> (r: Result<usize, Error>)
        ensures
            final(self).known() == old(self).known(),
            final(self).args_view() == old(self).args_view(),
            final(self).result_view() == old(self).result_view(),
            i < old(self).args_view().len() ==> r == Ok::<usize, Error>(
                old(self).args_view()[i as int].len() as usize,
            ) && final(self).host_buf_view() == old(self).args_view()[i as int],
            i >= old(self).args_view().len() ==> r == Err::<usize, Error>(
                Error::ArgIndexOutOfBounds(i),
            ) && final(self).host_buf_view() == old(self).host_buf_view(),
    {
        if i < self.args.len() {
            self.host_buf = self.args[i].clone();
            assert(self.host_buf@ =~= old(self).args_view()[i as int]);
            Ok(self.host_buf.len())
        } else {
            Err(Error::ArgIndexOutOfBounds(i))
        }
    }

    /// The length of argument `i`.
    pub fn get_arg_size(&self, i: usize) -> (r: Result<usize, ApiError>)
        ensures
            i < self.args_view().len() ==> r == Ok::<usize, ApiError>(
                self.args_view()[i as int].len() as usize,
            ),
            i >= self.args_view().len() ==> r == Err::<usize, ApiError>(
                ApiError::ArgIndexOutOfBounds,
            ),
    {
        if i < self.args.len() {
            Ok(self.args[i].len())
        } else {
            Err(ApiError::ArgIndexOutOfBounds)
        }
    }

    /// Argument `i`, for a guest buffer of `dest_size` bytes.
    pub fn get_arg(&self, i: usize, dest_size: usize) -> (r: Result<Vec<u8>, ApiError>)
        ensures
            i >= self.args_view().len() ==> r == Err::<Vec<u8>, ApiError>(
                ApiError::ArgIndexOutOfBounds,
            ),
            i < self.args_view().len() && dest_size < self.args_view()[i as int].len() ==> r
                == Err::<Vec<u8>, ApiError>(ApiError::BufferTooSmall),
            i < self.args_view().len() && dest_size >= self.args_view()[i as int].len() ==> r
                is Ok && r->Ok_0@ == self.args_view()[i as int],
    {
        if i >= self.args.len() {
            return Err(ApiError::ArgIndexOutOfBounds);
        }
        if dest_size < self.args[i].len() {
            return Err(ApiError::BufferTooSmall);
        }
        let a = self.args[i].clone();
        assert(a@ =~= self.args_view()[i as int]);
        Ok(a)
    }

    /// Hands the host buffer to a guest buffer of `dest_size` bytes, which
    /// must hold it; the host buffer is then empty.
    pub fn read_host_buffer(&mut self, dest_size: usize) -> (r: Result<Vec<u8>, ApiError>)
        ensures
            final(self).known() == old(self).known(),
            final(self).args_view() == old(self).args_view(),
            final(self).result_view() == old(self).result_view(),
            dest_size < old(self).host_buf_view().len() ==> r == Err::<Vec<u8>, ApiError>(
                ApiError::BufferTooSmall,
            ) && final(self).host_buf_view() == old(self).host_buf_view(),
            dest_size >= old(self).host_buf_view().len() ==> r is Ok && r->Ok_0@ == old(
                self,
            ).host_buf_view() && final(self).host_buf_view() == Seq::<u8>::empty(),
    {
        if dest_size < self.host_buf.len() {
            return Err(ApiError::BufferTooSmall);
        }
        let out = self.host_buf.clone();
        assert(out@ =~= old(self).host_buf_view());
        self.host_buf = Vec::new();
        Ok(out)
    }

    /// Records what the guest returns, and the trap that ends its run.
    pub fn ret(&mut self, value: Vec<u8>) -> (r: Error)
        ensures
            r == Error::Ret,
            final(self).result_view() == value@,
            final(self).known() == old(self).known(),
            final(self).args_view() == old(self).args_view(),
            final(self).host_buf_view() == old(self).host_buf_view(),
    {
        self.result = value;
        Error::Ret
    }

    /// The trap that ends a run that reverts with `code`.
    pub fn revert(code: u32) -> (r: Error)
        ensures
            r == Error::Revert(code),
    {
        Error::Revert(code)
    }

    /// What the guest returned through `ret`.
    pub fn take_result(self) -> (r: Vec<u8>)
        ensures
            r@ == self.result_view(),
    {
        self.result
    }

    /// Stages `bytes` in the host buffer and gives their length.
    pub fn set_host_buf(&mut self, bytes: Vec<u8>) -> (r: usize)
        ensures
            r == bytes@.len(),
            final(self).host_buf_view() == bytes@,
            final(self).known() == old(self).known(),
            final(self).args_view() == old(self).args_view(),
            final(self).result_view() == old(self).result_view(),
    {
        self.host_buf = bytes;
        self.host_buf.len()
    }

    /// Whether the encoded URef in `bytes` is one that the guest may use.
    pub fn is_valid_uref(&self, bytes: &[u8]) -> (r: bool)
        ensures
            r == (match dec_whole::<Key>(bytes@) {
                Some(k) => k is URef && spec_has_access(self.known(), k, 0),
                None => false,
            }),
    {
        match deserialize::<Key>(bytes) {
            Ok(k) => {
                if let Key::URef(_, _) = k {
                    self.has_access(&k, 0)
                } else {
                    false
                }
            },
            Err(_) => false,
        }
    }

    /// The encoding of known reference `i`, in the order they became known.
    pub fn get_uref(&self, i: usize) -> (r: Result<Vec<u8>, Error>)
        ensures
            i < self.known().len() ==> r is Ok && r->Ok_0@ == enc_key(self.known()[i as int]),
            i >= self.known().len() ==> r == Err::<Vec<u8>, Error>(Error::ArgIndexOutOfBounds(i)),
    {
        if i < self.known_urefs.len() {
            let mut out: Vec<u8> = Vec::new();
            self.known_urefs[i].append_bytes(&mut out);
            assert(out@ =~= enc_key(self.known()[i as int]));
            Ok(out)
        } else {
            Err(Error::ArgIndexOutOfBounds(i))
        }
    }

    /// Reads the value under the key encoded in `key_bytes` and stages its
    /// encoding in the host buffer; gives its length. A hit is recorded as a read.
    pub fn read_value<R: StateReader>(
        &mut self,
        state: &mut TrackingCopy<R>,
        key_bytes: &[u8],
    ) -> (r: Result<Result<usize, ApiError>, Error>)
        requires
            old(state).wf(),
        ensures
            final(state).wf(),
            final(state).reader_view() == old(state).reader_view(),
            final(state).muts() == old(state).muts(),
            final(self).known() == old(self).known(),
            final(self).args_view() == old(self).args_view(),
            storage_failed(r) ==> same_effects(*old(state), *final(state)),
            match dec_whole::<Key>(key_bytes@) {
                None => r == Ok::<Result<usize, ApiError>, Error>(Err(ApiError::Serialization))
                    && same_effects(*old(state), *final(state)),
                Some(k) => if !spec_has_access(old(self).known(), k, ACCESS_READ) {
                    r == Err::<Result<usize, ApiError>, Error>(Error::ForgedReference(k))
                        && same_effects(*old(state), *final(state))
                } else {
                    &&& old(state).is_cached(k.spec_normalize()) ==> !storage_failed(r)
                    &&& !storage_failed(r) ==> if !old(state).current().contains_key(k.spec_normalize()) {
                        r == Ok::<Result<usize, ApiError>, Error>(Err(ApiError::MissingKey))
                            && same_effects(*old(state), *final(state))
                    } else {
                        let v = old(state).current()[k.spec_normalize()];
                        &&& final(state).ops_view() == spec_insert_add::<Op>(
                            old(state).ops_view(),
                            k.spec_normalize(),
                            Op::Read,
                        )
                        &&& final(state).fns_view() == spec_insert_add::<Transform>(
                            old(state).fns_view(),
                            k.spec_normalize(),
                            TransformView::Identity,
                        )
                        &&& if stored_fits(v) {
                            &&& final(self).host_buf_view() == enc_stored(v)
                            &&& r == Ok::<Result<usize, ApiError>, Error>(
                                Ok(final(self).host_buf_view().len() as usize),
                            )
                        } else {
                            r == Ok::<Result<usize, ApiError>, Error>(Err(ApiError::Serialization))
                        }
                    }
                },
            },
    {
        let key = match deserialize::<Key>(key_bytes) {
            Ok(k) => k,
            Err(_) => {
                return Ok(Err(ApiError::Serialization));
            },
        };
        if !self.has_access(&key, ACCESS_READ) {
            return Err(Error::ForgedReference(key));
        }
        match state.read(&key) {
            Err(e) => Err(Error::Storage(e)),
            Ok(None) => Ok(Err(ApiError::MissingKey)),
            Ok(Some(v)) => match v.to_bytes() {
                Ok(bytes) => Ok(Ok(self.set_host_buf(bytes))),
                Err(_) => Ok(Err(ApiError::Serialization)),
            },
        }
    }

    /// Writes the value encoded in `value_bytes` under the key encoded in
    /// `key_bytes`; the key's rights are checked before the value is read.
    pub fn write<R: StateReader>(
        &mut self,
        state: &mut TrackingCopy<R>,
        key_bytes: &[u8],
        value_bytes: &[u8],
    ) -> (r: Result<Result<(), ApiError>, Error>)
        requires
            old(state).wf(),
        ensures
            final(state).wf(),
            final(state).reader_view() == old(state).reader_view(),
            final(self).known() == old(self).known(),
            match dec_whole::<Key>(key_bytes@) {
                None => r == Ok::<Result<(), ApiError>, Error>(Err(ApiError::Serialization))
                    && same_effects(*old(state), *final(state)) && final(state).cache_view()
                        == old(state).cache_view(),
                Some(k) => if !spec_has_access(old(self).known(), k, ACCESS_WRITE) {
                    r == Err::<Result<(), ApiError>, Error>(Error::ForgedReference(k))
                        && same_effects(*old(state), *final(state)) && final(state).cache_view()
                        == old(state).cache_view()
                } else {
                    match dec_whole::<StoredValue>(value_bytes@) {
                        None => r == Ok::<Result<(), ApiError>, Error>(
                            Err(ApiError::Serialization),
                        ) && same_effects(*old(state), *final(state)) && final(state).cache_view()
                        == old(state).cache_view(),
                        Some(v) => {
                            &&& r == Ok::<Result<(), ApiError>, Error>(Ok(()))
                            &&& final(state).muts() == old(state).muts().insert(
                                k.spec_normalize(),
                                v,
                            )
                            &&& final(state).ops_view() == spec_insert_add::<Op>(
                                old(state).ops_view(),
                                k.spec_normalize(),
                                Op::Write,
                            )
                            &&& final(state).fns_view() == spec_insert_add::<Transform>(
                                old(state).fns_view(),
                                k.spec_normalize(),
                                TransformView::Write(v),
                            )
                        },
                    }
                },
            },
    {
        let key = match deserialize::<Key>(key_bytes) {
            Ok(k) => k,
            Err(_) => {
                return Ok(Err(ApiError::Serialization));
            },
        };
        if !self.has_access(&key, ACCESS_WRITE) {
            return Err(Error::ForgedReference(key));
        }
        let value = match deserialize::<StoredValue>(value_bytes) {
            Ok(v) => v,
            Err(_) => {
                return Ok(Err(ApiError::Serialization));
            },
        };
        state.write(key, value);
        Ok(Ok(()))
    }

    /// Adds the value encoded in `value_bytes` to what the key encoded in
    /// `key_bytes` holds; the key's rights are checked before the value is read.
    pub fn add<R: StateReader>(
        &mut self,
        state: &mut TrackingCopy<R>,
        key_bytes: &[u8],
        value_bytes: &[u8],
    ) -> (r: Result<Result<(), ApiError>, Error>)
        requires
            old(state).wf(),
        ensures
            final(state).wf(),
            final(state).reader_view() == old(state).reader_view(),
            final(self).known() == old(self).known(),
            storage_failed(r) ==> same_effects(*old(state), *final(state)),
            match dec_whole::<Key>(key_bytes@) {
                None => r == Ok::<Result<(), ApiError>, Error>(Err(ApiError::Serialization))
                    && same_effects(*old(state), *final(state)),
                Some(k) => if !spec_has_access(old(self).known(), k, ACCESS_ADD) {
                    r == Err::<Result<(), ApiError>, Error>(Error::ForgedReference(k))
                        && same_effects(*old(state), *final(state))
                } else {
                    match dec_whole::<StoredValue>(value_bytes@) {
                        None => r == Ok::<Result<(), ApiError>, Error>(
                            Err(ApiError::Serialization),
                        ) && same_effects(*old(state), *final(state)),
                        Some(v) => {
                            &&& old(state).is_cached(k.spec_normalize()) ==> !storage_failed(r)
                            &&& !storage_failed(r) ==> r == Ok::<Result<(), ApiError>, Error>(
                                add_api_result(old(state).current(), k, v),
                            )
                            &&& r == Ok::<Result<(), ApiError>, Error>(Ok(())) ==> add_applied(
                                *old(state),
                                *final(state),
                                k.spec_normalize(),
                                v,
                            )
                            &&& r != Ok::<Result<(), ApiError>, Error>(Ok(())) ==> same_effects(
                                *old(state),
                                *final(state),
                            )
                        },
                    }
                },
            },
    {
        let key = match deserialize::<Key>(key_bytes) {
            Ok(k) => k,
            Err(_) => {
                return Ok(Err(ApiError::Serialization));
            },
        };
        if !self.has_access(&key, ACCESS_ADD) {
            return Err(Error::ForgedReference(key));
        }
        let value = match deserialize::<StoredValue>(value_bytes) {
            Ok(v) => v,
            Err(_) => {
                return Ok(Err(ApiError::Serialization));
            },
        };
        match state.add(key, value) {
            Err(e) => Err(Error::Storage(e)),
            Ok(AddResult::Success) => Ok(Ok(())),
            Ok(AddResult::KeyNotFound(_)) => Ok(Err(ApiError::MissingKey)),
            Ok(AddResult::TypeMismatch(_)) => Ok(Err(ApiError::TypeMismatch)),
            Ok(AddResult::Serialization(_)) => Ok(Err(ApiError::Serialization)),
        }
    }

    /// Makes a new URef at `addr`, with all rights, holding the value encoded
    /// in `value_bytes`; the guest may use it from now on. Gives its encoding.
    pub fn new_uref<R: StateReader>(
        &mut self,
        state: &mut TrackingCopy<R>,
        addr: [u8; 32],
        value_bytes: &[u8],
    ) -> (r: Result<Vec<u8>, ApiError>)
        requires
            old(state).wf(),
        ensures
            final(state).wf(),
            final(state).reader_view() == old(state).reader_view(),
            match dec_whole::<StoredValue>(value_bytes@) {
                None => r == Err::<Vec<u8>, ApiError>(ApiError::Serialization) && final(self).known()
                    == old(self).known() && same_effects(*old(state), *final(state)),
                Some(v) => {
                    let k = Key::URef(addr, ACCESS_READ_ADD_WRITE);
                    &&& r is Ok && r->Ok_0@ == enc_key(k)
                    &&& final(self).known() == old(self).known().push(k)
                    &&& final(state).muts() == old(state).muts().insert(k.spec_normalize(), v)
                    &&& final(state).ops_view() == spec_insert_add::<Op>(
                        old(state).ops_view(),
                        k.spec_normalize(),
                        Op::Write,
                    )
                    &&& final(state).fns_view() == spec_insert_add::<Transform>(
                        old(state).fns_view(),
                        k.spec_normalize(),
                        TransformView::Write(v),
                    )
                },
            },
    {
        let value = match deserialize::<StoredValue>(value_bytes) {
            Ok(v) => v,
            Err(_) => {
                return Err(ApiError::Serialization);
            },
        };
        let key = Key::URef(addr, ACCESS_READ_ADD_WRITE);
        state.write(key, value);
        self.known_urefs.push(key);
        let mut out: Vec<u8> = Vec::new();
        key.append_bytes(&mut out);
        assert(out@ =~= enc_key(key));
        Ok(out)
    }

    /// The module bytes of the contract under the key encoded in `key_bytes`.
    pub fn callee_module<R: StateReader>(
        &self,
        state: &mut TrackingCopy<R>,
        key_bytes: &[u8],
    ) -> (r: Result<Result<Vec<u8>, ApiError>, Error>)
        requires
            old(state).wf(),
        ensures
            final(state).wf(),
            final(state).reader_view() == old(state).reader_view(),
            final(state).muts() == old(state).muts(),
            dec_whole::<Key>(key_bytes@) is None ==> r == Ok::<Result<Vec<u8>, ApiError>, Error>(
                Err(ApiError::Serialization),
            ),
            storage_failed(r) ==> same_effects(*old(state), *final(state)),
            match dec_whole::<Key>(key_bytes@) {
                Some(k) => if !spec_has_access(self.known(), k, ACCESS_READ) {
                    r == Err::<Result<Vec<u8>, ApiError>, Error>(Error::ForgedReference(k))
                } else {
                    &&& old(state).is_cached(k.spec_normalize()) ==> !storage_failed(r)
                    &&& !storage_failed(r) ==> if !old(state).current().contains_key(k.spec_normalize()) {
                        r == Ok::<Result<Vec<u8>, ApiError>, Error>(Err(ApiError::MissingKey))
                    } else {
                        match old(state).current()[k.spec_normalize()] {
                            StoredValueView::Contract(b, _) => r is Ok && r->Ok_0 is Ok
                                && r->Ok_0->Ok_0@ == b,
                            _ => r == Ok::<Result<Vec<u8>, ApiError>, Error>(
                                Err(ApiError::TypeMismatch),
                            ),
                        }
                    }
                },
                None => true,
            },
    {
        let key = match deserialize::<Key>(key_bytes) {
            Ok(k) => k,
            Err(_) => {
                return Ok(Err(ApiError::Serialization));
            },
        };
        if !self.has_access(&key, ACCESS_READ) {
            return Err(Error::ForgedReference(key));
        }
        match state.read(&key) {
            Err(e) => Err(Error::Storage(e)),
            Ok(None) => Ok(Err(ApiError::MissingKey)),
            Ok(Some(StoredValue::Contract(c))) => Ok(Ok(c.bytes)),
            Ok(Some(_)) => Ok(Err(ApiError::TypeMismatch)),
        }
    }

    /// The references that a callee may use, taken from the key values among
    /// its arguments in order: a URef among them the caller must be able to use.
    pub fn refs_in_args(&self, args: &Vec<CLValue>) -> (r: Result<Vec<Key>, Error>)
        ensures
            match r {
                Ok(v) => v@ == arg_urefs(views_of(args@)) && forall|i: int|
                    0 <= i < v@.len() ==> spec_has_access(self.known(), #[trigger] v@[i], 0),
                Err(e) => exists|i: int|
                    0 <= i < arg_urefs(views_of(args@)).len() && !spec_has_access(
                        self.known(),
                        #[trigger] arg_urefs(views_of(args@))[i],
                        0,
                    ) && e == Error::ForgedReference(arg_urefs(views_of(args@))[i]),
            },
    {
        let ghost vs = views_of(args@);
        let mut refs: Vec<Key> = Vec::new();
        let mut i: usize = 0;
        while i < args.len()
            invariant
                0 <= i <= args@.len(),
                vs == views_of(args@),
                refs@ == arg_urefs(vs.subrange(0, i as int)),
                forall|j: int| 0 <= j < refs@.len() ==> spec_has_access(self.known(), #[trigger] refs@[j], 0),
            decreases args@.len() - i,
        {
            proof {
                assert(vs.subrange(0, i + 1).drop_last() =~= vs.subrange(0, i as int));
            }
            if args[i].cl_type().same(&crate::cl_type::CLType::Key) {
                if let Ok(k) = deserialize::<Key>(args[i].inner_bytes().as_slice()) {
                    if let Key::URef(_, _) = k {
                        if !self.has_access(&k, 0) {
                            proof {
                                lemma_arg_urefs_prefix(vs, i as int + 1);
                                assert(arg_urefs(vs.subrange(0, i + 1)) == refs@.push(k));
                                assert(arg_urefs(vs.subrange(0, i + 1))[refs@.len() as int] == k);
                                assert(arg_urefs(vs)[refs@.len() as int] == k);
                            }
                            return Err(Error::ForgedReference(k));
                        }
                        refs.push(k);
                    }
                }
            }
            i = i + 1;
        }
        assert(vs.subrange(0, vs.len() as int) =~= vs);
        Ok(refs)
    }

    /// The arguments and references of a call. `args_bytes` must hold exactly a
    /// list of values; each value, in its wire form, is one argument; the
    /// callee's references are the URefs among them, which the caller must be
    /// able to use.
    pub fn call_arguments(&self, args_bytes: &[u8]) -> (r: Result<
        Result<(Vec<Vec<u8>>, Vec<Key>), ApiError>,
        Error,
    >)
        ensures
            !call_args_decode(args_bytes@) ==> r == Ok::<
                Result<(Vec<Vec<u8>>, Vec<Key>), ApiError>,
                Error,
            >(Err(ApiError::Serialization)),
            call_args_decode(args_bytes@) ==> ({
                let decoded = dec_cl_value_list(args_bytes@)->Some_0;
                let vs = decoded.0;
                &&& r is Err ==> exists|i: int|
                    0 <= i < arg_urefs(vs).len() && !spec_has_access(
                        self.known(),
                        #[trigger] arg_urefs(vs)[i],
                        0,
                    ) && r->Err_0 == Error::ForgedReference(arg_urefs(vs)[i])
                &&& r is Ok ==> r->Ok_0 is Ok
                &&& r is Ok ==> ({
                    let pair = r->Ok_0->Ok_0;
                    let args = pair.0;
                    let refs = pair.1;
                    &&& args@.len() == vs.len()
                    &&& forall|i: int| 0 <= i < vs.len() ==> (#[trigger] args@[i])@ == enc_cl_value(vs[i])
                    &&& refs@ == arg_urefs(vs)
                    &&& forall|i: int| 0 <= i < refs@.len() ==> spec_has_access(
                        self.known(),
                        #[trigger] refs@[i],
                        0,
                    )
                })
            }),
    {
        assert(args_bytes@.subrange(0, args_bytes@.len() as int) =~= args_bytes@);
        let values = match cl_values_from_bytes(args_bytes, 0) {
            Ok((v, end)) => {
                if end != args_bytes.len() {
                    return Ok(Err(ApiError::Serialization));
                }
                v
            },
            Err(_) => {
                return Ok(Err(ApiError::Serialization));
            },
        };
        let ghost vs = views_of(values@);
        assert(dec_cl_value_list(args_bytes@) == Some((vs, args_bytes@.len() as int)));
        proof {
            lemma_cl_value_list_prefix(args_bytes@, vs, args_bytes@.len() as int);
        }
        let refs = match self.refs_in_args(&values) {
            Ok(refs) => refs,
            Err(e) => {
                proof {
                    assert(dec_cl_value_list(args_bytes@) == Some((vs, args_bytes@.len() as int)));
                    assert(exists|j: int|
                        0 <= j < arg_urefs(vs).len() && !spec_has_access(
                            self.known(),
                            #[trigger] arg_urefs(vs)[j],
                            0,
                        ) && e == Error::ForgedReference(arg_urefs(vs)[j]));
                    let decoded = dec_cl_value_list(args_bytes@)->Some_0;
                    assert(decoded.0 == vs);
                    assert(call_args_decode(args_bytes@));
                }
                return Err(e);
            },
        };
        let mut args: Vec<Vec<u8>> = Vec::new();
        let mut i: usize = 0;
        while i < values.len()
            invariant
                0 <= i <= values@.len(),
                vs == views_of(values@),
                list_fits(vs),
                args@.len() == i,
                forall|j: int| 0 <= j < i ==> (#[trigger] args@[j])@ == enc_cl_value(vs[j]),
            decreases values@.len() - i,
        {
            let b = match values[i].to_bytes() {
                Ok(b) => b,
                Err(_) => {
                    proof {
                        assert(crate::bytesrepr::fits_u32(vs[i as int].1.len() as int));
                    }
                    return Ok(Err(ApiError::Serialization));
                },
            };
            args.push(b);
            i = i + 1;
        }
        Ok(Ok((args, refs)))
    }

    /// The references that a callee may use: exactly those passed to it, each
    /// of which the caller must be able to use.
    pub fn child_known_urefs(&self, refs: Vec<Key>) -> (r: Result<Vec<Key>, Error>)
        ensures
            match r {
                Ok(v) => v@ == refs@ && forall|i: int|
                    0 <= i < refs@.len() ==> spec_has_access(self.known(), #[trigger] refs@[i], 0),
                Err(e) => exists|i: int|
                    0 <= i < refs@.len() && !spec_has_access(self.known(), #[trigger] refs@[i], 0)
                        && e == Error::ForgedReference(refs@[i]),
            },
    {
        let mut i: usize = 0;
        while i < refs.len()
            invariant
                0 <= i <= refs@.len(),
                forall|j: int| 0 <= j < i ==> spec_has_access(self.known(), #[trigger] refs@[j], 0),
            decreases refs@.len() - i,
        {
            if !self.has_access(&refs[i], 0) {
                return Err(Error::ForgedReference(refs[i]));
            }
            i = i + 1;
        }
        Ok(refs)
    }
}

/// The references that a run for the account at `account_addr` starts with:
/// the URefs that the account binds names to. The account must be in state.
pub fn account_known_urefs<R: StateReader>(state: &R, account_addr: [u8; 32]) -> (r: Result<Vec<Key>, Error>)
    ensures
        !storage_failed(r) ==> if state.state().contains_key(Key::Account(account_addr)) && state.state()[Key::Account(
            account_addr,
        )] is Account {
            let m = state.state()[Key::Account(account_addr)]->Account_0;
            r is Ok && forall|k: Key|
                #[trigger] r->Ok_0@.contains(k) <==> (k is URef && exists|n: Seq<char>|
                    #[trigger] m.contains_key(n) && m[n] == k)
        } else {
            r == Err::<Vec<Key>, Error>(Error::MissingAccount(Key::Account(account_addr)))
        },
{
    let account_key = Key::Account(account_addr);
    match state.read(&account_key) {
        Err(e) => Err(Error::Storage(e)),
        Ok(Some(StoredValue::Account(account))) => {
            let bound = account.named_keys.bound_keys();
            let ghost m = account.named_keys@;
            assert(state.state()[account_key] == StoredValueView::Account(m));
            let mut refs: Vec<Key> = Vec::new();
            let mut i: usize = 0;
            while i < bound.len()
                invariant
                    0 <= i <= bound@.len(),
                    m == account.named_keys@,
                    forall|k: Key| #[trigger] bound@.contains(k) ==> exists|n: Seq<char>|
                        #[trigger] m.contains_key(n) && m[n] == k,
                    forall|n: Seq<char>| #[trigger] m.contains_key(n) ==> bound@.contains(m[n]),
                    forall|k: Key| #[trigger] refs@.contains(k) <==> (k is URef
                        && bound@.subrange(0, i as int).contains(k)),
                decreases bound@.len() - i,
            {
                let k = bound[i];
                let ghost before = refs@;
                if let Key::URef(_, _) = k {
                    refs.push(k);
                }
                proof {
                    let sub = bound@.subrange(0, i + 1);
                    assert forall|x: Key| #[trigger] refs@.contains(x) <==> (x is URef && sub.contains(x)) by {
                        if refs@.contains(x) && x != k {
                            let j = choose|j: int| 0 <= j < refs@.len() && refs@[j] == x;
                            assert(before[j] == x);
                            assert(before.contains(x));
                            let a = choose|a: int| 0 <= a < i && bound@.subrange(0, i as int)[a] == x;
                            assert(sub[a] == x);
                        }
                        if refs@.contains(x) && x == k {
                            assert(sub[i as int] == x);
                        }
                        if x is URef && sub.contains(x) {
                            let a = choose|a: int| 0 <= a < i + 1 && sub[a] == x;
                            if a < i {
                                assert(bound@.subrange(0, i as int)[a] == x);
                                assert(before.contains(x));
                                let j = choose|j: int| 0 <= j < before.len() && before[j] == x;
                                assert(refs@[j] == x);
                            } else {
                                assert(refs@[before.len() as int] == x);
                            }
                        }
                    }
                }
                i = i + 1;
            }
            assert(bound@.subrange(0, bound@.len() as int) =~= bound@);
            proof {
                assert(state.state()[Key::Account(account_addr)]->Account_0 == m);
                assert forall|k: Key| #[trigger] refs@.contains(k) <==> (k is URef && exists|n: Seq<char>|
                    #[trigger] m.contains_key(n) && m[n] == k) by {
                    if k is URef && exists|n: Seq<char>| #[trigger] m.contains_key(n) && m[n] == k {
                        let n = choose|n: Seq<char>| #[trigger] m.contains_key(n) && m[n] == k;
                        assert(bound@.contains(m[n]));
                    }
                    if refs@.contains(k) {
                        assert(bound@.contains(k));
                    }
                }
            }
            Ok(refs)
        },
        _ => Err(Error::MissingAccount(account_key)),
    }
}

/// Whether some bytes hold exactly a list of values.
pub open spec fn call_args_decode(b: Seq<u8>) -> bool {
    dec_cl_value_list(b) is Some && {
        let decoded = dec_cl_value_list(b)->Some_0;
        decoded.1 == b.len()
    }
}

/// Whether a module exports an entry point of that name, given its export names.
pub fn entry_point_present(exports: &Vec<String>, name: &String) -> (r: bool)
    ensures
        r == exports@.map_values(|s: String| s@).contains(name@),
{
    let ghost names = exports@.map_values(|s: String| s@);
    let mut i: usize = 0;
    while i < exports.len()
        invariant
            0 <= i <= exports@.len(),
            names == exports@.map_values(|s: String| s@),
            forall|j: int| 0 <= j < i ==> names[j] != name@,
        decreases exports@.len() - i,
    {
        if exports[i] == *name {
            assert(names[i as int] == name@);
            return true;
        }
        i = i + 1;
    }
    assert(!names.contains(name@));
    false
}

/// What a call gives back: nothing for a normal return, the returned bytes for
/// `ret`; any other trap goes on up.
pub fn finish_call(outcome: CallOutcome, returned: Vec<u8>) -> (r: Result<Vec<u8>, Error>)
    ensures
        outcome is Returned ==> r is Ok && r->Ok_0@ == Seq::<u8>::empty(),
        outcome == CallOutcome::Trapped(Error::Ret) ==> r is Ok && r->Ok_0@ == returned@,
        outcome is Trapped && outcome != CallOutcome::Trapped(Error::Ret) ==> r == Err::<
            Vec<u8>,
            Error,
        >(outcome->Trapped_0),
{
    match outcome {
        CallOutcome::Returned => Ok(Vec::new()),
        CallOutcome::Trapped(Error::Ret) => Ok(returned),
        CallOutcome::Trapped(e) => Err(e),
    }
}

/// Whether a top-level run succeeded: a normal return and `ret` do; a revert
/// or any other trap does not, and goes on up.
pub fn finish_execution(outcome: CallOutcome) -> (r: Result<(), Error>)
    ensures
        (outcome is Returned || outcome == CallOutcome::Trapped(Error::Ret)) ==> r is Ok,
        outcome is Trapped && outcome != CallOutcome::Trapped(Error::Ret) ==> r == Err::<(), Error>(
            outcome->Trapped_0,
        ),
{
    match outcome {
        CallOutcome::Returned => Ok(()),
        CallOutcome::Trapped(Error::Ret) => Ok(()),
        CallOutcome::Trapped(e) => Err(e),
    }
}

/// The most memory pages a module may ask for.
pub const MAX_MEMORY_PAGES: u32 = 256;

/// Whether a module's memory request fits: its initial size and its maximum,
/// which is taken as over the limit where the module gives none, are both
/// within `max_memory` pages.
pub fn memory_request_fits(initial: u32, maximum: Option<u32>, max_memory: u32) -> (r: bool)
    ensures
        r == (initial <= max_memory && maximum is Some && maximum->Some_0 <= max_memory),
{
    let effective_max: u64 = match maximum {
        Some(m) => m as u64,
        None => max_memory as u64 + 1,
    };
    initial <= max_memory && effective_max <= max_memory as u64
}

} // verus!
