use execution_engine::account_setup::{
    create_account_outcome, parse_account_hash, TransferredTo, ACCOUNT_ALREADY_EXISTS,
    FAILED_TO_PARSE_ACCOUNT_HASH, TRANSFER_FAILED,
};
use execution_engine::bytesrepr::ToBytes;
use execution_engine::cl_value::{cl_values_from_bytes, cl_values_to_bytes, CLValue};
use execution_engine::host_abi::{host_function_by_index, host_function_by_name, HostFunction};
use execution_engine::key::Key;
use execution_engine::runtime::{
    api_code, as_usize, finish_call, finish_execution, memory_request_fits, outcome_code, ApiError,
    CallOutcome, Error, Runtime,
};
use execution_engine::state::StateMap;
use execution_engine::stored_value::{Contract, NamedKeys, StoredValue};
use execution_engine::tracking_copy::TrackingCopy;

fn cl_bytes<T: execution_engine::cl_value::CLTyped>(t: T) -> Vec<u8> {
    StoredValue::CLValue(CLValue::from_t(t).unwrap()).to_bytes().unwrap()
}

#[test]
fn api_codes_are_stable() {
    assert_eq!(api_code(ApiError::MissingKey), 1);
    assert_eq!(api_code(ApiError::TypeMismatch), 2);
    assert_eq!(api_code(ApiError::Serialization), 3);
    assert_eq!(api_code(ApiError::BufferTooSmall), 4);
    assert_eq!(api_code(ApiError::ForgedReference), 5);
    assert_eq!(api_code(ApiError::FunctionNotFound), 6);
    assert_eq!(api_code(ApiError::ArgIndexOutOfBounds), 7);
    assert_eq!(api_code(ApiError::User(3)), 65539);
    assert_eq!(outcome_code(Ok(())), 0);
    assert_eq!(as_usize(7), 7);
}

#[test]
fn load_and_get_args() {
    let mut rt = Runtime::new(vec![vec![1, 2, 3]], vec![]);
    assert_eq!(rt.load_arg(0), Ok(3));
    assert_eq!(rt.load_arg(1), Err(Error::ArgIndexOutOfBounds(1)));
    assert_eq!(rt.get_arg_size(0), Ok(3));
    assert_eq!(rt.get_arg_size(2), Err(ApiError::ArgIndexOutOfBounds));
    assert_eq!(rt.get_arg(0, 2), Err(ApiError::BufferTooSmall));
    assert_eq!(rt.get_arg(0, 3), Ok(vec![1, 2, 3]));
    assert_eq!(rt.read_host_buffer(2), Err(ApiError::BufferTooSmall));
    assert_eq!(rt.read_host_buffer(3), Ok(vec![1, 2, 3]));
    assert_eq!(rt.read_host_buffer(0), Ok(vec![]));
}

#[test]
fn ret_and_revert() {
    let mut rt = Runtime::new(vec![], vec![]);
    assert_eq!(rt.ret(vec![9, 9]), Error::Ret);
    assert_eq!(rt.take_result(), vec![9, 9]);
    assert_eq!(Runtime::revert(4), Error::Revert(4));
}

#[test]
fn call_outcomes() {
    assert_eq!(finish_call(CallOutcome::Returned, vec![1]), Ok(vec![]));
    assert_eq!(finish_call(CallOutcome::Trapped(Error::Ret), vec![1]), Ok(vec![1]));
    assert_eq!(
        finish_call(CallOutcome::Trapped(Error::Revert(2)), vec![1]),
        Err(Error::Revert(2))
    );
    assert_eq!(finish_execution(CallOutcome::Trapped(Error::Ret)), Ok(()));
    assert_eq!(finish_execution(CallOutcome::Returned), Ok(()));
    assert_eq!(
        finish_execution(CallOutcome::Trapped(Error::NoImportedMemory)),
        Err(Error::NoImportedMemory)
    );
}

#[test]
fn memory_requests() {
    assert!(memory_request_fits(1, Some(256), 256));
    assert!(!memory_request_fits(1, None, 256));
    assert!(!memory_request_fits(257, Some(257), 256));
    assert!(!memory_request_fits(1, Some(300), 256));
}

#[test]
fn host_functions_by_name() {
    assert_eq!(host_function_by_name("read_value"), Some(HostFunction::ReadValue));
    assert_eq!(host_function_by_name("revert"), Some(HostFunction::Revert));
    assert_eq!(host_function_by_name("nope"), None);
    let f = host_function_by_name("call_contract").unwrap();
    assert_eq!(host_function_by_index(f.index()), Some(f));
    assert_eq!(f.param_count(), 5);
    assert!(f.returns_value());
    assert!(HostFunction::Write.returns_value());
    assert!(!HostFunction::Ret.returns_value());
    assert_eq!(host_function_by_index(99), None);
}

#[test]
fn host_write_read_and_forged_reference() {
    let mut tc = TrackingCopy::new(StateMap::new());
    let mut rt = Runtime::new(vec![], vec![]);
    let key = Key::Hash([1; 32]).to_bytes().unwrap();
    assert_eq!(rt.write(&mut tc, &key, &cl_bytes(5_u64)), Ok(Ok(())));
    assert_eq!(rt.read_value(&mut tc, &key), Ok(Ok(cl_bytes(5_u64).len())));
    assert_eq!(rt.read_host_buffer(100), Ok(cl_bytes(5_u64)));
    assert_eq!(rt.add(&mut tc, &key, &cl_bytes(1_u64)), Ok(Ok(())));
    assert_eq!(rt.add(&mut tc, &key, &cl_bytes(1_i32)), Ok(Err(ApiError::TypeMismatch)));
    let missing = Key::Hash([2; 32]).to_bytes().unwrap();
    assert_eq!(rt.read_value(&mut tc, &missing), Ok(Err(ApiError::MissingKey)));
    assert_eq!(rt.add(&mut tc, &missing, &cl_bytes(1_u64)), Ok(Err(ApiError::MissingKey)));
    assert_eq!(rt.read_value(&mut tc, &[1, 2]), Ok(Err(ApiError::Serialization)));
    let forged = Key::URef([3; 32], 7);
    assert_eq!(
        rt.write(&mut tc, &forged.to_bytes().unwrap(), &cl_bytes(1_u64)),
        Err(Error::ForgedReference(forged))
    );
    assert!(!rt.is_valid_uref(&forged.to_bytes().unwrap()));
}

#[test]
fn host_new_uref_is_known() {
    let mut tc = TrackingCopy::new(StateMap::new());
    let mut rt = Runtime::new(vec![], vec![]);
    let uref = rt.new_uref(&mut tc, [4; 32], &cl_bytes(8_i32)).unwrap();
    assert_eq!(uref, Key::URef([4; 32], 7).to_bytes().unwrap());
    assert!(rt.is_valid_uref(&uref));
    assert_eq!(rt.get_uref(0), Ok(uref.clone()));
    assert_eq!(rt.get_uref(1), Err(Error::ArgIndexOutOfBounds(1)));
    assert_eq!(rt.read_value(&mut tc, &uref), Ok(Ok(cl_bytes(8_i32).len())));
    // a URef with fewer rights is not the one that was handed out
    let read_only = Key::URef([4; 32], 1);
    assert!(!rt.is_valid_uref(&read_only.to_bytes().unwrap()));
    assert_eq!(rt.new_uref(&mut tc, [5; 32], &[0]), Err(ApiError::Serialization));
}

#[test]
fn callee_references() {
    let known = Key::URef([6; 32], 7);
    let rt = Runtime::new(vec![], vec![known]);
    let args = vec![CLValue::from_t(known).unwrap(), CLValue::from_t(1_u64).unwrap()];
    assert_eq!(rt.refs_in_args(&args), Ok(vec![known]));
    let forged = Key::URef([7; 32], 7);
    let bad = vec![CLValue::from_t(forged).unwrap()];
    assert_eq!(rt.refs_in_args(&bad), Err(Error::ForgedReference(forged)));
    assert_eq!(rt.child_known_urefs(vec![known]), Ok(vec![known]));
    assert_eq!(rt.child_known_urefs(vec![forged]), Err(Error::ForgedReference(forged)));
}

#[test]
fn callee_module_lookup() {
    let contract_key = Key::Hash([8; 32]);
    let mut state = StateMap::new();
    state.insert(
        contract_key,
        StoredValue::Contract(Contract { bytes: vec![0, 97, 115, 109], named_keys: NamedKeys::new() }),
    );
    state.insert(Key::Hash([9; 32]), StoredValue::CLValue(CLValue::from_t(1_u64).unwrap()));
    let mut tc = TrackingCopy::new(state);
    let rt = Runtime::new(vec![], vec![]);
    assert_eq!(
        rt.callee_module(&mut tc, &contract_key.to_bytes().unwrap()),
        Ok(Ok(vec![0, 97, 115, 109]))
    );
    assert_eq!(
        rt.callee_module(&mut tc, &Key::Hash([9; 32]).to_bytes().unwrap()),
        Ok(Err(ApiError::TypeMismatch))
    );
}

#[test]
fn cl_value_list_round_trip() {
    let values = vec![CLValue::from_t(1_u64).unwrap(), CLValue::from_t("a".to_string()).unwrap()];
    let bytes = cl_values_to_bytes(&values).unwrap();
    assert_eq!(&bytes[..4], &[2, 0, 0, 0]);
    let (back, end) = cl_values_from_bytes(&bytes, 0).unwrap();
    assert_eq!(back, values);
    assert_eq!(end, bytes.len());
    assert!(cl_values_from_bytes(&bytes[..bytes.len() - 1], 0).is_err());
}

#[test]
fn account_hash_parsing() {
    let mut hex = [b'0'; 64];
    hex[0] = b'a';
    hex[1] = b'B';
    hex[63] = b'f';
    let parsed = parse_account_hash(&hex).unwrap();
    assert_eq!(parsed[0], 0xab);
    assert_eq!(parsed[31], 0x0f);
    assert_eq!(parsed[1], 0);
    hex[5] = b'g';
    assert_eq!(parse_account_hash(&hex), Err(ApiError::User(FAILED_TO_PARSE_ACCOUNT_HASH)));
}

#[test]
fn account_creation_outcomes() {
    assert_eq!(create_account_outcome(Ok(TransferredTo::NewAccount)), Ok(()));
    assert_eq!(
        create_account_outcome(Ok(TransferredTo::ExistingAccount)),
        Err(ApiError::User(ACCOUNT_ALREADY_EXISTS))
    );
    assert_eq!(
        create_account_outcome(Err(ApiError::MissingKey)),
        Err(ApiError::User(TRANSFER_FAILED))
    );
}

fn account_with(names: &[(&str, Key)]) -> StoredValue {
    let mut keys = NamedKeys::new();
    for (n, k) in names {
        keys.insert(n.to_string(), *k);
    }
    StoredValue::Account(execution_engine::stored_value::Account { named_keys: keys })
}

#[test]
fn stored_value_codec_sorts_named_keys() {
    let a = account_with(&[("b", Key::Hash([1; 32])), ("a", Key::Hash([2; 32])), ("b", Key::Hash([3; 32]))]);
    let bytes = a.to_bytes().unwrap();
    // tag, then two bindings: "a" comes first
    assert_eq!(bytes[0], 1);
    assert_eq!(&bytes[1..5], &[2, 0, 0, 0]);
    assert_eq!(&bytes[5..10], &[1, 0, 0, 0, b'a']);
    let back = execution_engine::bytesrepr::deserialize::<StoredValue>(&bytes).unwrap();
    assert_eq!(back, account_with(&[("a", Key::Hash([2; 32])), ("b", Key::Hash([3; 32]))]));
    let same = account_with(&[("a", Key::Hash([2; 32])), ("b", Key::Hash([3; 32]))]);
    assert_eq!(same.to_bytes().unwrap(), bytes);
}

#[test]
fn stored_value_codec_refuses_unsorted_names() {
    let mut bytes = vec![1u8, 2, 0, 0, 0];
    for name in [b'b', b'a'] {
        bytes.extend_from_slice(&[1, 0, 0, 0, name]);
        bytes.extend_from_slice(&Key::Hash([1; 32]).to_bytes().unwrap());
    }
    assert_eq!(
        execution_engine::bytesrepr::deserialize::<StoredValue>(&bytes),
        Err(execution_engine::bytesrepr::Error::FormattingError)
    );
}

#[test]
fn stored_value_codec_contract_round_trip() {
    let mut keys = NamedKeys::new();
    keys.insert("x".to_string(), Key::URef([4; 32], 7));
    let c = StoredValue::Contract(Contract { bytes: vec![0, 97], named_keys: keys });
    let bytes = c.to_bytes().unwrap();
    assert_eq!(execution_engine::bytesrepr::deserialize::<StoredValue>(&bytes), Ok(c));
    let w = StoredValue::ContractWasm(vec![1, 2, 3]);
    assert_eq!(w.to_bytes().unwrap(), vec![4, 3, 0, 0, 0, 1, 2, 3]);
}

#[test]
fn host_reads_and_writes_accounts() {
    let mut tc = TrackingCopy::new(StateMap::new());
    let mut rt = Runtime::new(vec![], vec![]);
    let key = Key::Account([1; 32]).to_bytes().unwrap();
    let acc = account_with(&[("a", Key::Hash([2; 32]))]);
    let acc_bytes = acc.to_bytes().unwrap();
    assert_eq!(rt.write(&mut tc, &key, &acc_bytes), Ok(Ok(())));
    assert_eq!(rt.read_value(&mut tc, &key), Ok(Ok(acc_bytes.len())));
    assert_eq!(rt.read_host_buffer(1000), Ok(acc_bytes));
    // adding a number to an account is a type mismatch
    assert_eq!(rt.add(&mut tc, &key, &cl_bytes(1_u64)), Ok(Err(ApiError::TypeMismatch)));
    // adding a non-CLValue is a type mismatch too
    assert_eq!(
        rt.add(&mut tc, &key, &account_with(&[]).to_bytes().unwrap()),
        Ok(Err(ApiError::TypeMismatch))
    );
}

#[test]
fn forged_reference_checked_before_value() {
    let mut tc = TrackingCopy::new(StateMap::new());
    let mut rt = Runtime::new(vec![], vec![]);
    let forged = Key::URef([3; 32], 7);
    assert_eq!(
        rt.write(&mut tc, &forged.to_bytes().unwrap(), &[9, 9]),
        Err(Error::ForgedReference(forged))
    );
    assert_eq!(
        rt.add(&mut tc, &forged.to_bytes().unwrap(), &[9, 9]),
        Err(Error::ForgedReference(forged))
    );
    assert!(tc.effect().ops.is_empty());
}

#[test]
fn account_urefs_seed_known_references() {
    let mut state = StateMap::new();
    let u = Key::URef([5; 32], 7);
    state.insert(
        Key::Account([1; 32]),
        account_with(&[("purse", u), ("other", Key::Hash([6; 32]))]),
    );
    assert_eq!(execution_engine::runtime::account_known_urefs(&state, [1; 32]), Ok(vec![u]));
    assert_eq!(
        execution_engine::runtime::account_known_urefs(&state, [2; 32]),
        Err(Error::MissingAccount(Key::Account([2; 32])))
    );
}
