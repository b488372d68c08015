use execution_engine::additive_map::AdditiveMap;
use execution_engine::bigint::U512;
use execution_engine::cache::TrackingCopyCache;
use execution_engine::cl_value::CLValue;
use execution_engine::key::Key;
use execution_engine::state::StateMap;
use execution_engine::stored_value::{Account, Contract, NamedKeys, StoredValue, TypeMismatch};
use execution_engine::tracking_copy::{AddResult, TrackingCopy, TrackingCopyQueryResult};
use execution_engine::transform::{Op, Transform};

fn cl<T: execution_engine::cl_value::CLTyped>(t: T) -> StoredValue {
    StoredValue::CLValue(CLValue::from_t(t).unwrap())
}

fn hash_key(b: u8) -> Key {
    Key::Hash([b; 32])
}

#[test]
fn write_then_read_same_execution() {
    let k = hash_key(1);
    let mut tc = TrackingCopy::new(StateMap::new());
    tc.write(k, cl(7_i32));
    assert_eq!(tc.read(&k).unwrap(), Some(cl(7_i32)));
    let effect = tc.effect();
    assert_eq!(effect.ops.get(&k), Some(Op::Write));
    assert_eq!(effect.transforms.get(&k), Some(Transform::Write(cl(7_i32))));
}

#[test]
fn add_on_missing_key() {
    let k = hash_key(2);
    let mut tc = TrackingCopy::new(StateMap::new());
    assert_eq!(tc.add(k, cl(1_u64)).unwrap(), AddResult::KeyNotFound(k));
    let effect = tc.effect();
    assert!(effect.ops.is_empty());
    assert!(effect.transforms.is_empty());
}

#[test]
fn add_type_mismatch() {
    let k = hash_key(3);
    let mut state = StateMap::new();
    state.insert(k, cl(5_u64));
    let mut tc = TrackingCopy::new(state);
    assert_eq!(
        tc.add(k, cl(1_i32)).unwrap(),
        AddResult::TypeMismatch(TypeMismatch::new("U64".to_string(), "I32".to_string()))
    );
    let effect = tc.effect();
    assert!(effect.ops.is_empty());
    assert!(effect.transforms.is_empty());
}

#[test]
fn add_wrapping() {
    let k = hash_key(4);
    let mut state = StateMap::new();
    state.insert(k, cl(u64::MAX));
    let mut tc = TrackingCopy::new(state);
    assert_eq!(tc.add(k, cl(2_u64)).unwrap(), AddResult::Success);
    assert_eq!(tc.read(&k).unwrap(), Some(cl(1_u64)));
    let effect = tc.effect();
    assert_eq!(effect.ops.get(&k), Some(Op::Add));
    assert_eq!(effect.transforms.get(&k), Some(Transform::AddUInt64(2)));
}

#[test]
fn add_u512_wrapping() {
    let k = hash_key(5);
    let mut state = StateMap::new();
    state.insert(k, cl(U512([0xff; 64])));
    let mut tc = TrackingCopy::new(state);
    let mut one = [0u8; 64];
    one[0] = 1;
    assert_eq!(tc.add(k, cl(U512(one))).unwrap(), AddResult::Success);
    assert_eq!(tc.read(&k).unwrap(), Some(cl(U512([0; 64]))));
}

#[test]
fn add_named_key_to_account() {
    let k = Key::Account([6; 32]);
    let mut state = StateMap::new();
    state.insert(k, StoredValue::Account(Account { named_keys: NamedKeys::new() }));
    let mut tc = TrackingCopy::new(state);
    let target = hash_key(9);
    assert_eq!(tc.add(k, cl(("purse".to_string(), target))).unwrap(), AddResult::Success);
    let mut expected = NamedKeys::new();
    expected.insert("purse".to_string(), target);
    assert_eq!(
        tc.read(&k).unwrap(),
        Some(StoredValue::Account(Account { named_keys: expected }))
    );
}

#[test]
fn add_wrong_value_type() {
    let k = hash_key(7);
    let mut state = StateMap::new();
    state.insert(k, cl(5_u64));
    let mut tc = TrackingCopy::new(state);
    assert_eq!(
        tc.add(k, cl("text".to_string())).unwrap(),
        AddResult::TypeMismatch(TypeMismatch::new(
            "I32, U64, U128, U256, U512 or (String, Key) tuple".to_string(),
            "String".to_string()
        ))
    );
}

fn traversal_state() -> (StateMap, Key) {
    let account_key = Key::Account([1; 32]);
    let h = Key::Hash([2; 32]);
    let u = [3u8; 32];
    let mut account_keys = NamedKeys::new();
    account_keys.insert("a".to_string(), h);
    let mut contract_keys = NamedKeys::new();
    contract_keys.insert("b".to_string(), Key::URef(u, 7));
    let mut state = StateMap::new();
    state.insert(account_key, StoredValue::Account(Account { named_keys: account_keys }));
    state.insert(h, StoredValue::Contract(Contract { bytes: vec![0, 1], named_keys: contract_keys }));
    state.insert(Key::URef(u, 0), cl("ok".to_string()));
    (state, account_key)
}

#[test]
fn query_traversal() {
    let (state, account_key) = traversal_state();
    let tc = TrackingCopy::new(state);
    match tc.query(account_key, &vec!["a".to_string(), "b".to_string()]).unwrap() {
        TrackingCopyQueryResult::Success(v) => assert_eq!(v, cl("ok".to_string())),
        other => panic!("unexpected {:?}", other),
    }
    match tc.query(account_key, &vec!["a".to_string(), "c".to_string()]).unwrap() {
        TrackingCopyQueryResult::ValueNotFound(msg) => {
            assert_eq!(msg, "Name c not found in Contract at path: /a/c")
        }
        other => panic!("unexpected {:?}", other),
    }
}

#[test]
fn query_ignores_writes() {
    let k = hash_key(8);
    let mut state = StateMap::new();
    state.insert(k, cl(1_u64));
    let mut tc = TrackingCopy::new(state);
    tc.write(k, cl(2_u64));
    match tc.query(k, &vec![]).unwrap() {
        TrackingCopyQueryResult::Success(v) => assert_eq!(v, cl(1_u64)),
        other => panic!("unexpected {:?}", other),
    }
}

#[test]
fn query_circular_reference() {
    let a = hash_key(10);
    let b = hash_key(11);
    let mut state = StateMap::new();
    state.insert(a, cl(b));
    state.insert(b, cl(a));
    let tc = TrackingCopy::new(state);
    match tc.query(a, &vec!["x".to_string()]).unwrap() {
        TrackingCopyQueryResult::CircularReference(_) => {}
        other => panic!("unexpected {:?}", other),
    }
}

#[test]
fn fork_isolation() {
    let k = hash_key(12);
    let mut parent = TrackingCopy::new(StateMap::new());
    parent.write(k, cl(1_i32));
    {
        let mut child = parent.fork();
        assert_eq!(child.read(&k).unwrap(), Some(cl(1_i32)));
        child.write(k, cl(2_i32));
        let child_effect = child.effect();
        assert_eq!(child_effect.transforms.get(&k), Some(Transform::Write(cl(2_i32))));
    }
    let parent_effect = parent.effect();
    assert_eq!(parent_effect.transforms.get(&k), Some(Transform::Write(cl(1_i32))));
    assert_eq!(parent.read(&k).unwrap(), Some(cl(1_i32)));
}

#[test]
fn ops_join_over_calls() {
    let k = hash_key(13);
    let mut state = StateMap::new();
    state.insert(k, cl(1_u64));
    let mut tc = TrackingCopy::new(state);
    tc.read(&k).unwrap();
    assert_eq!(tc.effect().ops.get(&k), Some(Op::Read));
    tc.add(k, cl(1_u64)).unwrap();
    assert_eq!(tc.effect().ops.get(&k), Some(Op::Add));
    tc.write(k, cl(9_u64));
    assert_eq!(tc.effect().ops.get(&k), Some(Op::Write));
    tc.read(&k).unwrap();
    assert_eq!(tc.effect().ops.get(&k), Some(Op::Write));
}

#[test]
fn transforms_compose_over_calls() {
    let k = hash_key(14);
    let mut state = StateMap::new();
    state.insert(k, cl(10_u64));
    let mut tc = TrackingCopy::new(state);
    tc.add(k, cl(1_u64)).unwrap();
    tc.add(k, cl(2_u64)).unwrap();
    assert_eq!(tc.effect().transforms.get(&k), Some(Transform::AddUInt64(3)));
    assert_eq!(tc.read(&k).unwrap(), Some(cl(13_u64)));
}

#[test]
fn normalized_uref_keys() {
    let addr = [15u8; 32];
    let mut tc = TrackingCopy::new(StateMap::new());
    tc.write(Key::URef(addr, 7), cl(3_i32));
    assert_eq!(tc.read(&Key::URef(addr, 1)).unwrap(), Some(cl(3_i32)));
    assert_eq!(tc.effect().ops.get(&Key::URef(addr, 0)), Some(Op::Write));
}

#[test]
fn additive_map_composes() {
    let k = hash_key(16);
    let mut m1: AdditiveMap<Op> = AdditiveMap::new();
    m1.insert_add(k, Op::Read);
    m1.insert_add(k, Op::Add);
    let mut m2: AdditiveMap<Op> = AdditiveMap::new();
    m2.insert_add(k, Op::Read.combine(&Op::Add));
    assert_eq!(m1.get(&k), m2.get(&k));
    assert_eq!(m1.get(&k), Some(Op::Add));
    assert_eq!(m1.keys(), vec![k]);
}

#[test]
fn cache_stays_within_budget() {
    let mut cache = TrackingCopyCache::new(100);
    for i in 0..20u8 {
        cache.insert_read(hash_key(i), cl(i as u64));
        assert!(cache.current_cache_size() <= 100);
    }
    // each entry counts 34 key bytes and 14 bytes of encoded value: two fit
    assert_eq!(cache.current_cache_size(), 96);
    assert_eq!(cache.get(&hash_key(19)), Some(cl(19_u64)));
    assert_eq!(cache.get(&hash_key(0)), None);
}

#[test]
fn cache_writes_are_never_evicted() {
    let mut cache = TrackingCopyCache::new(50);
    cache.insert_write(hash_key(1), cl(1_u64));
    for i in 2..10u8 {
        cache.insert_read(hash_key(i), cl(i as u64));
    }
    assert_eq!(cache.get(&hash_key(1)), Some(cl(1_u64)));
    assert_eq!(cache.current_cache_size(), 48);
}

#[test]
fn cache_refresh_keeps_recent_read() {
    let mut cache = TrackingCopyCache::new(96);
    cache.insert_read(hash_key(1), cl(1_u64));
    cache.insert_read(hash_key(2), cl(2_u64));
    assert_eq!(cache.get(&hash_key(1)), Some(cl(1_u64)));
    cache.insert_read(hash_key(3), cl(3_u64));
    assert_eq!(cache.get(&hash_key(2)), None);
    assert_eq!(cache.get(&hash_key(1)), Some(cl(1_u64)));
}
