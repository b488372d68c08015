use execution_engine::bigint::{U128, U256};
use execution_engine::bytesrepr::{deserialize, Error, FromBytes, ToBytes};
use execution_engine::cl_type::CLType;
use execution_engine::cl_value::{CLTypeMismatch, CLValue, CLValueError};
use execution_engine::key::Key;
use execution_engine::stored_value::{Account, NamedKeys, StoredValue, TypeMismatch};
use execution_engine::string_map::StringMap;
use execution_engine::transform::{Op, Transform, TransformError};

#[test]
fn codec_u64_little_endian() {
    assert_eq!(0x0102030405060708_u64.to_bytes().unwrap(), vec![8, 7, 6, 5, 4, 3, 2, 1]);
    assert_eq!(deserialize::<u64>(&[8, 7, 6, 5, 4, 3, 2, 1]), Ok(0x0102030405060708));
}

#[test]
fn codec_i32_round_trip() {
    for v in [0_i32, 1, -1, i32::MIN, i32::MAX] {
        let b = v.to_bytes().unwrap();
        assert_eq!(b.len(), 4);
        assert_eq!(deserialize::<i32>(&b), Ok(v));
    }
}

#[test]
fn codec_string_round_trip() {
    let s = "héllo".to_string();
    let b = s.to_bytes().unwrap();
    assert_eq!(&b[..4], &[6, 0, 0, 0]);
    assert_eq!(deserialize::<String>(&b), Ok(s));
}

#[test]
fn codec_errors() {
    assert_eq!(deserialize::<u64>(&[1, 2, 3]), Err(Error::EarlyEndOfStream));
    assert_eq!(deserialize::<i32>(&[1, 2, 3, 4, 5]), Err(Error::LeftOverBytes));
    assert_eq!(deserialize::<String>(&[2, 0, 0, 0, 0xff, 0xfe]), Err(Error::FormattingError));
}

#[test]
fn codec_big_numbers_are_minimal() {
    let mut le = [0u8; 16];
    le[0] = 0x34;
    le[1] = 0x12;
    let b = U128(le).to_bytes().unwrap();
    assert_eq!(b, vec![2, 0x34, 0x12]);
    assert_eq!(deserialize::<U128>(&b), Ok(U128(le)));
    assert_eq!(U256([0; 32]).to_bytes().unwrap(), vec![0]);
    // a zero most significant byte is not canonical
    assert_eq!(deserialize::<U128>(&[2, 0x34, 0]), Err(Error::FormattingError));
    assert_eq!(deserialize::<U128>(&[17]), Err(Error::FormattingError));
}

#[test]
fn codec_key_round_trip() {
    for k in [Key::Account([1; 32]), Key::Hash([2; 32]), Key::URef([3; 32], 7), Key::Local([4; 32])] {
        let b = k.to_bytes().unwrap();
        assert_eq!(deserialize::<Key>(&b), Ok(k));
    }
    assert_eq!(deserialize::<Key>(&[9; 33]), Err(Error::FormattingError));
}

#[test]
fn codec_prefix_decoding() {
    let mut b = 7_u64.to_bytes().unwrap();
    b.extend_from_slice(&[1, 2]);
    let (v, end) = u64::from_bytes(&b, 0).unwrap();
    assert_eq!((v, end), (7, 8));
}

#[test]
fn cl_value_round_trip() {
    let v = CLValue::from_t(("name".to_string(), Key::Hash([5; 32]))).unwrap();
    let wire = v.to_bytes().unwrap();
    assert_eq!(wire.len(), v.serialized_len());
    let w = deserialize::<CLValue>(&wire).unwrap();
    assert_eq!(v, w);
    let x: (String, Key) = w.into_t().unwrap();
    assert_eq!(x, ("name".to_string(), Key::Hash([5; 32])));
}

#[test]
fn cl_value_wire_form() {
    let v = CLValue::from_t(7_i32).unwrap();
    assert_eq!(v.to_bytes().unwrap(), vec![4, 0, 0, 0, 7, 0, 0, 0, 1]);
    let (t, bytes) = v.into_components();
    assert_eq!(t, CLType::I32);
    assert_eq!(bytes, vec![7, 0, 0, 0]);
}

#[test]
fn cl_value_type_mismatch() {
    let v = CLValue::from_t(1_u64).unwrap();
    assert_eq!(
        v.into_t::<i32>(),
        Err(CLValueError::Type(CLTypeMismatch { expected: CLType::I32, found: CLType::U64 }))
    );
}

#[test]
fn cl_value_left_over_bytes() {
    let v = CLValue::from_components(CLType::I32, vec![1, 0, 0, 0, 0]);
    assert_eq!(v.into_t::<i32>(), Err(CLValueError::Serialization(Error::LeftOverBytes)));
}

#[test]
fn cl_type_round_trip() {
    let t = CLType::Tuple3(
        Box::new(CLType::Option(Box::new(CLType::U8))),
        Box::new(CLType::MapOf { key: Box::new(CLType::String), value: Box::new(CLType::U64) }),
        Box::new(CLType::FixedList(Box::new(CLType::Key), 3)),
    );
    let b = t.to_bytes();
    let (back, end) = CLType::read_bytes(&b, 0).unwrap();
    assert_eq!(back, t);
    assert_eq!(end, b.len());
    assert_eq!(t.name(), "Tuple3(Option(U8), Map(String, U64), FixedList(Key))");
}

#[test]
fn transform_write_absorbs() {
    let w = Transform::Write(StoredValue::CLValue(CLValue::from_t(1_i32).unwrap()));
    assert_eq!(Transform::AddInt32(5).combine(w.copy()), w);
    assert_eq!(Transform::Identity.combine(w.copy()), w);
}

#[test]
fn transform_identity_neutral() {
    assert_eq!(Transform::AddUInt64(3).combine(Transform::Identity), Transform::AddUInt64(3));
    assert_eq!(Transform::Identity.combine(Transform::AddUInt64(3)), Transform::AddUInt64(3));
}

#[test]
fn transform_width_mismatch() {
    assert_eq!(
        Transform::AddInt32(1).combine(Transform::AddUInt64(1)),
        Transform::Failure(TransformError::TypeMismatch(TypeMismatch::new(
            "AddInt32".to_string(),
            "AddUInt64".to_string()
        )))
    );
}

#[test]
fn transform_write_then_add() {
    let w = Transform::Write(StoredValue::CLValue(CLValue::from_t(i32::MAX).unwrap()));
    assert_eq!(
        w.combine(Transform::AddInt32(1)),
        Transform::Write(StoredValue::CLValue(CLValue::from_t(i32::MIN).unwrap()))
    );
}

#[test]
fn transform_add_keys_merge() {
    let mut a = NamedKeys::new();
    a.insert("x".to_string(), Key::Hash([1; 32]));
    let mut b = NamedKeys::new();
    b.insert("x".to_string(), Key::Hash([2; 32]));
    let mut expected = NamedKeys::new();
    expected.insert("x".to_string(), Key::Hash([2; 32]));
    assert_eq!(Transform::AddKeys(a).combine(Transform::AddKeys(b)), Transform::AddKeys(expected));
}

#[test]
fn transform_apply_type_mismatch() {
    let acc = StoredValue::Account(Account { named_keys: NamedKeys::new() });
    assert_eq!(
        Transform::AddUInt64(1).apply(acc),
        Err(TransformError::TypeMismatch(TypeMismatch::new(
            "CLValue".to_string(),
            "Account".to_string()
        )))
    );
}

#[test]
fn big_number_wrapping_add() {
    let max = U128([0xff; 16]);
    let mut one = [0u8; 16];
    one[0] = 1;
    assert_eq!(max.wrapping_add(U128(one)), U128([0; 16]));
    let mut two = [0u8; 16];
    two[0] = 2;
    assert_eq!(U128(one).wrapping_add(U128(one)), U128(two));
    let mut carry = [0u8; 16];
    carry[0] = 0xff;
    let mut sum = [0u8; 16];
    sum[1] = 1;
    assert_eq!(U128(carry).wrapping_add(U128(one)), U128(sum));
}

#[test]
fn op_lattice() {
    assert_eq!(Op::NoOp.combine(&Op::Read), Op::Read);
    assert_eq!(Op::Read.combine(&Op::Write), Op::Write);
    assert_eq!(Op::Read.combine(&Op::Add), Op::Add);
    assert_eq!(Op::Add.combine(&Op::Add), Op::Add);
    assert_eq!(Op::Write.combine(&Op::Add), Op::Write);
    assert_eq!(Op::Add.combine(&Op::Write), Op::Write);
}

#[test]
fn named_keys_equality_is_by_binding() {
    let mut a = NamedKeys::new();
    a.insert("x".to_string(), Key::Hash([1; 32]));
    a.insert("x".to_string(), Key::Hash([2; 32]));
    let mut b = NamedKeys::new();
    b.insert("x".to_string(), Key::Hash([2; 32]));
    assert_eq!(a, b);
    assert_eq!(a.get(&"x".to_string()), Some(Key::Hash([2; 32])));
    assert_eq!(a.get(&"y".to_string()), None);
}

#[test]
fn cl_value_map_round_trip() {
    let mut map = NamedKeys::new();
    map.insert(String::from("xyz"), Key::Hash([2; 32]));
    map.insert(String::from("abc"), Key::Hash([1; 32]));
    let v = CLValue::from_t(map.clone()).unwrap();
    let ser_v = v.to_bytes().unwrap();
    let w = deserialize::<CLValue>(&ser_v).unwrap();
    assert_eq!(v, w);
    let x: NamedKeys = w.into_t().unwrap();
    assert_eq!(map, x);
    assert!(x.get(&"abc".to_string()) == Some(Key::Hash([1; 32])));
}

#[test]
fn ser_cl_value() {
    let mut map: StringMap = StringMap::new();
    map.insert(String::from("abc"), 1);
    map.insert(String::from("xyz"), 2);
    let v = CLValue::from_t(map.clone()).unwrap();
    let ser_v = v.clone().to_bytes().unwrap();
    let w = deserialize::<CLValue>(&ser_v).unwrap();
    assert_eq!(v, w);
    let x = w.into_t().unwrap();
    assert_eq!(map, x);
}

#[test]
fn cl_value_primitive_round_trips() {
    let b = CLValue::from_t(true).unwrap();
    assert_eq!(b.cl_type(), &CLType::Bool);
    assert_eq!(b.into_t::<bool>(), Ok(true));
    assert_eq!(CLValue::from_t(7_u8).unwrap().into_t::<u8>(), Ok(7));
    assert_eq!(CLValue::from_t(70_000_u32).unwrap().into_t::<u32>(), Ok(70_000));
    assert_eq!(CLValue::from_t(-5_i64).unwrap().into_t::<i64>(), Ok(-5));
    assert_eq!(CLValue::from_t(()).unwrap().into_t::<()>(), Ok(()));
    assert_eq!((-1_i64).to_bytes().unwrap(), vec![0xff; 8]);
    assert_eq!(deserialize::<bool>(&[2]), Err(Error::FormattingError));
    assert_eq!(
        CLValue::from_t(1_u8).unwrap().into_t::<u32>(),
        Err(CLValueError::Type(CLTypeMismatch { expected: CLType::U32, found: CLType::U8 }))
    );
}
