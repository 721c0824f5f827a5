use num_bigint::BigInt;
use repugnant_pickle::ops::PickleOp;
use repugnant_pickle::torch::{dims_of, RepugnantTorchTensors, TensorType};
use repugnant_pickle::value::{fix_value, le_signed_i64, Value};

#[test]
fn fixed_width_integers_widen() {
    assert_eq!(fix_value(Value::Raw(PickleOp::BININT(-5))), Value::Int(-5));
    assert_eq!(fix_value(Value::Raw(PickleOp::BININT1(255))), Value::Int(255));
    assert_eq!(fix_value(Value::Raw(PickleOp::BININT2(65535))), Value::Int(65535));
}

#[test]
fn long_literals_are_twos_complement() {
    assert_eq!(fix_value(Value::Raw(PickleOp::LONG1(&[0xff]))), Value::Int(-1));
    assert_eq!(fix_value(Value::Raw(PickleOp::LONG1(&[0x80, 0x00]))), Value::Int(128));
    assert_eq!(fix_value(Value::Raw(PickleOp::LONG1(&[0x50]))), Value::Int(80));
    let max = i64::MAX.to_le_bytes();
    assert_eq!(fix_value(Value::Raw(PickleOp::LONG4(&max))), Value::Int(i64::MAX));
    let min = i64::MIN.to_le_bytes();
    assert_eq!(fix_value(Value::Raw(PickleOp::LONG1(&min))), Value::Int(i64::MIN));
    let padded = [1, 0, 0, 0, 0, 0, 0, 0, 0, 0];
    assert_eq!(fix_value(Value::Raw(PickleOp::LONG1(&padded))), Value::Int(1));
}

#[test]
fn long_literals_out_of_range_stay_big() {
    let b = [0, 0, 0, 0, 0, 0, 0, 0x80, 0];
    let expected = BigInt::from(i64::MAX) + BigInt::from(1);
    assert_eq!(fix_value(Value::Raw(PickleOp::LONG1(&b))), Value::BigInt(expected));
    let b = [0xff, 0xff, 0xff, 0xff, 0xff, 0xff, 0xff, 0x7f, 0xff];
    let expected = BigInt::from(i64::MIN) - BigInt::from(1);
    assert_eq!(fix_value(Value::Raw(PickleOp::LONG1(&b))), Value::BigInt(expected));
    assert_eq!(le_signed_i64(&b), None);
    assert_eq!(le_signed_i64(&[0xfe, 0xff]), Some(-2));
}

#[test]
fn empty_long_stays_raw_number() {
    assert_eq!(
        fix_value(Value::Raw(PickleOp::LONG1(&[]))),
        Value::RawNum(PickleOp::LONG1(&[]))
    );
}

#[test]
fn text_and_bytes_payloads() {
    assert_eq!(fix_value(Value::Raw(PickleOp::BINUNICODE("é"))), Value::String("é"));
    assert_eq!(fix_value(Value::Raw(PickleOp::BINBYTES(b"ab"))), Value::Bytes(b"ab"));
    assert_eq!(fix_value(Value::Raw(PickleOp::BYTEARRAY8(b"x"))), Value::Bytes(b"x"));
    assert_eq!(fix_value(Value::Raw(PickleOp::SHORT_BINSTRING(b"ok"))), Value::String("ok"));
    assert_eq!(
        fix_value(Value::Raw(PickleOp::BINSTRING(&[0xff, 0xfe]))),
        Value::Bytes(&[0xff, 0xfe])
    );
}

#[test]
fn booleans_none_and_floats() {
    assert_eq!(fix_value(Value::Raw(PickleOp::NEWTRUE)), Value::Bool(true));
    assert_eq!(fix_value(Value::Raw(PickleOp::NEWFALSE)), Value::Bool(false));
    assert_eq!(fix_value(Value::Raw(PickleOp::NONE)), Value::NoneValue);
    assert_eq!(fix_value(Value::Raw(PickleOp::INT("01"))), Value::Bool(true));
    assert_eq!(fix_value(Value::Raw(PickleOp::INT("00"))), Value::Bool(false));
    assert_eq!(
        fix_value(Value::Raw(PickleOp::INT("02"))),
        Value::RawNum(PickleOp::INT("02"))
    );
    assert_eq!(
        fix_value(Value::Raw(PickleOp::FLOAT("1.5"))),
        Value::RawNum(PickleOp::FLOAT("1.5"))
    );
    let bits = 2.5f64.to_bits();
    assert_eq!(fix_value(Value::Raw(PickleOp::BINFLOAT(bits))), Value::Float(bits));
    assert_eq!(fix_value(Value::Raw(PickleOp::MARK)), Value::Raw(PickleOp::MARK));
    assert_eq!(fix_value(Value::Int(3)), Value::Int(3));
}

#[test]
fn clone_keeps_the_tree() {
    let v = Value::Global(
        Box::new(Value::BigInt(BigInt::from(7))),
        vec![Value::Sequence(repugnant_pickle::SequenceType::List, vec![Value::Int(1)])],
    );
    assert_eq!(v.clone(), v);
}

#[test]
fn tensor_type_names() {
    assert_eq!(TensorType::from_name("FloatStorage"), TensorType::Float32);
    assert_eq!(TensorType::from_name("HalfStorage"), TensorType::Float16);
    assert_eq!(TensorType::from_name("BFloat16Storage"), TensorType::BFloat16);
    assert_eq!(TensorType::from_name("LongStorage"), TensorType::Int64);
    assert_eq!(TensorType::from_name("ByteStorage"), TensorType::UInt8);
    assert_eq!(TensorType::from_name("double"), TensorType::Float64);
    assert_eq!(
        TensorType::from_name("ComplexStorage"),
        TensorType::Unknown("complex".to_string())
    );
    let t: TensorType = "CharStorage".parse().unwrap();
    assert_eq!(t, TensorType::Int8);
}

#[test]
fn tensor_type_sizes() {
    assert_eq!(TensorType::Float64.size(), 8);
    assert_eq!(TensorType::BFloat16.size(), 2);
    assert_eq!(TensorType::Int32.size(), 4);
    assert_eq!(TensorType::UInt8.size(), 1);
    assert_eq!(TensorType::Unknown("x".to_string()).size(), 0);
}

#[test]
fn dimensions() {
    assert_eq!(dims_of(&vec![Value::Int(2), Value::Int(3)]), Some(vec![2, 3]));
    assert_eq!(dims_of(&vec![Value::Int(-1)]), None);
    assert_eq!(dims_of(&vec![Value::NoneValue]), None);
    assert_eq!(RepugnantTorchTensors(vec![]).into_vec(), vec![]);
}
