use blue_marshal::{decode, encode, from_json, to_json, EncodeOptions, Error, LongInt, Value};

/// Equality of values with floats compared as `f64` (so `0.0 == -0.0`).
fn value_eq(a: &Value, b: &Value) -> bool {
    match (a, b) {
        (Value::Float(x), Value::Float(y)) => f64::from_bits(*x) == f64::from_bits(*y),
        (Value::Tuple(x), Value::Tuple(y)) | (Value::List(x), Value::List(y)) => {
            x.len() == y.len() && x.iter().zip(y.iter()).all(|(p, q)| value_eq(p, q))
        }
        (Value::Dict(x), Value::Dict(y)) => {
            x.len() == y.len()
                && x.iter().zip(y.iter()).all(|(p, q)| value_eq(&p.0, &q.0) && value_eq(&p.1, &q.1))
        }
        (Value::Instance { class: c1, state: s1 }, Value::Instance { class: c2, state: s2 }) => {
            c1 == c2 && value_eq(s1, s2)
        }
        (
            Value::Reduce { newobj: n1, callable: c1, args: a1, state: s1, list_items: l1, dict_items: d1 },
            Value::Reduce { newobj: n2, callable: c2, args: a2, state: s2, list_items: l2, dict_items: d2 },
        ) => {
            n1 == n2
                && value_eq(c1, c2)
                && value_eq(a1, a2)
                && match (s1, s2) {
                    (Some(p), Some(q)) => value_eq(p, q),
                    (None, None) => true,
                    _ => false,
                }
                && value_eq(&Value::List(l1.clone()), &Value::List(l2.clone()))
                && value_eq(&Value::Dict(d1.clone()), &Value::Dict(d2.clone()))
        }
        (Value::Callback(x), Value::Callback(y)) => value_eq(x, y),
        _ => a == b,
    }
}

fn assert_value_eq(a: &Value, b: &Value) {
    if let (Value::Float(x), Value::Float(y)) = (a, b) {
        if f64::from_bits(*x).is_nan() && f64::from_bits(*y).is_nan() {
            return;
        }
    }
    assert!(value_eq(a, b), "{:?} != {:?}", a, b);
}

fn roundtrip_binary(v: Value) {
    let bytes = encode(&v, &EncodeOptions::default()).unwrap();
    let decoded = decode(&bytes).unwrap();
    assert_value_eq(&decoded.value, &v);
    assert!(decoded.had_crc);
}

fn roundtrip_json(v: Value) {
    let j = to_json(&v);
    let back = from_json(&j).unwrap();
    assert_value_eq(&back, &v);
}

fn long(s: &str) -> Value {
    Value::Long(LongInt::from_decimal(s).unwrap())
}

fn float(f: f64) -> Value {
    Value::Float(f.to_bits())
}

fn sample_values() -> Vec<Value> {
    vec![
        Value::Null,
        Value::Bool(true),
        Value::Bool(false),
        Value::Int(0),
        Value::Int(-1),
        Value::Int(1),
        Value::Int(127),
        Value::Int(-128),
        Value::Int(40000),
        Value::Int(i64::MAX),
        Value::Int(i64::MIN),
        Value::Long(LongInt::zero()),
        long("123456789012345678901234567890"),
        long("-123456789012345678901234567890"),
        float(0.0),
        float(-0.0),
        float(3.5),
        float(f64::NAN),
        float(f64::INFINITY),
        float(f64::NEG_INFINITY),
        Value::Bytes(vec![]),
        Value::Bytes(vec![b'a']),
        Value::Bytes(b"hello world".to_vec()),
        Value::Bytes(vec![0xff, 0x00, 0xfe, 0x80]),
        Value::Bytes(b"b64:not-really-base64".to_vec()),
        Value::Str(String::new()),
        Value::Str("hi".into()),
        Value::Str("unicode \u{1F600} snowman \u{2603}".into()),
        Value::Global("__builtin__.dict".into()),
        Value::Tuple(vec![]),
        Value::Tuple(vec![Value::Int(1)]),
        Value::Tuple(vec![Value::Int(1), Value::Int(2)]),
        Value::Tuple(vec![Value::Int(1), Value::Int(2), Value::Int(3)]),
        Value::List(vec![]),
        Value::List(vec![Value::Int(1)]),
        Value::List(vec![Value::Int(1), Value::Str("x".into())]),
        Value::Dict(vec![
            (Value::Str("a".into()), Value::Int(1)),
            (Value::Int(5), Value::Bool(true)),
            (Value::Tuple(vec![Value::Int(1), Value::Int(2)]), Value::Null),
        ]),
        Value::Instance {
            class: "foo.Bar".into(),
            state: Box::new(Value::Dict(vec![(Value::Str("x".into()), Value::Int(1))])),
        },
        Value::Reduce {
            newobj: false,
            callable: Box::new(Value::Global("copy_reg._reconstructor".into())),
            args: Box::new(Value::Tuple(vec![Value::Global("foo.Bar".into())])),
            state: Some(Box::new(Value::Dict(vec![(Value::Str("y".into()), Value::Int(2))]))),
            list_items: vec![Value::Int(1), Value::Int(2)],
            dict_items: vec![(Value::Str("k".into()), Value::Int(9))],
        },
        Value::Reduce {
            newobj: true,
            callable: Box::new(Value::Null),
            args: Box::new(Value::Tuple(vec![Value::Global("foo.Baz".into())])),
            state: None,
            list_items: vec![],
            dict_items: vec![],
        },
        Value::Callback(Box::new(Value::Int(42))),
    ]
}

const TY_SIGNATURE2: u8 = 125;
const TY_STR_TABLE: u8 = 17;
const TY_DICT: u8 = 22;
const TY_TUPLE: u8 = 20;
const TY_REFERENCE: u8 = 27;

#[test]
fn binary_roundtrip() {
    for v in sample_values() {
        roundtrip_binary(v);
    }
}

#[test]
fn json_roundtrip() {
    for v in sample_values() {
        roundtrip_json(v);
    }
}

#[test]
fn nested_structure_roundtrips_both_ways() {
    let v = Value::Dict(vec![(
        Value::Str("items".into()),
        Value::List(vec![
            Value::Tuple(vec![Value::Int(1), Value::Str("one".into())]),
            Value::Tuple(vec![Value::Int(2), Value::Str("two".into())]),
            long("99999999999999999999"),
            Value::Bytes(vec![0, 159, 146, 150]),
        ]),
    )]);
    roundtrip_binary(v.clone());
    roundtrip_json(v);
}

#[test]
fn string_table_reads_back() {
    // TY_STR_TABLE, index 1 == "*corpid"
    let bytes = [TY_SIGNATURE2, 1, TY_STR_TABLE, 1];
    let decoded = decode(&bytes).unwrap();
    assert_eq!(decoded.value, Value::Bytes(b"*corpid".to_vec()));
}

#[test]
fn empty_input_is_eof() {
    assert!(matches!(decode(&[]), Err(Error::Eof)));
}

#[test]
fn bad_signature_is_rejected() {
    let bytes = [0u8; 4];
    assert!(matches!(decode(&bytes), Err(Error::Invalid(_))));
}

#[test]
fn truncated_header_is_eof() {
    // TY_SIGNATURE2 with no version byte following.
    let bytes = [TY_SIGNATURE2];
    assert!(matches!(decode(&bytes), Err(Error::Eof)));
}

#[test]
fn negative_tuple_length_is_rejected() {
    // TY_TUPLE with a length encoded as -1 (0xFF marker + i32 LE -1).
    let mut bytes = vec![TY_SIGNATURE2, 1, TY_TUPLE, 0xFF];
    bytes.extend_from_slice(&(-1i32).to_le_bytes());
    assert!(matches!(decode(&bytes), Err(Error::Invalid(_))));
}

#[test]
fn huge_dict_length_with_short_buffer_fails_fast_without_large_allocation() {
    // TY_DICT claiming i32::MAX pairs, but the buffer ends right after the
    // length: refused by a bounds check, not by a huge allocation.
    let mut bytes = vec![TY_SIGNATURE2, 1, TY_DICT, 0xFF];
    bytes.extend_from_slice(&i32::MAX.to_le_bytes());
    assert!(matches!(decode(&bytes), Err(Error::Eof)));
}

#[test]
fn dangling_reference_is_rejected() {
    // TY_REFERENCE to an id that was never registered.
    let mut bytes = vec![TY_SIGNATURE2, 1, TY_REFERENCE, 0xFF];
    bytes.extend_from_slice(&42i32.to_le_bytes());
    assert!(matches!(decode(&bytes), Err(Error::BadReference(42))));
}

#[test]
fn deeply_nested_value_hits_recursion_limit_on_encode() {
    let mut v = Value::Null;
    for _ in 0..2000 {
        v = Value::List(vec![v]);
    }
    assert!(matches!(encode(&v, &EncodeOptions::default()), Err(Error::RecursionLimit)));
}

#[test]
fn crc_mismatch_is_detected() {
    let mut bytes = encode(&Value::Int(5), &EncodeOptions::default()).unwrap();
    let last = bytes.len() - 1;
    bytes[last] ^= 0xFF;
    assert!(matches!(decode(&bytes), Err(Error::ChecksumMismatch)));
}
