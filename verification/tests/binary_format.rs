use blue_marshal::{adler32, decode, encode, tag_name, EncodeOptions, Error, LongInt, Value};

const PLAIN: EncodeOptions = EncodeOptions { version: 1, checksum: false };

fn body(v: &Value) -> Vec<u8> {
    let bytes = encode(v, &PLAIN).unwrap();
    assert_eq!(&bytes[..2], &[125, 1]);
    bytes[2..].to_vec()
}

fn read(body: &[u8]) -> Result<Value, Error> {
    let mut bytes = vec![125, 1];
    bytes.extend_from_slice(body);
    decode(&bytes).map(|d| d.value)
}

#[test]
fn adler32_matches_zlib() {
    assert_eq!(adler32(1, b""), 1);
    assert_eq!(adler32(1, b"Wikipedia"), 0x11E6_0398);
    // Long input: the sums are reduced along the way.
    let data = vec![0xffu8; 100_000];
    let mut a: u64 = 1;
    let mut b: u64 = 0;
    for &x in &data {
        a = (a + x as u64) % 65521;
        b = (b + a) % 65521;
    }
    assert_eq!(adler32(1, &data), ((b << 16) | a) as u32);
}

#[test]
fn tag_names() {
    assert_eq!(tag_name(1), "NONE");
    assert_eq!(tag_name(17), "STR_TABLE");
    assert_eq!(tag_name(47), "LONG");
    assert_eq!(tag_name(24), "UNKNOWN");
    assert_eq!(tag_name(200), "UNKNOWN");
}

#[test]
fn default_options_are_version_one_with_checksum() {
    let o = EncodeOptions::default();
    assert_eq!(o.version, 1);
    assert!(o.checksum);
    // TY_SIGNATURE2, version, TY_CRC_CHECK, adler32 of the body, body.
    assert_eq!(encode(&Value::Int(5), &o).unwrap(), vec![125, 1, 28, 12, 0, 19, 0, 6, 5]);
}

#[test]
fn version_zero_writes_an_empty_shared_map() {
    let o = EncodeOptions { version: 0, checksum: false };
    let bytes = encode(&Value::Null, &o).unwrap();
    assert_eq!(bytes, vec![126, 0, 0, 0, 0, 1]);
    let d = decode(&bytes).unwrap();
    assert_eq!(d.value, Value::Null);
    assert!(!d.had_crc);
    assert_eq!(d.consumed, 6);
}

#[test]
fn integers_take_the_smallest_form() {
    assert_eq!(body(&Value::Int(-1)), vec![7]);
    assert_eq!(body(&Value::Int(0)), vec![8]);
    assert_eq!(body(&Value::Int(1)), vec![9]);
    assert_eq!(body(&Value::Int(-128)), vec![6, 0x80]);
    assert_eq!(body(&Value::Int(300)), vec![5, 0x2c, 0x01]);
    assert_eq!(body(&Value::Int(70000)), vec![4, 0x70, 0x11, 0x01, 0x00]);
    assert_eq!(body(&Value::Int(1 << 40)), vec![3, 0, 0, 0, 0, 0, 1, 0, 0]);
}

#[test]
fn scalars_and_strings() {
    assert_eq!(body(&Value::Null), vec![1]);
    assert_eq!(body(&Value::Bool(true)), vec![31]);
    assert_eq!(body(&Value::Bool(false)), vec![32]);
    assert_eq!(body(&Value::Float(0.0f64.to_bits())), vec![11]);
    assert_eq!(body(&Value::Float((-0.0f64).to_bits())), vec![11]);
    let mut f = vec![10];
    f.extend_from_slice(&1.5f64.to_le_bytes());
    assert_eq!(body(&Value::Float(1.5f64.to_bits())), f);
    assert_eq!(body(&Value::Long(LongInt::zero())), vec![47, 0]);
    assert_eq!(body(&Value::Long(LongInt::from_decimal("-1").unwrap())), vec![47, 1, 0xff]);
    assert_eq!(body(&Value::Long(LongInt::from_decimal("128").unwrap())), vec![47, 2, 0x80, 0x00]);
    assert_eq!(body(&Value::Bytes(vec![])), vec![14]);
    assert_eq!(body(&Value::Bytes(vec![7])), vec![15, 7]);
    assert_eq!(body(&Value::Bytes(vec![7, 8])), vec![19, 2, 7, 8]);
    assert_eq!(body(&Value::Str(String::new())), vec![40]);
    assert_eq!(body(&Value::Str("hi".into())), vec![46, 2, b'h', b'i']);
    assert_eq!(body(&Value::Global("a.b".into())), vec![2, 3, b'a', b'.', b'b']);
}

#[test]
fn containers() {
    assert_eq!(body(&Value::Tuple(vec![])), vec![36]);
    assert_eq!(body(&Value::Tuple(vec![Value::Null])), vec![37, 1]);
    assert_eq!(body(&Value::Tuple(vec![Value::Null, Value::Null])), vec![44, 1, 1]);
    assert_eq!(body(&Value::Tuple(vec![Value::Null, Value::Null, Value::Null])), vec![20, 3, 1, 1, 1]);
    assert_eq!(body(&Value::List(vec![])), vec![38]);
    assert_eq!(body(&Value::List(vec![Value::Null])), vec![39, 1]);
    assert_eq!(body(&Value::List(vec![Value::Null, Value::Null])), vec![21, 2, 1, 1]);
    // A dict is written value first, then key.
    assert_eq!(body(&Value::Dict(vec![(Value::Int(1), Value::Null)])), vec![22, 1, 1, 9]);
    assert_eq!(
        body(&Value::Instance { class: "C".into(), state: Box::new(Value::Null) }),
        vec![23, 15, b'C', 1]
    );
    assert_eq!(body(&Value::Callback(Box::new(Value::Null))), vec![25, 1]);
}

#[test]
fn reading_accepts_every_string_form() {
    assert_eq!(read(&[16, 2, b'a', b'b']).unwrap(), Value::Bytes(b"ab".to_vec()));
    assert_eq!(read(&[13, 2, b'a', b'b']).unwrap(), Value::Bytes(b"ab".to_vec()));
    assert_eq!(read(&[41, b'z', 0]).unwrap(), Value::Str("z".into()));
    assert_eq!(read(&[18, 2, 0x3d, 0xd8, 0x00, 0xde]).unwrap(), Value::Str("\u{1F600}".into()));
    assert!(matches!(read(&[18, 1, 0x00, 0xd8]), Err(Error::Invalid(m)) if m == "bad utf-16 data"));
    assert!(matches!(read(&[46, 1, 0xff]), Err(Error::Invalid(m)) if m == "bad utf-8 data"));
    // An instance whose class name is not valid UTF-8 is read lossily.
    match read(&[23, 15, 0xff, 1]).unwrap() {
        Value::Instance { class, state } => {
            assert_eq!(class, "\u{FFFD}");
            assert_eq!(*state, Value::Null);
        }
        other => panic!("unexpected {:?}", other),
    }
}

#[test]
fn decoding_errors() {
    assert!(matches!(read(&[42]), Err(Error::Unsupported("TY_DBROW"))));
    assert!(matches!(read(&[43]), Err(Error::Unsupported("TY_WSTREAM"))));
    assert!(matches!(read(&[26]), Err(Error::Unsupported("TY_PICKLE"))));
    assert!(matches!(read(&[33]), Err(Error::Unsupported("TY_PICKLER"))));
    assert!(matches!(read(&[12]), Err(Error::Unsupported("TY_COMPLEX"))));
    assert!(matches!(read(&[24]), Err(Error::Invalid(m)) if m == "unknown type tag 24 (UNKNOWN)"));
    assert!(matches!(read(&[17, 200]), Err(Error::Invalid(m)) if m == "invalid string table index 200"));
    assert!(matches!(read(&[21, 0xff, 0xff, 0xff, 0xff, 0xff]), Err(Error::Invalid(m)) if m == "negative list length"));
    assert!(matches!(read(&[6]), Err(Error::Eof)));
}

#[test]
fn shared_objects_are_inlined() {
    // TY_SIGNATURE, mapcount 2, a shared pair (slot 1) of a shared buffer
    // (slot 2) and a reference to it, then the map.
    let mut bytes = vec![126];
    bytes.extend_from_slice(&2i32.to_le_bytes());
    bytes.extend_from_slice(&[44 | 0x40, 19 | 0x40, 1, b'x', 27, 2]);
    bytes.extend_from_slice(&1i32.to_le_bytes());
    bytes.extend_from_slice(&2i32.to_le_bytes());
    let d = decode(&bytes).unwrap();
    assert_eq!(d.value, Value::Tuple(vec![Value::Bytes(b"x".to_vec()), Value::Bytes(b"x".to_vec())]));
}

#[test]
fn error_messages() {
    assert_eq!(Error::Eof.message(), "unexpected end of stream");
    assert_eq!(Error::Invalid("x".into()).message(), "invalid marshal stream: x");
    assert_eq!(Error::BadReference(-3).message(), "invalid TY_REFERENCE id -3");
    assert_eq!(Error::ChecksumMismatch.message(), "adler32 checksum mismatch");
    assert_eq!(Error::Unsupported("TY_DBROW").message(), "unsupported marshal feature: TY_DBROW");
    assert_eq!(Error::RecursionLimit.message(), "maximum recursion depth reached");
    assert_eq!(Error::Json("y".into()).message(), "invalid JSON encoding: y");
}

#[test]
fn checksum_and_trailing_forms_roundtrip() {
    let v = Value::Reduce {
        newobj: false,
        callable: Box::new(Value::Global("f".into())),
        args: Box::new(Value::Tuple(vec![Value::Int(1)])),
        state: Some(Box::new(Value::Int(2))),
        list_items: vec![Value::Int(3)],
        dict_items: vec![(Value::Int(4), Value::Int(5))],
    };
    for version in [0u8, 1, 3] {
        for checksum in [false, true] {
            let bytes = encode(&v, &EncodeOptions { version, checksum }).unwrap();
            let d = decode(&bytes).unwrap();
            assert_eq!(d.value, v);
            assert_eq!(d.had_crc, checksum);
            assert_eq!(d.consumed, bytes.len());
        }
    }
}

#[test]
fn a_container_that_refers_to_itself_reads_the_reference_as_none() {
    // A shared one-item tuple (slot 0) whose item refers to slot 0 while the
    // tuple is still being read.
    let bytes = [125, 1, 37 | 0x40, 27, 0];
    let d = decode(&bytes).unwrap();
    assert_eq!(d.value, Value::Tuple(vec![Value::Null]));
}

#[test]
fn long_integers() {
    let n = LongInt::from_signed_bytes_le(&[0xff, 0xff]);
    assert_eq!(n.to_signed_bytes_le(), &[0xff]);
    assert_eq!(n.to_decimal(), "-1");
    assert!(LongInt::from_signed_bytes_le(&[]).is_zero());
    assert_eq!(LongInt::zero().to_signed_bytes_le(), &[0]);
    assert_eq!(LongInt::from_decimal("-128").unwrap().to_signed_bytes_le(), &[0x80]);
    assert_eq!(LongInt::from_decimal("-129").unwrap().to_signed_bytes_le(), &[0x7f, 0xff]);
    assert_eq!(LongInt::from_decimal("-32768").unwrap().to_signed_bytes_le(), &[0x00, 0x80]);
    assert_eq!(LongInt::from_decimal("1_000").unwrap().to_decimal(), "1000");
    assert_eq!(LongInt::from_decimal("1_").unwrap().to_decimal(), "1");
    assert_eq!(LongInt::from_decimal("+5").unwrap().to_decimal(), "5");
    assert_eq!(LongInt::from_decimal("-0").unwrap().to_decimal(), "0");
    assert!(LongInt::from_decimal("").is_none());
    assert!(LongInt::from_decimal("-").is_none());
    assert!(LongInt::from_decimal("-+5").is_none());
    assert!(LongInt::from_decimal("++5").is_none());
    assert!(LongInt::from_decimal("_1").is_none());
    assert!(LongInt::from_decimal("12a").is_none());
    assert_eq!(LongInt::from_decimal("7").unwrap().clone(), LongInt::from_decimal("7").unwrap());
}

#[test]
fn negative_zero_reads_back_as_zero() {
    let v = Value::Tuple(vec![Value::Float((-0.0f64).to_bits()), Value::Float(2.0f64.to_bits())]);
    let d = decode(&encode(&v, &EncodeOptions::default()).unwrap()).unwrap();
    assert_eq!(d.value, Value::Tuple(vec![Value::Float(0), Value::Float(2.0f64.to_bits())]));
}

#[test]
fn adler32_continues_from_a_checksum() {
    let a = b"hello, ";
    let b = b"world";
    let whole = b"hello, world";
    assert_eq!(adler32(adler32(1, a), b), adler32(1, whole));
    assert_eq!(adler32(adler32(1, b""), b), adler32(1, b));
}
