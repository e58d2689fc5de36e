use blue_marshal::{from_json, to_json, Error, Json, JsonStr, LongInt, Value};

fn text(s: &str) -> Json {
    Json::Str(JsonStr::Text(s.to_string()))
}

fn key(s: &str) -> JsonStr {
    JsonStr::Text(s.to_string())
}

fn json_error(j: Json) -> String {
    match from_json(&j) {
        Err(Error::Json(m)) => m,
        other => panic!("expected a JSON error, got {:?}", other),
    }
}

#[test]
fn scalars_take_native_forms() {
    assert_eq!(to_json(&Value::Null), Json::Null);
    assert_eq!(to_json(&Value::Bool(true)), Json::Bool(true));
    assert_eq!(to_json(&Value::Int(-3)), Json::Int(-3));
    assert_eq!(to_json(&Value::Float(1.5f64.to_bits())), Json::Float(1.5f64.to_bits()));
}

#[test]
fn non_finite_floats_are_prefixed_strings() {
    assert_eq!(to_json(&Value::Float(f64::NAN.to_bits())), text("float:nan"));
    assert_eq!(to_json(&Value::Float(f64::INFINITY.to_bits())), text("float:inf"));
    assert_eq!(to_json(&Value::Float(f64::NEG_INFINITY.to_bits())), text("float:-inf"));
    // Any NaN payload is written as the one name.
    assert_eq!(to_json(&Value::Float(0x7ff0_0000_0000_0001)), text("float:nan"));
}

#[test]
fn strings_are_prefixed() {
    let n = LongInt::from_decimal("-123456789012345678901234567890").unwrap();
    assert_eq!(to_json(&Value::Long(n)), text("long:-123456789012345678901234567890"));
    assert_eq!(to_json(&Value::Str("héllo".into())), text("utf8:héllo"));
    assert_eq!(to_json(&Value::Global("a.b".into())), text("global:a.b"));
    assert_eq!(to_json(&Value::Bytes(b"hi".to_vec())), text("bytes:hi"));
    assert_eq!(to_json(&Value::Bytes(vec![0xff, 0x00, 0xfe, 0x80])), text("bytes:b64:/wD+gA=="));
    // Valid UTF-8 that starts with the escape marker goes through base64 too.
    assert_eq!(to_json(&Value::Bytes(b"b64:x".to_vec())), text("bytes:b64:YjY0Ong="));
}

#[test]
fn compound_forms() {
    assert_eq!(to_json(&Value::List(vec![Value::Int(1)])), Json::Array(vec![Json::Int(1)]));
    assert_eq!(
        to_json(&Value::Tuple(vec![Value::Int(1)])),
        Json::Object(vec![(key("tuple"), Json::Array(vec![Json::Int(1)]))])
    );
    assert_eq!(
        to_json(&Value::Callback(Box::new(Value::Null))),
        Json::Object(vec![(key("callback"), Json::Null)])
    );
    assert_eq!(
        to_json(&Value::Instance { class: "m.C".into(), state: Box::new(Value::Int(2)) }),
        Json::Object(vec![(
            key("instance"),
            Json::Object(vec![(key("class"), text("m.C")), (key("state"), Json::Int(2))])
        )])
    );
    let r = Value::Reduce {
        newobj: true,
        callable: Box::new(Value::Null),
        args: Box::new(Value::Tuple(vec![])),
        state: None,
        list_items: vec![Value::Int(7)],
        dict_items: vec![(Value::Int(1), Value::Int(2))],
    };
    assert_eq!(
        to_json(&r),
        Json::Object(vec![(
            key("reduce"),
            Json::Object(vec![
                (key("newobj"), Json::Bool(true)),
                (key("callable"), Json::Null),
                (key("args"), Json::Object(vec![(key("tuple"), Json::Array(vec![]))])),
                (key("state"), Json::Null),
                (key("list_items"), Json::Array(vec![Json::Int(7)])),
                (key("dict_items"), Json::Array(vec![Json::Array(vec![Json::Int(1), Json::Int(2)])])),
            ])
        )])
    );
}

#[test]
fn dict_keys_are_always_strings() {
    let d = Value::Dict(vec![
        (Value::Null, Value::Int(0)),
        (Value::Bool(false), Value::Int(1)),
        (Value::Int(-7), Value::Int(2)),
        (Value::Float(1.5f64.to_bits()), Value::Int(3)),
        (Value::Float(f64::INFINITY.to_bits()), Value::Int(4)),
        (Value::Str("s".into()), Value::Int(5)),
        (Value::List(vec![]), Value::Int(6)),
    ]);
    assert_eq!(
        to_json(&d),
        Json::Object(vec![
            (key("none"), Json::Int(0)),
            (key("bool:false"), Json::Int(1)),
            (key("int:-7"), Json::Int(2)),
            (JsonStr::FloatKey(1.5f64.to_bits()), Json::Int(3)),
            (key("float:inf"), Json::Int(4)),
            (key("utf8:s"), Json::Int(5)),
            (JsonStr::JsonKey(Box::new(Json::Array(vec![]))), Json::Int(6)),
        ])
    );
}

#[test]
fn a_repeated_dict_key_keeps_its_place_and_takes_the_last_value() {
    let d = Value::Dict(vec![
        (Value::Int(1), Value::Int(10)),
        (Value::Int(2), Value::Int(20)),
        (Value::Int(1), Value::Int(30)),
    ]);
    assert_eq!(
        to_json(&d),
        Json::Object(vec![(key("int:1"), Json::Int(30)), (key("int:2"), Json::Int(20))])
    );
}

#[test]
fn prefixed_strings_decode() {
    assert_eq!(from_json(&text("int:42")).unwrap(), Value::Int(42));
    assert_eq!(from_json(&text("bool:false")).unwrap(), Value::Bool(false));
    assert_eq!(from_json(&text("none")).unwrap(), Value::Null);
    assert_eq!(from_json(&text("utf8:x")).unwrap(), Value::Str("x".into()));
    assert_eq!(from_json(&text("global:a.b")).unwrap(), Value::Global("a.b".into()));
    assert_eq!(from_json(&text("bytes:abc")).unwrap(), Value::Bytes(b"abc".to_vec()));
    assert_eq!(from_json(&text("bytes:b64:/wD+gA==")).unwrap(), Value::Bytes(vec![0xff, 0x00, 0xfe, 0x80]));
    assert_eq!(
        from_json(&text("long:-99999999999999999999")).unwrap(),
        Value::Long(LongInt::from_decimal("-99999999999999999999").unwrap())
    );
    assert_eq!(from_json(&text("float:-inf")).unwrap(), Value::Float(f64::NEG_INFINITY.to_bits()));
    let parsed = JsonStr::FloatText("float:2.5".into(), Some(2.5f64.to_bits()));
    assert_eq!(from_json(&Json::Str(parsed)).unwrap(), Value::Float(2.5f64.to_bits()));
    let nested = JsonStr::JsonText("json:[1]".into(), Ok(Box::new(Json::Array(vec![Json::Int(1)]))));
    assert_eq!(from_json(&Json::Str(nested)).unwrap(), Value::List(vec![Value::Int(1)]));
}

#[test]
fn bad_literals_are_json_errors() {
    assert_eq!(json_error(text("int:x")), "bad int literal \"x\"");
    assert_eq!(json_error(text("int:99999999999999999999")), "bad int literal \"99999999999999999999\"");
    assert_eq!(json_error(text("long:1.5")), "bad long literal \"1.5\"");
    assert_eq!(json_error(text("bool:yes")), "bad bool literal \"yes\"");
    assert_eq!(json_error(Json::Str(JsonStr::FloatText("float:zz".into(), None))), "bad float literal \"zz\"");
    assert!(json_error(text("bytes:b64:!!")).starts_with("bad base64 in bytes: "));
    assert_eq!(json_error(text("hello")), "string value/key without a recognized prefix: \"hello\"");
    let broken = JsonStr::JsonText("json:{".into(), Err("EOF while parsing an object".into()));
    assert_eq!(json_error(Json::Str(broken)), "bad nested json: EOF while parsing an object");
}

#[test]
fn malformed_object_forms_are_json_errors() {
    let inst = |members: Vec<(JsonStr, Json)>| Json::Object(vec![(key("instance"), Json::Object(members))]);
    assert_eq!(json_error(inst(vec![(key("state"), Json::Null)])), "instance missing class");
    assert_eq!(json_error(inst(vec![(key("class"), Json::Int(1)), (key("state"), Json::Null)])), "instance missing class");
    assert_eq!(json_error(inst(vec![(key("class"), text("a.B"))])), "instance missing state");
    let red = |members: Vec<(JsonStr, Json)>| Json::Object(vec![(key("reduce"), Json::Object(members))]);
    assert_eq!(json_error(red(vec![(key("args"), Json::Null)])), "reduce missing callable");
    assert_eq!(json_error(red(vec![(key("callable"), Json::Null)])), "reduce missing args");
    assert_eq!(
        json_error(red(vec![
            (key("callable"), Json::Null),
            (key("args"), Json::Null),
            (key("dict_items"), Json::Array(vec![Json::Array(vec![Json::Null])])),
        ])),
        "bad dict_items entry"
    );
    // A one-member object whose value has the wrong shape is read as a dict.
    assert_eq!(
        json_error(Json::Object(vec![(key("tuple"), Json::Int(5))])),
        "string value/key without a recognized prefix: \"tuple\""
    );
}

#[test]
fn reduce_members_may_be_missing() {
    let j = Json::Object(vec![(
        key("reduce"),
        Json::Object(vec![(key("callable"), text("global:f")), (key("args"), Json::Null), (key("state"), Json::Null)]),
    )]);
    assert_eq!(
        from_json(&j).unwrap(),
        Value::Reduce {
            newobj: false,
            callable: Box::new(Value::Global("f".into())),
            args: Box::new(Value::Null),
            state: None,
            list_items: vec![],
            dict_items: vec![],
        }
    );
}

#[test]
fn dict_keys_decode() {
    let j = Json::Object(vec![
        (key("int:3"), Json::Bool(true)),
        (JsonStr::FloatKey(0.5f64.to_bits()), Json::Null),
        (JsonStr::JsonKey(Box::new(Json::Object(vec![(key("tuple"), Json::Array(vec![]))]))), Json::Int(1)),
    ]);
    assert_eq!(
        from_json(&j).unwrap(),
        Value::Dict(vec![
            (Value::Int(3), Value::Bool(true)),
            (Value::Float(0.5f64.to_bits()), Value::Null),
            (Value::Tuple(vec![]), Value::Int(1)),
        ])
    );
}

#[test]
fn the_first_error_in_order_is_reported() {
    let j = Json::Array(vec![text("int:1"), text("bool:maybe"), text("int:x")]);
    assert_eq!(json_error(j), "bad bool literal \"maybe\"");
}

#[test]
fn any_nan_comes_back_as_the_canonical_nan() {
    let odd_nan = 0x7ff0_0000_0000_0001u64;
    let v = Value::List(vec![Value::Float(odd_nan), Value::Dict(vec![(Value::Float(odd_nan), Value::Null)])]);
    let nan = f64::NAN.to_bits();
    assert_eq!(
        from_json(&to_json(&v)).unwrap(),
        Value::List(vec![Value::Float(nan), Value::Dict(vec![(Value::Float(nan), Value::Null)])])
    );
}

#[test]
fn a_none_reduce_state_is_kept_apart_from_no_state() {
    let with_none = Value::Reduce {
        newobj: false,
        callable: Box::new(Value::Global("f".into())),
        args: Box::new(Value::Tuple(vec![])),
        state: Some(Box::new(Value::Null)),
        list_items: vec![],
        dict_items: vec![],
    };
    match to_json(&with_none) {
        Json::Object(m) => match &m[0].1 {
            Json::Object(inner) => assert_eq!(inner[3], (key("state"), text("none"))),
            other => panic!("unexpected {:?}", other),
        },
        other => panic!("unexpected {:?}", other),
    }
    assert_eq!(from_json(&to_json(&with_none)).unwrap(), with_none);
    let as_key = Value::Dict(vec![(with_none.clone(), Value::Int(1))]);
    assert_eq!(from_json(&to_json(&as_key)).unwrap(), as_key);
}
