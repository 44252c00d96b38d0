use tagged_json::json_decode;
use tagged_json::json_encode;
use tagged_json::model::{DecodeError, JsonStruct, ValueTypes};

fn mapping_pairs(v: &ValueTypes) -> &[(String, ValueTypes)] {
    match v {
        ValueTypes::Mapping(ps) => ps,
        _ => panic!("Unexpected type"),
    }
}

fn mapping_get<'a>(ps: &'a [(String, ValueTypes)], key: &str) -> &'a ValueTypes {
    for (k, v) in ps {
        if k == key {
            return v;
        }
    }
    panic!("missing key");
}

#[test]
fn test_json_encode_basic() {
    let data = JsonStruct {
        field: "example".to_string(),
        value: ValueTypes::Integer(42),
    };
    let json_str = json_encode(data).unwrap();
    assert_eq!(json_str, r#"{"field":"example","value":{"Int":42}}"#);
}

#[test]
fn test_json_decode_basic() {
    let json_str = r#"{"field":"example","value":{"Int":42}}"#;
    let result = json_decode(json_str).unwrap();
    match result.value {
        ValueTypes::Integer(value) => assert_eq!(value, 42),
        _ => panic!("Unexpected type"),
    }
}

#[test]
fn test_json_encode_with_map() {
    let map = vec![
        ("key1".to_string(), ValueTypes::Integer(100)),
        ("key2".to_string(), ValueTypes::Text("value".to_string())),
    ];

    let data = JsonStruct {
        field: "complex example".to_string(),
        value: ValueTypes::Mapping(map),
    };
    let json_str = json_encode(data).unwrap();
    assert_eq!(
        json_str,
        r#"{"field":"complex example","value":{"Map":{"key1":{"Int":100},"key2":{"Text":"value"}}}}"#
    );
}

#[test]
fn test_type_discrimination() {
    let int_str = json_encode(JsonStruct {
        field: "n".to_string(),
        value: ValueTypes::Integer(42),
    })
    .unwrap();
    let float_str = json_encode(JsonStruct {
        field: "n".to_string(),
        value: ValueTypes::Float("42.0".to_string()),
    })
    .unwrap();
    assert_ne!(int_str, float_str);
    assert!(int_str.contains(r#""Int""#));
    assert!(float_str.contains(r#""Float""#));
    assert!(matches!(
        json_decode(&int_str).unwrap().value,
        ValueTypes::Integer(42)
    ));
    match json_decode(&float_str).unwrap().value {
        ValueTypes::Float(t) => assert_eq!(t, "42.0"),
        _ => panic!("Unexpected type"),
    }
}

#[test]
fn test_map_key_order_irrelevant() {
    let a = json_decode(r#"{"field":"m","value":{"Map":{"key1":{"Int":100},"key2":{"Text":"value"}}}}"#)
        .unwrap();
    let b = json_decode(r#"{"field":"m","value":{"Map":{"key2":{"Text":"value"},"key1":{"Int":100}}}}"#)
        .unwrap();
    let pa = mapping_pairs(&a.value);
    let pb = mapping_pairs(&b.value);
    assert_eq!(pa.len(), 2);
    assert_eq!(pb.len(), 2);
    assert_eq!(mapping_get(&pa, "key1"), mapping_get(&pb, "key1"));
    assert_eq!(mapping_get(&pa, "key2"), mapping_get(&pb, "key2"));
    assert_eq!(*mapping_get(&pa, "key1"), ValueTypes::Integer(100));
    assert_eq!(*mapping_get(&pa, "key2"), ValueTypes::Text("value".to_string()));
}

#[test]
fn test_unknown_tag_fails() {
    let r = json_decode(r#"{"field":"example","value":{"Unknown":1}}"#);
    assert_eq!(r, Err(DecodeError));
}

fn nested_rec() -> JsonStruct {
    JsonStruct {
        field: "everything".to_string(),
        value: ValueTypes::List(vec![
            ValueTypes::Integer(-7),
            ValueTypes::Float("1.5e10".to_string()),
            ValueTypes::Text("he said \"hi\"\n".to_string()),
            ValueTypes::Mapping(vec![
                ("inner".to_string(), ValueTypes::List(vec![])),
                ("deep".to_string(), ValueTypes::Mapping(vec![])),
            ]),
        ]),
    }
}

#[test]
fn test_round_trip_nested() {
    let text = json_encode(nested_rec()).unwrap();
    let back = json_decode(&text).unwrap();
    assert_eq!(back, nested_rec());
}

#[test]
fn test_round_trip_extreme_integers() {
    for n in [i32::MIN, -1, 0, 1, i32::MAX] {
        let rec = JsonStruct {
            field: "n".to_string(),
            value: ValueTypes::Integer(n),
        };
        let text = json_encode(rec).unwrap();
        let back = json_decode(&text).unwrap();
        assert_eq!(
            back,
            JsonStruct {
                field: "n".to_string(),
                value: ValueTypes::Integer(n),
            }
        );
    }
}

#[test]
fn test_encode_rejects_bad_float_literal() {
    let rec = JsonStruct {
        field: "x".to_string(),
        value: ValueTypes::Float("NaN".to_string()),
    };
    assert!(json_encode(rec).is_err());
    let rec2 = JsonStruct {
        field: "x".to_string(),
        value: ValueTypes::Float("1.5".to_string()),
    };
    assert_eq!(
        json_encode(rec2).unwrap(),
        r#"{"field":"x","value":{"Float":1.5}}"#
    );
}

#[test]
fn test_decode_with_whitespace() {
    let r = json_decode("{ \"field\" : \"x\" ,\n \"value\" : { \"Int\" : 7 } }\t").unwrap();
    assert_eq!(r.value, ValueTypes::Integer(7));
}

#[test]
fn test_decode_member_order_swapped() {
    let r = json_decode(r#"{"value":{"Int":1},"field":"x"}"#).unwrap();
    assert_eq!(r.field, "x");
    assert_eq!(r.value, ValueTypes::Integer(1));
}

#[test]
fn test_decode_escapes() {
    let r = json_decode(r#"{"field":"f","value":{"Text":"a\"b\\c\n\tAé"}}"#).unwrap();
    assert_eq!(r.value, ValueTypes::Text("a\"b\\c\n\tA\u{e9}".to_string()));
}

#[test]
fn test_decode_int_errors() {
    assert_eq!(
        json_decode(r#"{"field":"x","value":{"Int":99999999999}}"#),
        Err(DecodeError)
    );
    assert_eq!(
        json_decode(r#"{"field":"x","value":{"Int":4.5}}"#),
        Err(DecodeError)
    );
    assert_eq!(
        json_decode(r#"{"field":"x","value":{"Float":true}}"#),
        Err(DecodeError)
    );
}

#[test]
fn test_decode_shape_errors() {
    assert_eq!(json_decode(""), Err(DecodeError));
    assert_eq!(json_decode(r#"{"field":"x"}"#), Err(DecodeError));
    assert_eq!(json_decode(r#"{"value":{"Int":1}}"#), Err(DecodeError));
    assert_eq!(
        json_decode(r#"{"field":"x","value":{"Int":1}} trailing"#),
        Err(DecodeError)
    );
    assert_eq!(
        json_decode(r#"{"field":"x","value":{"Int":1},"extra":2}"#),
        Err(DecodeError)
    );
}

#[test]
fn test_round_trip_empty_containers() {
    let make = |which: usize| -> ValueTypes {
        match which {
            0 => ValueTypes::Mapping(vec![]),
            1 => ValueTypes::List(vec![]),
            _ => ValueTypes::Text(String::new()),
        }
    };
    for which in 0..3 {
        let rec = JsonStruct {
            field: String::new(),
            value: make(which),
        };
        let text = json_encode(rec).unwrap();
        assert_eq!(
            json_decode(&text).unwrap(),
            JsonStruct {
                field: String::new(),
                value: make(which),
            }
        );
    }
}

#[test]
fn test_encode_escapes_controls() {
    let rec = JsonStruct {
        field: "f".to_string(),
        value: ValueTypes::Text("a\"\\\n\u{1}".to_string()),
    };
    let text = json_encode(rec).unwrap();
    assert_eq!(
        text,
        r#"{"field":"f","value":{"Text":"a\"\\\u000a\u0001"}}"#
    );
    assert_eq!(
        json_decode(&text).unwrap(),
        JsonStruct {
            field: "f".to_string(),
            value: ValueTypes::Text("a\"\\\n\u{1}".to_string()),
        }
    );
}

#[test]
fn test_decode_duplicate_keys_fails() {
    let r = json_decode(r#"{"field":"m","value":{"Map":{"k":{"Int":1},"k":{"Int":2}}}}"#);
    assert_eq!(r, Err(DecodeError));
    let nested = json_decode(
        r#"{"field":"m","value":{"List":[{"Map":{"a":{"Int":1},"a":{"Int":1}}}]}}"#,
    );
    assert_eq!(nested, Err(DecodeError));
}

#[test]
fn test_encode_duplicate_keys_fails() {
    let rec = JsonStruct {
        field: "m".to_string(),
        value: ValueTypes::Mapping(vec![
            ("k".to_string(), ValueTypes::Integer(1)),
            ("k".to_string(), ValueTypes::Integer(2)),
        ]),
    };
    assert!(json_encode(rec).is_err());
}
