use bittorrent::bencode::{
    bytes_lt, decode, decode_prefix, dict_get, encode_value, DecodeErrorKind, Value,
};

fn to_json(v: &Value) -> serde_json::Value {
    match v {
        Value::Bytes(b) => serde_json::Value::String(String::from_utf8(b.clone()).unwrap()),
        Value::Int(i) => serde_json::Value::Number(serde_json::Number::from(*i)),
        Value::List(items) => serde_json::Value::Array(items.iter().map(to_json).collect()),
        Value::Dict(entries) => {
            let mut m = serde_json::Map::new();
            for (k, v) in entries {
                m.insert(String::from_utf8(k.clone()).unwrap(), to_json(v));
            }
            serde_json::Value::Object(m)
        }
    }
}

fn kind_of(input: &[u8]) -> DecodeErrorKind {
    decode(input).unwrap_err().kind
}

#[test]
fn decode_dictionary_renders_as_json() {
    let v = decode(b"d3:foo3:bar5:helloi52ee").unwrap();
    assert_eq!(to_json(&v).to_string(), r#"{"foo":"bar","hello":52}"#);
}

#[test]
fn decode_string_and_integers() {
    match decode(b"5:hello").unwrap() {
        Value::Bytes(b) => assert_eq!(b, b"hello".to_vec()),
        other => panic!("unexpected {:?}", other),
    }
    match decode(b"i-52e").unwrap() {
        Value::Int(i) => assert_eq!(i, -52),
        other => panic!("unexpected {:?}", other),
    }
    match decode(b"i0e").unwrap() {
        Value::Int(i) => assert_eq!(i, 0),
        other => panic!("unexpected {:?}", other),
    }
    match decode(b"i-9223372036854775808e").unwrap() {
        Value::Int(i) => assert_eq!(i, i64::MIN),
        other => panic!("unexpected {:?}", other),
    }
    match decode(b"0:").unwrap() {
        Value::Bytes(b) => assert!(b.is_empty()),
        other => panic!("unexpected {:?}", other),
    }
}

#[test]
fn decode_nested_list() {
    let v = decode(b"l5:helloi52eli1eee").unwrap();
    assert_eq!(to_json(&v).to_string(), r#"["hello",52,[1]]"#);
    let empty = decode(b"le").unwrap();
    assert_eq!(to_json(&empty).to_string(), "[]");
    let empty_dict = decode(b"de").unwrap();
    assert_eq!(to_json(&empty_dict).to_string(), "{}");
}

#[test]
fn round_trip_reencodes_identical_bytes() {
    let inputs: Vec<&[u8]> = vec![
        b"d3:foo3:bar5:helloi52ee",
        b"l5:helloi52eli1eee",
        b"d4:infod6:lengthi3e4:name1:aee",
        b"i-17e",
        b"0:",
        b"de",
    ];
    for x in inputs {
        let v = decode(x).unwrap();
        assert_eq!(encode_value(&v), x.to_vec());
    }
}

#[test]
fn decode_errors_by_kind() {
    assert_eq!(kind_of(b""), DecodeErrorKind::UnexpectedEnd);
    assert_eq!(kind_of(b"i12"), DecodeErrorKind::UnexpectedEnd);
    assert_eq!(kind_of(b"5:abc"), DecodeErrorKind::UnexpectedEnd);
    assert_eq!(kind_of(b"l1:a"), DecodeErrorKind::UnexpectedEnd);
    assert_eq!(kind_of(b"x"), DecodeErrorKind::UnexpectedByte);
    assert_eq!(kind_of(b"i1xe"), DecodeErrorKind::UnexpectedByte);
    assert_eq!(kind_of(b"ie"), DecodeErrorKind::UnexpectedByte);
    assert_eq!(kind_of(b"i03e"), DecodeErrorKind::LeadingZero);
    assert_eq!(kind_of(b"03:abc"), DecodeErrorKind::LeadingZero);
    assert_eq!(kind_of(b"i-0e"), DecodeErrorKind::NegativeZero);
    assert_eq!(kind_of(b"i9223372036854775808e"), DecodeErrorKind::OutOfRange);
    assert_eq!(kind_of(b"d1:bi1e1:ai2ee"), DecodeErrorKind::UnsortedKeys);
    assert_eq!(kind_of(b"d1:ai1e1:ai2ee"), DecodeErrorKind::UnsortedKeys);
    assert_eq!(kind_of(b"i1ei2e"), DecodeErrorKind::TrailingData);
}

#[test]
fn decode_error_offsets() {
    let e = decode(b"i1ei2e").unwrap_err();
    assert_eq!(e.offset, 3);
    let e = decode(b"l1:ax").unwrap_err();
    assert_eq!(e.kind, DecodeErrorKind::UnexpectedByte);
    assert_eq!(e.offset, 4);
}

#[test]
fn decode_prefix_reports_end_offset() {
    let input = b"xxd8:msg_typei1e5:piecei0eeRAWDATA";
    let (v, end) = decode_prefix(input, 2).unwrap();
    assert_eq!(end, input.len() - 7);
    assert_eq!(&input[end..], b"RAWDATA");
    match v {
        Value::Dict(es) => {
            match dict_get(&es, b"msg_type") {
                Some(Value::Int(1)) => {}
                other => panic!("unexpected {:?}", other),
            }
            assert!(dict_get(&es, b"total_size").is_none());
        }
        other => panic!("unexpected {:?}", other),
    }
}

#[test]
fn byte_order_is_lexicographic() {
    assert!(bytes_lt(b"a", b"b"));
    assert!(bytes_lt(b"ab", b"abc"));
    assert!(!bytes_lt(b"abc", b"ab"));
    assert!(!bytes_lt(b"a", b"a"));
    assert!(bytes_lt(b"", b"a"));
}

#[test]
fn decode_error_kinds_and_offsets() {
    let e = decode(b"").unwrap_err();
    assert_eq!((e.kind, e.offset), (DecodeErrorKind::UnexpectedEnd, 0));
    let e = decode(b"i12").unwrap_err();
    assert_eq!((e.kind, e.offset), (DecodeErrorKind::UnexpectedEnd, 3));
    let e = decode(b"5:abc").unwrap_err();
    assert_eq!((e.kind, e.offset), (DecodeErrorKind::UnexpectedEnd, 5));
    let e = decode(b"i-0e").unwrap_err();
    assert_eq!((e.kind, e.offset), (DecodeErrorKind::NegativeZero, 2));
    let e = decode(b"i007e").unwrap_err();
    assert_eq!((e.kind, e.offset), (DecodeErrorKind::LeadingZero, 1));
    let e = decode(b"d1:bi1e1:ai2ee").unwrap_err();
    assert_eq!((e.kind, e.offset), (DecodeErrorKind::UnsortedKeys, 7));
    let e = decode(b"li1e").unwrap_err();
    assert_eq!((e.kind, e.offset), (DecodeErrorKind::UnexpectedEnd, 4));
    let e = decode(b"?").unwrap_err();
    assert_eq!((e.kind, e.offset), (DecodeErrorKind::UnexpectedByte, 0));
}

#[test]
fn truncated_values_end_unexpectedly() {
    let whole = b"d4:infold1:ai-12ee3:xyze5:piecei7ee";
    for cut in 0..whole.len() {
        let e = decode(&whole[..cut]).unwrap_err();
        assert_eq!((e.kind, e.offset), (DecodeErrorKind::UnexpectedEnd, cut), "cut at {}", cut);
    }
    assert!(decode(whole).is_ok());
}
