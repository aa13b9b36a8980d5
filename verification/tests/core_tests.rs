use std::io::Read;

use serde_www_form_urlencoded::de::FormDecoder;
use serde_www_form_urlencoded::lexer::{Lexer, Token};
use serde_www_form_urlencoded::parser::{KeyValue, Parser, Value};
use serde_www_form_urlencoded::ser::{
    encode_bool, encode_str, encode_u16, encode_u32, encode_u64, encode_u8, FormEncoder,
    Value as EncValue, ValueMap as EncValueMap,
};

const ENCODED: &'static str = "arg0=false&arg1=8&arg2=9&arg3=10&arg4=11&arg5=1.01&arg6=1.02&arg7=\"test\"&arg8.arg0=\"nested_test\"&arg8.arg1=18.01&arg9.0.arg0=\"item0\"&arg9.0.arg1=20.5&arg9.1.arg0=\"item1\"&arg9.1.arg1=10.5&arg9.$length=2";

#[derive(Debug, PartialEq)]
struct Foo {
    arg0: bool,
    arg1: u8,
    arg2: u16,
    arg3: u32,
    arg4: u64,
    arg5: f32,
    arg6: f64,
    arg7: String,
    arg8: Nested,
    arg9: Vec<Nested>,
}

#[derive(Debug, PartialEq)]
struct Nested {
    arg0: String,
    arg1: f32,
}

fn fixture() -> Foo {
    Foo {
        arg0: false,
        arg1: 8,
        arg2: 9,
        arg3: 10,
        arg4: 11,
        arg5: 1.01,
        arg6: 1.02,
        arg7: "test".to_string(),
        arg8: Nested { arg0: "nested_test".to_string(), arg1: 18.01 },
        arg9: vec![
            Nested { arg0: "item0".to_string(), arg1: 20.5 },
            Nested { arg0: "item1".to_string(), arg1: 10.5 },
        ],
    }
}

fn take_field(map: &mut serde_www_form_urlencoded::parser::ValueMap, key: &str) -> Value {
    map.take(key).expect("missing field").1
}

fn decode_nested(v: Value) -> Nested {
    let mut m = FormDecoder(v).try_as_map().unwrap();
    let arg0 = FormDecoder(take_field(&mut m, "arg0")).try_as_single().unwrap();
    let arg1 = FormDecoder(take_field(&mut m, "arg1"))
        .try_as_single()
        .unwrap()
        .parse::<f32>()
        .unwrap();
    Nested { arg0, arg1 }
}

fn decode_foo(input: &str) -> Foo {
    let decoder = FormDecoder::new(input).unwrap();
    let mut m = decoder.try_as_map().unwrap();
    let arg0 = FormDecoder(take_field(&mut m, "arg0")).decode_bool().unwrap();
    let arg1 = FormDecoder(take_field(&mut m, "arg1")).decode_u8().unwrap();
    let arg2 = FormDecoder(take_field(&mut m, "arg2")).decode_u16().unwrap();
    let arg3 = FormDecoder(take_field(&mut m, "arg3")).decode_u32().unwrap();
    let arg4 = FormDecoder(take_field(&mut m, "arg4")).decode_u64().unwrap();
    let arg5 = FormDecoder(take_field(&mut m, "arg5"))
        .try_as_single()
        .unwrap()
        .parse::<f32>()
        .unwrap();
    let arg6 = FormDecoder(take_field(&mut m, "arg6"))
        .try_as_single()
        .unwrap()
        .parse::<f64>()
        .unwrap();
    let arg7 = FormDecoder(take_field(&mut m, "arg7")).try_as_single().unwrap();
    let arg8 = decode_nested(take_field(&mut m, "arg8"));
    let mut seq = FormDecoder(take_field(&mut m, "arg9")).try_as_map().unwrap();
    let len = seq.seq_length().unwrap();
    let mut arg9 = Vec::new();
    for i in 0..len {
        arg9.push(decode_nested(seq.take_index(i).unwrap()));
    }
    Foo { arg0, arg1, arg2, arg3, arg4, arg5, arg6, arg7, arg8, arg9 }
}

#[test]
fn test_deserialize_str() {
    let expected = fixture();
    let got = decode_foo(ENCODED);
    assert_eq!(got, expected);
}

#[test]
fn test_deserialize_bytes() {
    let expected = fixture();
    let bytes = ENCODED.as_bytes();
    let got = decode_foo(std::str::from_utf8(bytes).unwrap());
    assert_eq!(got, expected);
}

#[test]
fn test_deserialize_reader() {
    let expected = fixture();
    let bytes = ENCODED.as_bytes();
    let mut cursor = std::io::Cursor::new(bytes);
    let mut buffer: Vec<u8> = Default::default();
    cursor.read_to_end(&mut buffer).unwrap();
    let got = decode_foo(std::str::from_utf8(buffer.as_slice()).unwrap());
    assert_eq!(got, expected);
}

#[test]
fn test_lexer() {
    let mut lexer = Lexer::new("arg0=\"arg2\\\"\"&arg3=10");
    let expected = vec![
        Token::Literal("arg0".to_string()),
        Token::Assign,
        Token::Literal("arg2\"".to_string()),
        Token::Ampersand,
        Token::Literal("arg3".to_string()),
        Token::Assign,
        Token::Literal("10".to_string()),
    ];
    let mut got = Vec::new();
    while let Some(tok) = lexer.next_token() {
        got.push(tok);
    }
    assert_eq!(expected, got);
}

#[test]
fn test_parser() {
    let expected = vec![
        KeyValue::new("arg0".to_string(), "false".to_string()),
        KeyValue::new("arg1".to_string(), "8".to_string()),
        KeyValue::new("arg2".to_string(), "9".to_string()),
        KeyValue::new("arg3".to_string(), "10".to_string()),
        KeyValue::new("arg4".to_string(), "11".to_string()),
        KeyValue::new("arg5".to_string(), "1.01".to_string()),
        KeyValue::new("arg6".to_string(), "1.02".to_string()),
        KeyValue::new("arg7".to_string(), "test".to_string()),
        KeyValue::new("arg8.arg0".to_string(), "nested_test".to_string()),
        KeyValue::new("arg8.arg1".to_string(), "18.01".to_string()),
        KeyValue::new("arg9.0.arg0".to_string(), "item0".to_string()),
        KeyValue::new("arg9.0.arg1".to_string(), "20.5".to_string()),
        KeyValue::new("arg9.1.arg0".to_string(), "item1".to_string()),
        KeyValue::new("arg9.1.arg1".to_string(), "10.5".to_string()),
        KeyValue::new("arg9.$length".to_string(), "2".to_string()),
    ];
    let mut parser = Parser::new(ENCODED);
    let mut got = Vec::new();
    while let Some(item) = parser.next_pair() {
        got.push(item.unwrap());
    }
    assert_eq!(got, expected);
}

fn path(segments: &[&str]) -> Vec<String> {
    segments.iter().map(|s| s.to_string()).collect()
}

#[test]
fn test_collect_nested_value() {
    let mut parser = Parser::new(ENCODED);
    let mut pairs = Vec::new();
    while let Some(item) = parser.next_pair() {
        pairs.push(item.unwrap());
    }
    let got = Value::from_pairs(&pairs);

    let mut expected = Value::map();
    expected.set(&path(&["arg0"]), "false".to_string());
    expected.set(&path(&["arg1"]), "8".to_string());
    expected.set(&path(&["arg2"]), "9".to_string());
    expected.set(&path(&["arg3"]), "10".to_string());
    expected.set(&path(&["arg4"]), "11".to_string());
    expected.set(&path(&["arg5"]), "1.01".to_string());
    expected.set(&path(&["arg6"]), "1.02".to_string());
    expected.set(&path(&["arg7"]), "test".to_string());
    expected.set(&path(&["arg8", "arg0"]), "nested_test".to_string());
    expected.set(&path(&["arg8", "arg1"]), "18.01".to_string());
    expected.set(&path(&["arg9", "0", "arg0"]), "item0".to_string());
    expected.set(&path(&["arg9", "0", "arg1"]), "20.5".to_string());
    expected.set(&path(&["arg9", "1", "arg0"]), "item1".to_string());
    expected.set(&path(&["arg9", "1", "arg1"]), "10.5".to_string());
    expected.set(&path(&["arg9", "$length"]), "2".to_string());

    assert!(value_eq(&expected, &got));
}

/// Order-independent comparison of decode trees, as map nodes are
/// unordered.
fn value_eq(a: &Value, b: &Value) -> bool {
    match (a, b) {
        (Value::Single(x), Value::Single(y)) => x == y,
        (Value::Mapping(x), Value::Mapping(y)) => {
            if x.0.len() != y.0.len() {
                return false;
            }
            for (k, v) in x.0.iter() {
                match y.0.iter().find(|(k2, _)| k2 == k) {
                    Some((_, v2)) => {
                        if !value_eq(v, v2) {
                            return false;
                        }
                    }
                    None => return false,
                }
            }
            true
        }
        _ => false,
    }
}

fn encode_field(encoder: &mut FormEncoder, key: &str, value: EncValue) {
    encoder.push(EncValue::Single(key.to_string()));
    encoder.push(value);
    encoder.pop_key_value().unwrap();
}

fn encode_nested(arg0: &str, arg1: f32) -> EncValue {
    let mut encoder = FormEncoder(Vec::new());
    encoder.push(EncValue::Mapping(EncValueMap(Vec::new())));
    encode_field(&mut encoder, "arg0", encode_str(arg0));
    encode_field(&mut encoder, "arg1", EncValue::Single(format!("{}", arg1)));
    encoder.0.pop().unwrap()
}

#[test]
fn test_serialize_to_string() {
    let value = fixture();
    let mut encoder = FormEncoder(Vec::new());
    encoder.push(EncValue::Mapping(EncValueMap(Vec::new())));
    encode_field(&mut encoder, "arg0", encode_bool(value.arg0));
    encode_field(&mut encoder, "arg1", encode_u8(value.arg1));
    encode_field(&mut encoder, "arg2", encode_u16(value.arg2));
    encode_field(&mut encoder, "arg3", encode_u32(value.arg3));
    encode_field(&mut encoder, "arg4", encode_u64(value.arg4));
    encode_field(&mut encoder, "arg5", EncValue::Single(format!("{}", value.arg5)));
    encode_field(&mut encoder, "arg6", EncValue::Single(format!("{}", value.arg6)));
    encode_field(&mut encoder, "arg7", encode_str(&value.arg7));
    encode_field(
        &mut encoder,
        "arg8",
        encode_nested(&value.arg8.arg0, value.arg8.arg1),
    );
    encoder.push(EncValue::Single("arg9".to_string()));
    encoder.push(EncValue::Sequence(Vec::new()));
    for item in value.arg9.iter() {
        encoder.push(encode_nested(&item.arg0, item.arg1));
        encoder.pop_element().unwrap();
    }
    encoder.pop_key_value().unwrap();
    let root = encoder.0.pop().unwrap();
    let got = root.to_string();
    assert_eq!(ENCODED, got);
}
