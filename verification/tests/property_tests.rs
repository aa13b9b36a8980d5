use serde_www_form_urlencoded::de::FormDecoder;
use serde_www_form_urlencoded::error::Error;
use serde_www_form_urlencoded::lexer::{Lexer, Token};
use serde_www_form_urlencoded::num::{format_i64, format_u64, parse_i64, parse_u64};
use serde_www_form_urlencoded::parser::{Parser, Value};
use serde_www_form_urlencoded::ser::{
    encode_bool, encode_bytes, encode_null, encode_str, encode_u8, Value as EncValue,
    ValueMap as EncValueMap,
};

fn tokens_of(input: &str) -> Vec<Token> {
    let mut lexer = Lexer::new(input);
    let mut out = Vec::new();
    while let Some(tok) = lexer.next_token() {
        out.push(tok);
    }
    out
}

fn leaf_text(v: EncValue) -> String {
    match v {
        EncValue::Single(s) => s,
        _ => panic!("expected a leaf"),
    }
}

#[test]
fn test_unsigned_round_trip() {
    for n in [0u64, 1, 9, 10, 4096, u64::MAX] {
        let text = format_u64(n);
        assert_eq!(parse_u64(&text), Some(n));
    }
    assert_eq!(format_u64(u64::MAX), "18446744073709551615");
    assert_eq!(parse_u64("18446744073709551616"), None);
    assert_eq!(parse_u64("+5"), Some(5));
    assert_eq!(parse_u64(""), None);
    assert_eq!(parse_u64("12a"), None);
}

#[test]
fn test_signed_round_trip() {
    for n in [0i64, -1, 1, i64::MIN, i64::MAX, -305] {
        let text = format_i64(n);
        assert_eq!(parse_i64(&text), Some(n));
    }
    assert_eq!(parse_i64("-9223372036854775809"), None);
    assert_eq!(parse_i64("-"), None);
}

#[test]
fn test_bool_round_trip() {
    for v in [true, false] {
        let leaf = leaf_text(encode_bool(v));
        let decoder = FormDecoder(Value::Single(leaf));
        assert_eq!(decoder.decode_bool().unwrap(), v);
    }
    let decoder = FormDecoder(Value::Single("TrUe".to_string()));
    assert_eq!(decoder.decode_bool().unwrap(), true);
}

#[test]
fn test_string_escaping_round_trip() {
    // The `"` character survives the trip: it is escaped on encode and
    // unescaped by the tokenizer.
    let leaf = leaf_text(encode_str("arg2\""));
    assert_eq!(leaf, "\"arg2\\\"\"");
    let toks = tokens_of(&leaf);
    assert_eq!(toks, vec![Token::Literal("arg2\"".to_string())]);
}

#[test]
fn test_string_backslash_is_lossy() {
    // A literal `\` is not escaped on encode, so the tokenizer reads it as
    // an escape prefix: the known, documented limitation.
    let leaf = leaf_text(encode_str("a\\b"));
    assert_eq!(leaf, "\"a\\b\"");
    let toks = tokens_of(&leaf);
    assert_eq!(toks, vec![Token::Literal("ab".to_string())]);
}

#[test]
fn test_optional_null() {
    // Absent encodes to exactly `null`…
    assert_eq!(leaf_text(encode_null()), "null");
    // …and the bare leaf `null` decodes back to absent.
    let decoder = FormDecoder::new("x=null").unwrap();
    let mut m = decoder.try_as_map().unwrap();
    let v = m.take("x").unwrap().1;
    assert!(FormDecoder(v).is_null());
}

#[test]
fn test_optional_present() {
    // A composite never reads as the absent marker, whatever it holds.
    let decoder = FormDecoder::new("x.a=null").unwrap();
    let mut m = decoder.try_as_map().unwrap();
    let v = m.take("x").unwrap().1;
    assert!(!FormDecoder(v).is_null());
    // An ordinary present leaf is not the marker either.
    let decoder = FormDecoder::new("x=12").unwrap();
    let mut m = decoder.try_as_map().unwrap();
    let v = m.take("x").unwrap().1;
    assert!(!FormDecoder(v).is_null());
}

#[test]
fn test_malformed_grammar() {
    // A key without `=` is a typed grammar error, not a crash.
    match FormDecoder::new("a&b=c") {
        Err(Error::MalformedInput(i)) => assert_eq!(i, 1),
        other => panic!("expected a grammar error, got {:?}", other.is_ok()),
    }
}

#[test]
fn test_malformed_eos() {
    match FormDecoder::new("a=") {
        Err(Error::MalformedInput(i)) => assert_eq!(i, 2),
        _ => panic!("expected a grammar error"),
    }
    assert!(FormDecoder::new("a=b&").is_ok());
}

#[test]
fn test_sequence_wire_shape() {
    // Exactly the keys 0..N-1 plus $length=N, in that order.
    let bytes: &[u8] = &[0, 1, 2, 3, 4];
    let mut encoder = serde_www_form_urlencoded::ser::FormEncoder(Vec::new());
    encoder.push(EncValue::Mapping(EncValueMap(Vec::new())));
    encoder.push(EncValue::Single("foo0".to_string()));
    encoder.push(encode_bytes(bytes));
    encoder.pop_key_value().unwrap();
    let root = encoder.0.pop().unwrap();
    assert_eq!(
        root.to_string(),
        "foo0.0=0&foo0.1=1&foo0.2=2&foo0.3=3&foo0.4=4&foo0.$length=5"
    );
}

#[test]
fn test_sequence_length_tampered_high() {
    // A $length above the element count fails on the missing item.
    let decoder = FormDecoder::new("a.0=1&a.$length=3").unwrap();
    let seq = decoder.try_as_map().unwrap().take("a").unwrap().1;
    let mut m = FormDecoder(seq).try_as_map().unwrap();
    assert_eq!(m.seq_length().unwrap(), 3);
    assert!(m.take_index(0).is_ok());
    match m.take_index(1) {
        Err(Error::MissingSequenceItem) => {}
        _ => panic!("expected a missing sequence item"),
    }
}

#[test]
fn test_sequence_length_tampered_low() {
    // A $length below the element count silently truncates: indices at or
    // past it are never read.
    let decoder = FormDecoder::new("a.0=1&a.1=2&a.$length=1").unwrap();
    let mut m = FormDecoder(decoder.try_as_map().unwrap().take("a").unwrap().1)
        .try_as_map()
        .unwrap();
    let len = m.seq_length().unwrap();
    assert_eq!(len, 1);
    let mut items = Vec::new();
    for i in 0..len {
        items.push(FormDecoder(m.take_index(i).unwrap()).try_as_single().unwrap());
    }
    assert_eq!(items, vec!["1".to_string()]);
}

#[test]
fn test_sequence_missing_length() {
    let decoder = FormDecoder::new("a.0=1").unwrap();
    let m = FormDecoder(decoder.try_as_map().unwrap().take("a").unwrap().1)
        .try_as_map()
        .unwrap();
    match m.seq_length() {
        Err(Error::MissingSequenceLength) => {}
        _ => panic!("expected a missing length"),
    }
}

#[test]
fn test_sequence_bad_length() {
    let decoder = FormDecoder::new("a.0=1&a.$length=abc").unwrap();
    let m = FormDecoder(decoder.try_as_map().unwrap().take("a").unwrap().1)
        .try_as_map()
        .unwrap();
    match m.seq_length() {
        Err(Error::ExpectingUsize) => {}
        _ => panic!("expected a usize error"),
    }
}

#[test]
fn test_scalar_errors() {
    match FormDecoder(Value::Single("abc".to_string())).decode_bool() {
        Err(Error::ExpectingBool) => {}
        _ => panic!("expected a bool error"),
    }
    match FormDecoder(Value::Single("300".to_string())).decode_u8() {
        Err(Error::ExpectingU8) => {}
        _ => panic!("expected a u8 error"),
    }
    match FormDecoder(Value::Single("-200".to_string())).decode_i8() {
        Err(Error::ExpectingI8) => {}
        _ => panic!("expected an i8 error"),
    }
    match FormDecoder(Value::Single("".to_string())).decode_char() {
        Err(Error::ExpectingChar) => {}
        _ => panic!("expected a char error"),
    }
    match FormDecoder(Value::Single("zebra".to_string())).decode_char() {
        Err(Error::ExpectingChar) => {}
        _ => panic!("expected a char error"),
    }
    match FormDecoder(Value::map()).decode_u64() {
        Err(Error::ExpectingString) => {}
        _ => panic!("expected a string error"),
    }
    match FormDecoder(Value::Single("5".to_string())).try_as_map() {
        Err(Error::ExpectingMap) => {}
        _ => panic!("expected a map error"),
    }
}

#[test]
fn test_scalar_decodes() {
    assert_eq!(
        FormDecoder(Value::Single("42".to_string())).decode_u16().unwrap(),
        42
    );
    assert_eq!(
        FormDecoder(Value::Single("-42".to_string())).decode_i32().unwrap(),
        -42
    );
    assert_eq!(
        FormDecoder(Value::Single("-42".to_string())).decode_i16().unwrap(),
        -42
    );
    assert_eq!(
        FormDecoder(Value::Single("42".to_string())).decode_u32().unwrap(),
        42
    );
    assert_eq!(
        FormDecoder(Value::Single("-9223372036854775808".to_string()))
            .decode_i64()
            .unwrap(),
        i64::MIN
    );
    assert_eq!(
        FormDecoder(Value::Single("z".to_string())).decode_char().unwrap(),
        'z'
    );
}

#[test]
fn test_error_messages() {
    assert_eq!(Error::ExpectingBool.message(), "expecting bool");
    assert_eq!(Error::MissingSequenceLength.message(), "expecting $length");
    assert_eq!(Error::MalformedInput(3).message(), "malformed input at token 3");
    assert_eq!(Error::Custom("boom".to_string()).message(), "boom");
    assert_eq!(Error::IoError("closed".to_string()).message(), "IO error : closed");
    assert_eq!(
        Error::ExpectingUtf8String.message(),
        "expecting bytes sequence to be an encoded utf-8 string"
    );
    assert_eq!(Error::ExpectingF32.message(), "expecting f32");
    assert_eq!(Error::ExpectingF64.message(), "expecting f64");
}

#[test]
fn test_unquoted_terminators() {
    let toks = tokens_of("a=b");
    assert_eq!(
        toks,
        vec![
            Token::Literal("a".to_string()),
            Token::Assign,
            Token::Literal("b".to_string()),
        ]
    );
    // An unterminated quote closes at the end of the input.
    let toks = tokens_of("\"abc");
    assert_eq!(toks, vec![Token::Literal("abc".to_string())]);
}

#[test]
fn test_leaf_map_collision_overwrites() {
    // A path that descends through an existing leaf silently replaces it
    // by a fresh composite, as the assembler has always done.
    let decoder = FormDecoder::new("a=1&a.b=2").unwrap();
    let mut m = decoder.try_as_map().unwrap();
    let mut inner = FormDecoder(m.take("a").unwrap().1).try_as_map().unwrap();
    let leaf = FormDecoder(inner.take("b").unwrap().1).try_as_single().unwrap();
    assert_eq!(leaf, "2");
}

#[test]
fn test_composite_map_key_rejected() {
    // A serialized key that is not a single leaf is an encode failure,
    // and the stack is left as it was.
    let mut encoder = serde_www_form_urlencoded::ser::FormEncoder(Vec::new());
    encoder.push(EncValue::Mapping(EncValueMap(Vec::new())));
    encoder.push(EncValue::Mapping(EncValueMap(Vec::new())));
    encoder.push(EncValue::Single("v".to_string()));
    match encoder.pop_key_value_checked() {
        Err(Error::Custom(m)) => assert_eq!(m, "map keys must serialize to a single leaf"),
        _ => panic!("expected an encode failure"),
    }
    assert_eq!(encoder.0.len(), 3);
}

#[test]
fn test_quoted_value_through_pipeline() {
    // A quoted leaf holding `"` travels the whole decode path: tokenizer,
    // grammar parser and assembler.
    let decoder = FormDecoder::new("a=\"x\\\"y\"&b=2").unwrap();
    let mut m = decoder.try_as_map().unwrap();
    let a = FormDecoder(m.take("a").unwrap().1).try_as_single().unwrap();
    assert_eq!(a, "x\"y");
    let b = FormDecoder(m.take("b").unwrap().1).decode_u8().unwrap();
    assert_eq!(b, 2);
}

#[test]
fn test_parser_stops_at_error() {
    let mut parser = Parser::new("a=b&c&d=e");
    let first = parser.next_pair().unwrap().unwrap();
    assert_eq!(first.key, "a");
    assert_eq!(first.value, "b");
    match parser.next_pair() {
        Some(Err(Error::MalformedInput(i))) => assert_eq!(i, 5),
        _ => panic!("expected a grammar error"),
    }
}
