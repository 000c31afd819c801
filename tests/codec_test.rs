use start_command::codec::{decode, decode_link, encode, parse, DecodeError, Value};
use start_command::link::Link;

fn s(x: &str) -> Value {
    Value::Str(x.to_string())
}

fn iv(n: i64) -> Value {
    Value::Int(n)
}

fn obj(entries: Vec<(&str, Value)>) -> Value {
    Value::Object(entries.into_iter().map(|(k, v)| (k.to_string(), v)).collect())
}

fn round_trips(v: &Value) -> bool {
    let text = encode(v);
    match decode(&text) {
        Ok(back) => encode(&back) == text,
        Err(_) => false,
    }
}

#[test]
fn test_encode_null() {
    assert_eq!(encode(&Value::Null), "(null)");
}

#[test]
fn test_encode_bool() {
    assert_eq!(encode(&Value::Bool(true)), "(bool true)");
    assert_eq!(encode(&Value::Bool(false)), "(bool false)");
}

#[test]
fn test_encode_int() {
    assert_eq!(encode(&iv(42)), "(int 42)");
    assert_eq!(encode(&iv(-123)), "(int -123)");
}

#[test]
fn test_encode_float() {
    assert_eq!(encode(&Value::Float("3.14".to_string())), "(float 3.14)");
}

#[test]
fn test_encode_string() {
    assert_eq!(encode(&s("hello")), "(str aGVsbG8=)");
}

#[test]
fn test_encode_array() {
    let v = Value::Array(vec![iv(1), iv(2), iv(3)]);
    assert_eq!(encode(&v), "(array (int 1) (int 2) (int 3))");
}

#[test]
fn test_encode_object() {
    let encoded = encode(&obj(vec![("name", s("Alice")), ("age", iv(30))]));
    assert!(encoded.contains("object"));
    assert!(encoded.contains("str"));
    assert!(encoded.contains("int 30"));
}

#[test]
fn test_decode_null() {
    assert!(matches!(decode("(null)"), Ok(Value::Null)));
}

#[test]
fn test_decode_bool() {
    assert!(matches!(decode("(bool true)"), Ok(Value::Bool(true))));
    assert!(matches!(decode("(bool false)"), Ok(Value::Bool(false))));
}

#[test]
fn test_decode_int() {
    assert!(matches!(decode("(int 42)"), Ok(Value::Int(42))));
}

#[test]
fn test_decode_string() {
    match decode("(str aGVsbG8=)") {
        Ok(Value::Str(x)) => assert_eq!(x, "hello"),
        _ => panic!("expected a string"),
    }
}

#[test]
fn test_roundtrip_simple() {
    let value = obj(vec![("name", s("Alice")), ("active", Value::Bool(true)), ("count", iv(42))]);
    assert!(round_trips(&value));
}

#[test]
fn test_roundtrip_nested() {
    let value = obj(vec![(
        "user",
        obj(vec![("name", s("Bob")), ("tags", Value::Array(vec![s("admin"), s("user")]))]),
    )]);
    assert!(round_trips(&value));
}

#[test]
fn test_unicode_string() {
    let text = encode(&s("Hello 世界 🌍"));
    match decode(&text) {
        Ok(Value::Str(x)) => assert_eq!(x, "Hello 世界 🌍"),
        _ => panic!("expected a string"),
    }
}

#[test]
fn test_link_escape_reference() {
    assert_eq!(Link::escape_reference("simple"), "simple");
    assert_eq!(Link::escape_reference("with space"), "'with space'");
    assert_eq!(Link::escape_reference("with:colon"), "'with:colon'");
    assert_eq!(Link::escape_reference("with(paren)"), "'with(paren)'");
}

#[test]
fn escape_reference_picks_the_absent_quote() {
    assert_eq!(Link::escape_reference("say \"hi\""), "'say \"hi\"'");
    assert_eq!(Link::escape_reference("it's"), "\"it's\"");
    assert_eq!(Link::escape_reference("a'b\"c"), "'a\\'b\"c'");
    assert_eq!(Link::escape_reference(""), "");
}

#[test]
fn link_format_shapes() {
    assert_eq!(Link::empty().format(), "()");
    assert_eq!(Link::new("id").format(), "(id)");
    let l = Link::with_values(Some("id".to_string()), vec![Link::new("a"), Link::new("b c")]);
    assert_eq!(l.format(), "(id: a 'b c')");
    let l = Link::with_values(None, vec![Link::new("x"), Link::with_values(None, vec![Link::new("y")])]);
    assert_eq!(l.format(), "(x (y))");
}

#[test]
fn parse_reads_identifiers_and_children() {
    let l = parse("(id: a 'b c' (d))").unwrap();
    assert_eq!(l.id.as_deref(), Some("id"));
    assert_eq!(l.values.len(), 3);
    assert_eq!(l.values[1].id.as_deref(), Some("b c"));
    assert_eq!(l.values[2].values.len(), 1);
    let e = parse("   ").unwrap();
    assert!(e.id.is_none() && e.values.is_empty());
}

#[test]
fn round_trip_of_edge_values() {
    let values = vec![
        Value::Null,
        Value::Bool(true),
        iv(i64::MIN),
        iv(i64::MAX),
        iv(0),
        Value::Float("-1.5e10".to_string()),
        Value::Float("NaN".to_string()),
        Value::Float("Infinity".to_string()),
        Value::Float("-Infinity".to_string()),
        s(""),
        s("line\nbreak\ttab \"quoted\" (paren) colon:"),
        s("emoji 🎉"),
        Value::Array(vec![]),
        Value::Array(vec![Value::Array(vec![iv(1)]), Value::Null]),
        obj(vec![]),
        obj(vec![("a", obj(vec![("b", Value::Array(vec![s("c")]))]))]),
    ];
    for v in &values {
        assert!(round_trips(v), "{}", encode(v));
    }
}

#[test]
fn concrete_encodings() {
    assert_eq!(encode(&Value::Null), "(null)");
    assert_eq!(encode(&Value::Bool(true)), "(bool true)");
    assert_eq!(encode(&iv(42)), "(int 42)");
    assert_eq!(encode(&s("")), "(str )");
    assert_eq!(encode(&obj(vec![("k", iv(1))])), "(object ((str aw==) (int 1)))");
    let back = decode(&encode(&Value::Array(vec![iv(1), iv(2), iv(3)]))).unwrap();
    match back {
        Value::Array(items) => {
            assert_eq!(items.len(), 3);
            assert!(matches!(items[0], Value::Int(1)));
            assert!(matches!(items[2], Value::Int(3)));
        }
        _ => panic!("expected an array"),
    }
}

#[test]
fn decode_errors() {
    assert_eq!(decode("(foo 1)").err(), Some(DecodeError::UnknownTypeMarker));
    assert_eq!(decode("(int x)").err(), Some(DecodeError::InvalidInt));
    assert_eq!(decode("(int 9223372036854775808)").err(), Some(DecodeError::InvalidInt));
    assert_eq!(decode("(float 1x)").err(), Some(DecodeError::InvalidFloat));
    assert_eq!(decode("(str ***)").err(), Some(DecodeError::InvalidBase64));
    assert_eq!(decode("(str /w==)").err(), Some(DecodeError::InvalidUtf8));
    assert_eq!(decode("(array (int 1)").err(), Some(DecodeError::UnexpectedEnd));
    assert_eq!(decode("('abc").err(), Some(DecodeError::UnterminatedString));
    assert_eq!(decode("(object (x))").err(), Some(DecodeError::MalformedEntry));
    assert_eq!(decode("(object ((int 1) (int 2)))").err(), Some(DecodeError::MalformedEntry));
    assert_eq!(decode("(:)").err(), Some(DecodeError::ExpectedIdentifier));
}

#[test]
fn decode_link_of_leaves() {
    assert!(matches!(decode_link(&Link::empty()), Ok(Value::Null)));
    match decode_link(&Link::new("word")) {
        Ok(Value::Str(x)) => assert_eq!(x, "word"),
        _ => panic!("expected a string"),
    }
    assert!(matches!(decode("(int)"), Ok(Value::Int(0))));
    assert!(matches!(decode(""), Ok(Value::Null)));
}

#[test]
fn empty_string_payload_forms() {
    match decode("(str)") {
        Ok(Value::Str(x)) => assert_eq!(x, ""),
        _ => panic!("expected an empty string"),
    }
    match decode("(str )") {
        Ok(Value::Str(x)) => assert_eq!(x, ""),
        _ => panic!("expected an empty string"),
    }
}

#[test]
fn all_whitespace_is_quoted() {
    assert_eq!(Link::escape_reference("a\u{c}b"), "'a\u{c}b'");
    assert_eq!(Link::escape_reference("a\u{b}b"), "'a\u{b}b'");
    let l = Link::with_values(None, vec![Link::new("x"), Link::new("a\u{c}b")]);
    let back = parse(&l.format()).unwrap();
    assert_eq!(back.values[1].id.as_deref(), Some("a\u{c}b"));
}

#[test]
fn distinct_parse_errors() {
    assert_eq!(decode("(str 'abc").err(), Some(DecodeError::UnterminatedString));
    assert_eq!(decode("(array (int 1)").err(), Some(DecodeError::UnexpectedEnd));
    assert_eq!(decode("(foo 1)").err(), Some(DecodeError::UnknownTypeMarker));
}

#[test]
fn quoted_leaves_parse_back() {
    let names = ["plain", "with space", "a:b", "p(q)", "say \"hi\"", "it's", "both ' and \"", "tab\there"];
    let leaves: Vec<Link> = names.iter().map(|n| Link::new(n)).collect();
    let inner = Link::with_values(None, vec![Link::new("x"), Link::new("y z")]);
    let mut children = leaves;
    children.push(inner);
    let l = Link::with_values(None, children);
    let back = parse(&l.format()).unwrap();
    assert!(back.id.is_none());
    assert_eq!(back.values.len(), names.len() + 1);
    for (i, n) in names.iter().enumerate() {
        assert_eq!(back.values[i].id.as_deref(), Some(*n));
        assert!(back.values[i].values.is_empty());
    }
    let last = &back.values[names.len()];
    assert_eq!(last.values[1].id.as_deref(), Some("y z"));
}
