use json_parser::json::{JsonNumber, JsonValue};
use json_parser::lex::TokenKind;
use json_parser::parse_error::{ParseError, ParseErrorKind};
use json_parser::parser::JsonParser;

/// The float a decoded number literal denotes.
fn to_f64(n: &JsonNumber) -> f64 {
    let mut v = n.mantissa as f64;
    let mut e = n.exponent;
    while e > 0 {
        v *= 10.0;
        e -= 1;
    }
    while e < 0 {
        v /= 10.0;
        e += 1;
    }
    if n.negative {
        -v
    } else {
        v
    }
}

/// Structural equality of value trees: objects compare as maps,
/// numbers by the float they denote.
fn eq_val(a: &JsonValue, b: &JsonValue) -> bool {
    match (a, b) {
        (JsonValue::JsonObject(x), JsonValue::JsonObject(y)) => {
            x.len() == y.len()
                && x.iter().all(|(k, v)| {
                    y.iter()
                        .find(|(k2, _)| k2 == k)
                        .map_or(false, |(_, v2)| eq_val(v, v2))
                })
        }
        (JsonValue::JsonArray(x), JsonValue::JsonArray(y)) => {
            x.len() == y.len() && x.iter().zip(y.iter()).all(|(u, w)| eq_val(u, w))
        }
        (JsonValue::JsonNumber(x), JsonValue::JsonNumber(y)) => to_f64(x) == to_f64(y),
        (JsonValue::JsonString(x), JsonValue::JsonString(y)) => x == y,
        (JsonValue::JsonBool(x), JsonValue::JsonBool(y)) => x == y,
        (JsonValue::Null, JsonValue::Null) => true,
        _ => false,
    }
}

fn parse(source: &str) -> JsonValue {
    JsonParser::new(source.as_bytes()).parse().unwrap()
}

fn parse_err(source: &str) -> ParseError {
    JsonParser::new(source.as_bytes()).parse().unwrap_err()
}

/// Renders a value tree back to JSON text; an external collaborator
/// standing in for a real serializer.  Numbers come out in decoded
/// `<mantissa>e<exponent>` form, so they denote the same float again.
fn serialize(v: &JsonValue) -> Vec<u8> {
    let mut out: Vec<u8> = Vec::new();
    write_value(v, &mut out);
    out
}

fn write_value(v: &JsonValue, out: &mut Vec<u8>) {
    match v {
        JsonValue::Null => out.extend_from_slice(b"null"),
        JsonValue::JsonBool(true) => out.extend_from_slice(b"true"),
        JsonValue::JsonBool(false) => out.extend_from_slice(b"false"),
        JsonValue::JsonNumber(n) => {
            if n.negative {
                out.push(b'-');
            }
            out.extend_from_slice(n.mantissa.to_string().as_bytes());
            out.push(b'e');
            out.extend_from_slice(n.exponent.to_string().as_bytes());
        }
        JsonValue::JsonString(s) => write_string(s, out),
        JsonValue::JsonArray(elems) => {
            out.push(b'[');
            for (i, e) in elems.iter().enumerate() {
                if i > 0 {
                    out.push(b',');
                }
                write_value(e, out);
            }
            out.push(b']');
        }
        JsonValue::JsonObject(members) => {
            out.push(b'{');
            for (i, (k, v)) in members.iter().enumerate() {
                if i > 0 {
                    out.push(b',');
                }
                write_string(k, out);
                out.push(b':');
                write_value(v, out);
            }
            out.push(b'}');
        }
    }
}

fn write_string(s: &[u8], out: &mut Vec<u8>) {
    out.push(b'"');
    for &b in s {
        match b {
            b'"' => out.extend_from_slice(b"\\\""),
            b'\\' => out.extend_from_slice(b"\\\\"),
            0x08 => out.extend_from_slice(b"\\b"),
            0x0c => out.extend_from_slice(b"\\f"),
            b'\n' => out.extend_from_slice(b"\\n"),
            b'\r' => out.extend_from_slice(b"\\r"),
            b'\t' => out.extend_from_slice(b"\\t"),
            b if b < 0x20 => {
                out.extend_from_slice(format!("\\u{:04x}", b).as_bytes());
            }
            b => out.push(b),
        }
    }
    out.push(b'"');
}

#[test]
fn scalar_literals() {
    match parse("-3.12e-10") {
        JsonValue::JsonNumber(n) => {
            assert_eq!(to_f64(&n), -3.12e-10);
            assert!(n.negative);
            assert_eq!(n.mantissa, 312);
            assert_eq!(n.exponent, -12);
        }
        v => panic!("expected a number, got {:?}", v),
    }
    assert!(matches!(parse("true"), JsonValue::JsonBool(true)));
    assert!(matches!(parse("false"), JsonValue::JsonBool(false)));
    assert!(matches!(parse("null"), JsonValue::Null));
}

#[test]
fn empty_objects_equal() {
    let a = parse("{}");
    let b = parse(" { } ");
    let c = parse("{\n}\t");
    assert!(eq_val(&a, &b));
    assert!(eq_val(&b, &c));
    assert!(eq_val(&a, &c));
    assert!(matches!(&a, JsonValue::JsonObject(m) if m.is_empty()));
}

#[test]
fn duplicate_key_last_write_wins() {
    let v = parse(r#"{"a":1,"a":2}"#);
    let o = v.get_object_ref().unwrap();
    assert_eq!(o.lenght(), 1);
    let n = o.get_number(b"a").unwrap().unwrap();
    assert_eq!(to_f64(&n), 2.0);
}

#[test]
fn nested_arrays_structural() {
    let v = parse("[[1,2],[3,4]]");
    fn num(m: u64) -> JsonValue {
        JsonValue::JsonNumber(JsonNumber { negative: false, mantissa: m, exponent: 0 })
    }
    let expected = JsonValue::JsonArray(vec![
        JsonValue::JsonArray(vec![num(1), num(2)]),
        JsonValue::JsonArray(vec![num(3), num(4)]),
    ]);
    assert!(eq_val(&v, &expected));
}

#[test]
fn surrogate_pairs() {
    let v = parse(r#""\uD83D\uDE00""#);
    match &v {
        JsonValue::JsonString(s) => assert_eq!(s.as_slice(), "\u{1F600}".as_bytes()),
        v => panic!("expected a string, got {:?}", v),
    }

    let v = parse(r#""\uD800""#);
    match &v {
        JsonValue::JsonString(s) => assert_eq!(s.as_slice(), "\u{FFFD}".as_bytes()),
        v => panic!("expected a string, got {:?}", v),
    }

    let v = parse(r#""\uDC00""#);
    match &v {
        JsonValue::JsonString(s) => assert_eq!(s.as_slice(), "\u{FFFD}".as_bytes()),
        v => panic!("expected a string, got {:?}", v),
    }
}

#[test]
fn trailing_token_is_an_error() {
    let e = parse_err("5 6");
    assert_eq!(e.kind, ParseErrorKind::UnexpectedToken);
    assert_eq!((e.token.start, e.token.end), (2, 3));
    match &e.token.kind {
        TokenKind::Number(n) => assert_eq!(to_f64(n), 6.0),
        k => panic!("expected the second number token, got {:?}", k),
    }
}

#[test]
fn wrong_variant_getter_names_the_value() {
    let v = JsonValue::JsonNumber(JsonNumber { negative: false, mantissa: 5, exponent: 0 });
    let e = v.get_string_ref().unwrap_err();
    assert_eq!(e.value.desc(), "JsonNumber");
    assert_eq!(e.description(), "Invalid json value type");
    assert!(v.is_number());
    assert!(!v.is_string());
}

#[test]
fn unterminated_string_spans_the_remainder() {
    let source = "{\"a\": \"b";
    let e = parse_err(source);
    assert_eq!(e.kind, ParseErrorKind::UnexpectedToken);
    assert!(matches!(e.token.kind, TokenKind::Error));
    assert_eq!((e.start(), e.end()), (6, source.len()));
}

#[test]
fn round_trip_documents() {
    let sources = [
        r#"-3.12e-10"#,
        r#""test \"string\"\n with ¶ escapes""#,
        r#"[1, 2.5, [true, null], {"k": "v"}, "😀"]"#,
        r#"{"a": {"b": {"c": [0, -1, 1e10]}}, "d": false}"#,
        r#"{}"#,
        r#"[]"#,
    ];
    for source in sources {
        let first = JsonParser::new(source.as_bytes()).parse().unwrap();
        let text = serialize(&first);
        let second = JsonParser::new(&text).parse().unwrap();
        assert!(eq_val(&first, &second), "round trip changed {}", source);
    }
}

#[test]
fn nesting_depth_guard() {
    let source = "[".repeat(501);
    let e = JsonParser::new(source.as_bytes()).parse().unwrap_err();
    assert_eq!(e.kind, ParseErrorKind::NestingTooDeep);
    assert!(matches!(e.token.kind, TokenKind::LeftBracket));

    let source = format!("{}{}", "[".repeat(400), "]".repeat(400));
    assert!(JsonParser::new(source.as_bytes()).parse().is_ok());
}

#[test]
fn malformed_numbers_and_keywords() {
    let e = parse_err("5.");
    assert!(matches!(e.token.kind, TokenKind::Error));

    let e = parse_err("1e");
    assert!(matches!(e.token.kind, TokenKind::Error));

    let e = parse_err("nul");
    assert!(matches!(e.token.kind, TokenKind::Error));

    let e = parse_err("truth");
    assert_eq!(e.kind, ParseErrorKind::UnexpectedToken);

    // A leading zero ends the integer part: the digit after it is a
    // second, trailing token.
    let e = parse_err("01");
    assert_eq!(e.kind, ParseErrorKind::UnexpectedToken);
    assert_eq!((e.token.start, e.token.end), (1, 2));

    let e = parse_err("");
    assert!(matches!(e.token.kind, TokenKind::End));

    let e = parse_err("[1,]");
    assert_eq!(e.kind, ParseErrorKind::UnexpectedToken);

    let e = parse_err(r#"{"a" 1}"#);
    assert_eq!(e.kind, ParseErrorKind::UnexpectedToken);
}

#[test]
fn mantissa_saturates() {
    // One digit more than u64 can hold.
    let v = parse("18446744073709551616");
    match v {
        JsonValue::JsonNumber(n) => assert_eq!(n.mantissa, u64::MAX),
        v => panic!("expected a number, got {:?}", v),
    }
}

#[test]
fn object_views() {
    let v = parse(r#"{"a": {"x": 1}, "arr": [true, null, "s", 2], "flag": true, "s": "hi", "n": 5, "z": null}"#);
    let o = v.get_object_ref().unwrap();
    assert_eq!(o.lenght(), 6);
    assert!(o.contains_key(b"arr"));
    assert!(!o.contains_key(b"missing"));
    assert!(o.is_null(b"z"));
    assert!(o.is_null(b"missing"));
    assert!(!o.is_null(b"flag"));
    assert_eq!(o.get_bool(b"flag").unwrap(), Some(true));
    assert_eq!(o.get_bool(b"missing").unwrap(), None);
    assert_eq!(to_f64(&o.get_number(b"n").unwrap().unwrap()), 5.0);
    assert_eq!(o.get_string_ref(b"s").unwrap().unwrap().as_slice(), b"hi");
    assert!(o.get_number(b"s").is_err());

    let inner = o.get_object_ref(b"a").unwrap().unwrap();
    assert_eq!(to_f64(&inner.get_number(b"x").unwrap().unwrap()), 1.0);

    let arr = o.get_array_ref(b"arr").unwrap().unwrap();
    assert_eq!(arr.lenght(), 4);
    assert_eq!(arr.get_bool(0).unwrap(), Some(true));
    assert!(arr.is_null(1));
    assert!(arr.is_null(99));
    assert_eq!(arr.get_string_ref(2).unwrap().unwrap().as_slice(), b"s");
    assert_eq!(to_f64(&arr.get_number(3).unwrap().unwrap()), 2.0);
    assert_eq!(arr.get_bool(99).unwrap(), None);
    assert!(arr.get_number(0).is_err());
}

#[test]
fn mutable_views_update_in_place() {
    let mut v = parse(r#"{"flag": true, "n": 5, "arr": [1, 2]}"#);
    {
        let mut o = v.get_object_mut().unwrap();
        let b = o.get_bool_mut(b"flag").unwrap().unwrap();
        *b = false;
    }
    {
        let mut o = v.get_object_mut().unwrap();
        let n = o.get_number_mut(b"n").unwrap().unwrap();
        n.mantissa = 7;
    }
    {
        let mut o = v.get_object_mut().unwrap();
        let mut a = o.get_array_mut(b"arr").unwrap().unwrap();
        let first = a.get_number_mut(0).unwrap().unwrap();
        first.negative = true;
    }
    let o = v.get_object_ref().unwrap();
    assert_eq!(o.get_bool(b"flag").unwrap(), Some(false));
    assert_eq!(to_f64(&o.get_number(b"n").unwrap().unwrap()), 7.0);
    let a = o.get_array_ref(b"arr").unwrap().unwrap();
    assert_eq!(to_f64(&a.get_number(0).unwrap().unwrap()), -1.0);
    assert_eq!(to_f64(&a.get_number(1).unwrap().unwrap()), 2.0);

    let mut v = parse(r#""abc""#);
    {
        let s = v.get_string_mut().unwrap();
        s.push(b'!');
    }
    assert_eq!(v.get_string_ref().unwrap().as_slice(), b"abc!");
}

#[test]
fn invalid_escape_bytes_pass_through() {
    // An unknown escape is not an escape: the backslash is copied.
    let v = parse(r#""a\x""#);
    match &v {
        JsonValue::JsonString(s) => assert_eq!(s.as_slice(), b"a\\x"),
        v => panic!("expected a string, got {:?}", v),
    }
}
