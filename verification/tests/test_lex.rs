use json_parser::json::JsonNumber;
use json_parser::lex::{Lex, Token, TokenKind};

/// The float a decoded number literal denotes: the mantissa scaled by
/// ten once per exponent step, the sign applied last.
fn to_f64(n: &JsonNumber) -> f64 {
    let mut v = n.mantissa as f64;
    let mut e = n.exponent;
    while e > 0 {
        v *= 10.0;
        e -= 1;
    }
    while e < 0 {
        v /= 10.0;
        e += 1;
    }
    if n.negative {
        -v
    } else {
        v
    }
}

fn expect_number(t: &Token, start: usize, end: usize, value: f64) {
    assert_eq!((t.start, t.end), (start, end));
    match &t.kind {
        TokenKind::Number(n) => assert_eq!(to_f64(n), value),
        k => panic!("expected a number token, got {:?}", k),
    }
}

fn expect_string(t: &Token, start: usize, end: usize, value: &str) {
    assert_eq!((t.start, t.end), (start, end));
    match &t.kind {
        TokenKind::String(s) => assert_eq!(s.as_slice(), value.as_bytes()),
        k => panic!("expected a string token, got {:?}", k),
    }
}

fn expect_kind(t: &Token, start: usize, end: usize, kind: &TokenKind) {
    assert_eq!((t.start, t.end), (start, end));
    assert_eq!(
        std::mem::discriminant(&t.kind),
        std::mem::discriminant(kind),
        "token kind mismatch: {:?}",
        t.kind
    );
    if let (TokenKind::Bool(a), TokenKind::Bool(b)) = (&t.kind, kind) {
        assert_eq!(a, b);
    }
}

fn expect_end(t: &Token, len: usize) {
    assert_eq!((t.start, t.end), (len, len));
    assert!(matches!(t.kind, TokenKind::End));
}

#[test]
fn test_simple() {
    let json = r#"-3.12e-10 [-4559,12.66,"string",[]] true false null {}"#;
    let mut lexer = Lex::new(json.as_bytes());
    expect_number(&lexer.next(), 0, 9, -3.12e-10);
    expect_kind(&lexer.next(), 10, 11, &TokenKind::LeftBracket);
    expect_number(&lexer.next(), 11, 16, -4559.0);
    expect_kind(&lexer.next(), 16, 17, &TokenKind::Comma);
    expect_number(&lexer.next(), 17, 22, 12.66);
    expect_kind(&lexer.next(), 22, 23, &TokenKind::Comma);
    expect_string(&lexer.next(), 23, 31, "string");
    expect_kind(&lexer.next(), 31, 32, &TokenKind::Comma);
    expect_kind(&lexer.next(), 32, 33, &TokenKind::LeftBracket);
    expect_kind(&lexer.next(), 33, 34, &TokenKind::RightBracket);
    expect_kind(&lexer.next(), 34, 35, &TokenKind::RightBracket);
    expect_kind(&lexer.next(), 36, 40, &TokenKind::Bool(true));
    expect_kind(&lexer.next(), 41, 46, &TokenKind::Bool(false));
    expect_kind(&lexer.next(), 47, 51, &TokenKind::Null);
    expect_kind(&lexer.next(), 52, 53, &TokenKind::LeftBrace);
    expect_kind(&lexer.next(), 53, 54, &TokenKind::RightBrace);
    expect_end(&lexer.next(), json.len());
}

#[test]
fn test1() {
    let json = r#"{ "integer": 565, "string": "test string", "bool":true, "lie":false }"#;
    let mut lexer = Lex::new(json.as_bytes());
    expect_kind(&lexer.next(), 0, 1, &TokenKind::LeftBrace);
    expect_string(&lexer.next(), 2, 11, "integer");
    expect_kind(&lexer.next(), 11, 12, &TokenKind::Colon);
    expect_number(&lexer.next(), 13, 16, 565.0);
    expect_kind(&lexer.next(), 16, 17, &TokenKind::Comma);
    expect_string(&lexer.next(), 18, 26, "string");
    expect_kind(&lexer.next(), 26, 27, &TokenKind::Colon);
    expect_string(&lexer.next(), 28, 41, "test string");
    expect_kind(&lexer.next(), 41, 42, &TokenKind::Comma);
    expect_string(&lexer.next(), 43, 49, "bool");
    expect_kind(&lexer.next(), 49, 50, &TokenKind::Colon);
    expect_kind(&lexer.next(), 50, 54, &TokenKind::Bool(true));
    expect_kind(&lexer.next(), 54, 55, &TokenKind::Comma);
    expect_string(&lexer.next(), 56, 61, "lie");
    expect_kind(&lexer.next(), 61, 62, &TokenKind::Colon);
    expect_kind(&lexer.next(), 62, 67, &TokenKind::Bool(false));
    expect_kind(&lexer.next(), 68, 69, &TokenKind::RightBrace);
    expect_end(&lexer.next(), json.len());
}

#[test]
fn test2() {
    let json = r#"{ "float": -64.452672, "exp":10.3e10 "car":null, "object": { "name":"object" } }"#;
    let mut lexer = Lex::new(json.as_bytes());
    expect_kind(&lexer.next(), 0, 1, &TokenKind::LeftBrace);
    expect_string(&lexer.next(), 2, 9, "float");
    expect_kind(&lexer.next(), 9, 10, &TokenKind::Colon);
    expect_number(&lexer.next(), 11, 21, -64.452672);
    expect_kind(&lexer.next(), 21, 22, &TokenKind::Comma);
    expect_string(&lexer.next(), 23, 28, "exp");
    expect_kind(&lexer.next(), 28, 29, &TokenKind::Colon);
    expect_number(&lexer.next(), 29, 36, 10.3e10);
    expect_string(&lexer.next(), 37, 42, "car");
    expect_kind(&lexer.next(), 42, 43, &TokenKind::Colon);
    expect_kind(&lexer.next(), 43, 47, &TokenKind::Null);
    expect_kind(&lexer.next(), 47, 48, &TokenKind::Comma);
    expect_string(&lexer.next(), 49, 57, "object");
    expect_kind(&lexer.next(), 57, 58, &TokenKind::Colon);
    expect_kind(&lexer.next(), 59, 60, &TokenKind::LeftBrace);
    expect_string(&lexer.next(), 61, 67, "name");
    expect_kind(&lexer.next(), 67, 68, &TokenKind::Colon);
    expect_string(&lexer.next(), 68, 76, "object");
    expect_kind(&lexer.next(), 77, 78, &TokenKind::RightBrace);
    expect_kind(&lexer.next(), 79, 80, &TokenKind::RightBrace);
    expect_end(&lexer.next(), json.len());
}

#[test]
fn test_lex_test_array() {
    let json = r#"{ "array" : [["anna",170,62],["matthew",182,84]] }"#;
    let mut lexer = Lex::new(json.as_bytes());
    expect_kind(&lexer.next(), 0, 1, &TokenKind::LeftBrace);
    expect_string(&lexer.next(), 2, 9, "array");
    expect_kind(&lexer.next(), 10, 11, &TokenKind::Colon);
    expect_kind(&lexer.next(), 12, 13, &TokenKind::LeftBracket);
    expect_kind(&lexer.next(), 13, 14, &TokenKind::LeftBracket);
    expect_string(&lexer.next(), 14, 20, "anna");
    expect_kind(&lexer.next(), 20, 21, &TokenKind::Comma);
    expect_number(&lexer.next(), 21, 24, 170.0);
    expect_kind(&lexer.next(), 24, 25, &TokenKind::Comma);
    expect_number(&lexer.next(), 25, 27, 62.0);
    expect_kind(&lexer.next(), 27, 28, &TokenKind::RightBracket);
    expect_kind(&lexer.next(), 28, 29, &TokenKind::Comma);
    expect_kind(&lexer.next(), 29, 30, &TokenKind::LeftBracket);
    expect_string(&lexer.next(), 30, 39, "matthew");
    expect_kind(&lexer.next(), 39, 40, &TokenKind::Comma);
    expect_number(&lexer.next(), 40, 43, 182.0);
    expect_kind(&lexer.next(), 43, 44, &TokenKind::Comma);
    expect_number(&lexer.next(), 44, 46, 84.0);
    expect_kind(&lexer.next(), 46, 47, &TokenKind::RightBracket);
    expect_kind(&lexer.next(), 47, 48, &TokenKind::RightBracket);
    expect_kind(&lexer.next(), 49, 50, &TokenKind::RightBrace);
    expect_end(&lexer.next(), json.len());
}

#[test]
fn test_special_chars() {
    let json = "\"\u{0041}\u{0042}\u{0043}\u{0044}\"";
    let mut lexer = Lex::new(json.as_bytes());
    expect_string(&lexer.next(), 0, 6, "ABCD");

    let json = "\"\u{00B6}\u{03B1}\"";
    let mut lexer = Lex::new(json.as_bytes());
    expect_string(&lexer.next(), 0, 6, "\u{00B6}\u{03B1}");
}

#[test]
fn end_token_repeats() {
    let json = "true ";
    let mut lexer = Lex::new(json.as_bytes());
    expect_kind(&lexer.next(), 0, 4, &TokenKind::Bool(true));
    expect_end(&lexer.next(), json.len());
    expect_end(&lexer.next(), json.len());
    expect_end(&lexer.next(), json.len());
}

#[test]
fn whitespace_forms() {
    let json = "\r\n\t null \r";
    let mut lexer = Lex::new(json.as_bytes());
    expect_kind(&lexer.next(), 4, 8, &TokenKind::Null);
    expect_end(&lexer.next(), json.len());
}
