use json_parser::json::{JsonNumber, JsonValue};
use json_parser::parser::JsonParser;

/// The float a decoded number literal denotes.
fn to_f64(n: &JsonNumber) -> f64 {
    let mut v = n.mantissa as f64;
    let mut e = n.exponent;
    while e > 0 {
        v *= 10.0;
        e -= 1;
    }
    while e < 0 {
        v /= 10.0;
        e += 1;
    }
    if n.negative {
        -v
    } else {
        v
    }
}

/// Structural equality of value trees: objects compare as key/value
/// maps regardless of member order, numbers by the float they denote.
fn eq_val(a: &JsonValue, b: &JsonValue) -> bool {
    match (a, b) {
        (JsonValue::JsonObject(x), JsonValue::JsonObject(y)) => {
            x.len() == y.len()
                && x.iter().all(|(k, v)| {
                    y.iter()
                        .find(|(k2, _)| k2 == k)
                        .map_or(false, |(_, v2)| eq_val(v, v2))
                })
        }
        (JsonValue::JsonArray(x), JsonValue::JsonArray(y)) => {
            x.len() == y.len() && x.iter().zip(y.iter()).all(|(u, w)| eq_val(u, w))
        }
        (JsonValue::JsonNumber(x), JsonValue::JsonNumber(y)) => to_f64(x) == to_f64(y),
        (JsonValue::JsonString(x), JsonValue::JsonString(y)) => x == y,
        (JsonValue::JsonBool(x), JsonValue::JsonBool(y)) => x == y,
        (JsonValue::Null, JsonValue::Null) => true,
        _ => false,
    }
}

fn parse(source: &str) -> JsonValue {
    let mut parser = JsonParser::new(source.as_bytes());
    parser.parse().unwrap()
}

/// A number value from its decoded literal parts.
fn num(negative: bool, mantissa: u64, exponent: i64) -> JsonValue {
    JsonValue::JsonNumber(JsonNumber { negative, mantissa, exponent })
}

fn string(s: &str) -> JsonValue {
    JsonValue::JsonString(s.as_bytes().to_vec())
}

fn arr(elems: Vec<JsonValue>) -> JsonValue {
    JsonValue::JsonArray(elems)
}

fn obj(members: Vec<(&str, JsonValue)>) -> JsonValue {
    JsonValue::JsonObject(
        members
            .into_iter()
            .map(|(k, v)| (k.as_bytes().to_vec(), v))
            .collect(),
    )
}

#[test]
fn test_syntax_simple() {
    let json = parse(r#"-3.12e-10 "#);
    match &json {
        JsonValue::JsonNumber(n) => assert_eq!(to_f64(n), -3.12e-10),
        v => panic!("expected a number, got {:?}", v),
    }

    let json = parse(r#" "test string" "#);
    assert!(eq_val(&json, &string("test string")));

    let json = parse(r#" true "#);
    assert!(eq_val(&json, &JsonValue::JsonBool(true)));

    let json = parse(r#" false "#);
    assert!(eq_val(&json, &JsonValue::JsonBool(false)));

    let json = parse(r#" null "#);
    assert!(eq_val(&json, &JsonValue::Null));

    let json = parse(r#" [] "#);
    assert!(eq_val(&json, &arr(vec![])));

    let json = parse(r#" [5] "#);
    assert!(eq_val(&json, &arr(vec![num(false, 5, 0)])));

    let json = parse(r#" [5,2.1,[],10] "#);
    assert!(eq_val(
        &json,
        &arr(vec![
            num(false, 5, 0),
            num(false, 21, -1),
            arr(vec![]),
            num(false, 10, 0),
        ])
    ));

    let json = parse(r#" {} "#);
    assert!(eq_val(&json, &obj(vec![])));

    let json = parse(r#" {"name" : "Alex", "age" : 22, "marks" : [10,8,9] } "#);
    let expected = obj(vec![
        ("name", string("Alex")),
        ("age", num(false, 22, 0)),
        (
            "marks",
            arr(vec![num(false, 10, 0), num(false, 8, 0), num(false, 9, 0)]),
        ),
    ]);
    assert!(eq_val(&json, &expected));
}

#[test]
fn test_syntax_test_array() {
    let source = r#" [{"number" : 123456, "object" : null, "valid" : false}, true, [1,2,3], "hello" ] "#;
    let json = parse(source);
    let expected = arr(vec![
        obj(vec![
            ("number", num(false, 123456, 0)),
            ("object", JsonValue::Null),
            ("valid", JsonValue::JsonBool(false)),
        ]),
        JsonValue::JsonBool(true),
        arr(vec![num(false, 1, 0), num(false, 2, 0), num(false, 3, 0)]),
        string("hello"),
    ]);
    assert!(eq_val(&json, &expected));

    let source = r#" [ "hello", false, null, -3.12e-10, [["A",true,null],["B",false,{"int" : 7}]]  ] "#;
    let json = parse(source);
    let array_a = arr(vec![string("A"), JsonValue::JsonBool(true), JsonValue::Null]);
    let array_b = arr(vec![
        string("B"),
        JsonValue::JsonBool(false),
        obj(vec![("int", num(false, 7, 0))]),
    ]);
    let expected = arr(vec![
        string("hello"),
        JsonValue::JsonBool(false),
        JsonValue::Null,
        num(true, 312, -12),
        arr(vec![array_a, array_b]),
    ]);
    assert!(eq_val(&json, &expected));
}

#[test]
fn test_object() {
    let source = r#" { "object" :
    {
    "int" : 5,
    "poem" : "He's there, the Phantom of the Opera",
    "subobject" :
        {
        "array" : ["false", 55.33, null, [], true],
        "bool" : false,
        "subsubobject" : {},
        "random number" : 4
        },
    "vector" : [1,2,3]
    }
    } "#;

    let json = parse(source);

    let subobject = obj(vec![
        (
            "array",
            arr(vec![
                string("false"),
                num(false, 5533, -2),
                JsonValue::Null,
                arr(vec![]),
                JsonValue::JsonBool(true),
            ]),
        ),
        ("bool", JsonValue::JsonBool(false)),
        ("subsubobject", obj(vec![])),
        ("random number", num(false, 4, 0)),
    ]);
    let object = obj(vec![
        ("int", num(false, 5, 0)),
        ("poem", string("He's there, the Phantom of the Opera")),
        ("subobject", subobject),
        ("vector", arr(vec![num(false, 1, 0), num(false, 2, 0), num(false, 3, 0)])),
    ]);
    let expected = obj(vec![("object", object)]);

    assert!(eq_val(&json, &expected));
}
