use simple_json::Json;
use simple_json::Number;

/// The narrowing conversion to an unsigned host integer.
fn lib_u64(n: &Number) -> u64 {
    match n {
        Number::Unsigned(v) => *v,
        Number::Integer(v) => *v as u64,
        Number::Float(t) => t.parse::<f64>().unwrap() as u64,
    }
}

/// The narrowing conversion to a signed host integer.
fn lib_i64(n: &Number) -> i64 {
    match n {
        Number::Unsigned(v) => *v as i64,
        Number::Integer(v) => *v,
        Number::Float(t) => t.parse::<f64>().unwrap() as i64,
    }
}

/// The conversion to a host float.
fn lib_f64(n: &Number) -> f64 {
    match n {
        Number::Unsigned(v) => *v as f64,
        Number::Integer(v) => *v as f64,
        Number::Float(t) => t.parse::<f64>().unwrap(),
    }
}

#[test]
fn lib_valid_null() {
    let json = Json::parse("null").unwrap();
    assert_eq!(json.as_null(), ());
}

#[test]
fn lib_valid_bool() {
    let json = Json::parse("false").unwrap();
    assert_eq!(json.as_bool(), false);

    let json = Json::parse("true").unwrap();
    assert_eq!(json.as_bool(), true);
}

#[test]
fn lib_valid_integer_number() {
    assert_eq!(lib_i64(Json::parse("0").unwrap().as_number()), 0);
    assert_eq!(lib_i64(Json::parse("1").unwrap().as_number()), 1);
    assert_eq!(lib_i64(Json::parse("20").unwrap().as_number()), 20);
    assert_eq!(lib_i64(Json::parse("21").unwrap().as_number()), 21);

    assert_eq!(lib_i64(Json::parse("-0").unwrap().as_number()), 0);
    assert_eq!(lib_i64(Json::parse("-1").unwrap().as_number()), -1);
    assert_eq!(lib_i64(Json::parse("-20").unwrap().as_number()), -20);
    assert_eq!(lib_i64(Json::parse("-21").unwrap().as_number()), -21);
}

#[test]
fn lib_valid_float_number() {
    assert_eq!(lib_f64(Json::parse("0.0").unwrap().as_number()), 0.);
    assert_eq!(lib_f64(Json::parse("1.1").unwrap().as_number()), 1.1);
    assert_eq!(lib_f64(Json::parse("20.01").unwrap().as_number()), 20.01);
    assert_eq!(lib_f64(Json::parse("21.12").unwrap().as_number()), 21.12);

    assert_eq!(lib_f64(Json::parse("-0.0").unwrap().as_number()), -0.0);
    assert_eq!(lib_f64(Json::parse("-1.1").unwrap().as_number()), -1.1);
    assert_eq!(lib_f64(Json::parse("-20.01").unwrap().as_number()), -20.01);
    assert_eq!(lib_f64(Json::parse("-21.12").unwrap().as_number()), -21.12);

    assert_eq!(lib_f64(Json::parse("34").unwrap().as_number()), 34.);
    assert_eq!(lib_f64(Json::parse("-56").unwrap().as_number()), -56.);
}

#[test]
fn lib_valid_exponent_number() {
    assert_eq!(lib_f64(Json::parse("0e0").unwrap().as_number()), 0.0e0);
    assert_eq!(lib_f64(Json::parse("1e1").unwrap().as_number()), 1.0e1);
    assert_eq!(lib_f64(Json::parse("20.01e10").unwrap().as_number()), 20.01e10);
    assert_eq!(lib_f64(Json::parse("21.12e2").unwrap().as_number()), 21.12e2);

    assert_eq!(lib_f64(Json::parse("-0e0").unwrap().as_number()), 0.0e0);
    assert_eq!(lib_f64(Json::parse("-1e1").unwrap().as_number()), -1.0e1);
    assert_eq!(lib_f64(Json::parse("-20.01e10").unwrap().as_number()), -20.01e10);
    assert_eq!(lib_f64(Json::parse("-21.12e2").unwrap().as_number()), -21.12e2);

    assert_eq!(lib_f64(Json::parse("34").unwrap().as_number()), 3.4e1);
    assert_eq!(lib_f64(Json::parse("-56").unwrap().as_number()), -5.6e1);
}

#[test]
fn lib_valid_string() {
    assert_eq!(Json::parse("\"\"").unwrap().as_string(), "");

    assert_eq!(
        Json::parse("\"This is a normal ASCII string.\"").unwrap().as_string(),
        "This is a normal ASCII string."
    );

    assert_eq!(
        Json::parse("\"I can also use unicode: ٩(-̮̮̃-̃)۶ ٩(●̮̮̃•̃)۶ ٩(͡๏̯͡๏)۶ ٩(-̮̮̃•̃).\"")
            .unwrap()
            .as_string(),
        "I can also use unicode: ٩(-̮̮̃-̃)۶ ٩(●̮̮̃•̃)۶ ٩(͡๏̯͡๏)۶ ٩(-̮̮̃•̃)."
    );

    assert_eq!(
        Json::parse("\"I can escape some things, like \\\"\\\\\\/\\b\\f\\n\\r\\t!\"")
            .unwrap()
            .as_string(),
        "I can escape some things, like \"\\/\u{0008}\u{000C}\n\r\t!"
    );

    assert_eq!(
        Json::parse("\"I can even escape unicode: \\u3042.\"").unwrap().as_string(),
        "I can even escape unicode: あ."
    );
}

#[test]
fn lib_valid_array() {
    let json = Json::parse("[]");
    assert_eq!(json, Ok(Json::Array(vec![])));

    let json = Json::parse("[1,2.0,\"String\",[],{}]");
    assert_eq!(
        json,
        Ok(Json::Array(vec![
            Json::Number(Number::Unsigned(1)),
            Json::Number(Number::Float(String::from("2.0"))),
            Json::String(String::from("String")),
            Json::Array(vec![]),
            Json::Object(vec![]),
        ]))
    );
}

#[test]
fn lib_valid_object() {
    let json = Json::parse("{}");
    assert_eq!(json, Ok(Json::Object(vec![])));

    let json = Json::parse("{\"i\":1,\"f\":2.0,\"s\":\"String\",\"a\":[],\"o\":{}}");
    assert_eq!(
        json,
        Ok(Json::Object(vec![
            (String::from("i"), Json::Number(Number::Unsigned(1))),
            (String::from("f"), Json::Number(Number::Float(String::from("2.0")))),
            (String::from("s"), Json::String(String::from("String"))),
            (String::from("a"), Json::Array(vec![])),
            (String::from("o"), Json::Object(vec![])),
        ]))
    );
}

#[test]
fn lib_json_to_number() {
    assert_eq!(lib_u64(Json::parse("1").unwrap().as_number()), 1);
    assert_eq!(lib_u64(Json::parse("-2").unwrap().as_number()), (-2 as i64) as u64);
    assert_eq!(lib_u64(Json::parse("3.4").unwrap().as_number()), 3);

    assert_eq!(lib_i64(Json::parse("5").unwrap().as_number()), 5);
    assert_eq!(lib_i64(Json::parse("-6").unwrap().as_number()), -6);
    assert_eq!(lib_i64(Json::parse("7.8").unwrap().as_number()), 7);

    assert_eq!(lib_f64(Json::parse("9").unwrap().as_number()), 9.);
    assert_eq!(lib_f64(Json::parse("-1").unwrap().as_number()), -1.);
    assert_eq!(lib_f64(Json::parse("0.2").unwrap().as_number()), 0.2);
}
