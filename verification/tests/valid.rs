use simple_json::Json;
use simple_json::Number;

/// The narrowing conversion to a signed host integer.
fn num_i64(n: &Number) -> i64 {
    match n {
        Number::Unsigned(v) => *v as i64,
        Number::Integer(v) => *v,
        Number::Float(t) => t.parse::<f64>().unwrap() as i64,
    }
}

/// The conversion to a host float.
fn num_f64(n: &Number) -> f64 {
    match n {
        Number::Unsigned(v) => *v as f64,
        Number::Integer(v) => *v as f64,
        Number::Float(t) => t.parse::<f64>().unwrap(),
    }
}

#[test]
fn valid_valid_null() {
    let json = Json::parse("null").unwrap();
    assert_eq!(json.as_null(), ());
}

#[test]
fn valid_valid_bool() {
    let json = Json::parse("false").unwrap();
    assert_eq!(json.as_bool(), false);
    let json = Json::parse("true").unwrap();
    assert_eq!(json.as_bool(), true);
}

#[test]
fn valid_valid_integer_number() {
    assert_eq!(num_i64(Json::parse("0").unwrap().as_number()), 0);
    assert_eq!(num_i64(Json::parse("1").unwrap().as_number()), 1);
    assert_eq!(num_i64(Json::parse("20").unwrap().as_number()), 20);
    assert_eq!(num_i64(Json::parse("21").unwrap().as_number()), 21);

    assert_eq!(num_i64(Json::parse("-0").unwrap().as_number()), 0);
    assert_eq!(num_i64(Json::parse("-1").unwrap().as_number()), -1);
    assert_eq!(num_i64(Json::parse("-20").unwrap().as_number()), -20);
    assert_eq!(num_i64(Json::parse("-21").unwrap().as_number()), -21);
}

#[test]
fn valid_valid_float_number() {
    assert_eq!(num_f64(Json::parse("0.0").unwrap().as_number()), 0.);
    assert_eq!(num_f64(Json::parse("1.1").unwrap().as_number()), 1.1);
    assert_eq!(num_f64(Json::parse("20.01").unwrap().as_number()), 20.01);
    assert_eq!(num_f64(Json::parse("21.12").unwrap().as_number()), 21.12);

    assert_eq!(num_f64(Json::parse("-0.0").unwrap().as_number()), 0.);
    assert_eq!(num_f64(Json::parse("-1.1").unwrap().as_number()), -1.1);
    assert_eq!(num_f64(Json::parse("-20.01").unwrap().as_number()), -20.01);
    assert_eq!(num_f64(Json::parse("-21.12").unwrap().as_number()), -21.12);
}

#[test]
fn valid_valid_exponent_number() {
    assert_eq!(num_f64(Json::parse("0e0").unwrap().as_number()), 0.0e0);
    assert_eq!(num_f64(Json::parse("1e1").unwrap().as_number()), 1.0e1);
    assert_eq!(num_f64(Json::parse("20.01e10").unwrap().as_number()), 20.01e10);
    assert_eq!(num_f64(Json::parse("21.12e2").unwrap().as_number()), 21.12e2);

    assert_eq!(num_f64(Json::parse("-0e0").unwrap().as_number()), 0.0e0);
    assert_eq!(num_f64(Json::parse("-1e1").unwrap().as_number()), -1.0e1);
    assert_eq!(num_f64(Json::parse("-20.01e10").unwrap().as_number()), -20.01e10);
    assert_eq!(num_f64(Json::parse("-21.12e2").unwrap().as_number()), -21.12e2);
}

#[test]
fn valid_valid_string() {
    assert_eq!(Json::parse("\"\"").unwrap().as_string(), String::from(""));

    assert_eq!(
        Json::parse("\"This is a normal ASCII string.\"").unwrap().as_string(),
        String::from("This is a normal ASCII string.")
    );

    assert_eq!(
        Json::parse("\"I can also use unicode: ٩(-̮̮̃-̃)۶ ٩(●̮̮̃•̃)۶ ٩(͡๏̯͡๏)۶ ٩(-̮̮̃•̃).\"")
            .unwrap()
            .as_string(),
        String::from("I can also use unicode: ٩(-̮̮̃-̃)۶ ٩(●̮̮̃•̃)۶ ٩(͡๏̯͡๏)۶ ٩(-̮̮̃•̃).")
    );

    assert_eq!(
        Json::parse("\"I can escape some things, like \\\"\\\\\\/\\b\\f\\n\\r\\t!\"")
            .unwrap()
            .as_string(),
        String::from("I can escape some things, like \"\\/\u{0008}\u{000C}\n\r\t!")
    );

    assert_eq!(
        Json::parse("\"I can even escape unicode: \\u3042.\"").unwrap().as_string(),
        String::from("I can even escape unicode: あ.")
    );
}

#[test]
fn valid_valid_array() {
    let json = Json::parse("[]");
    assert_eq!(json, Ok(Json::Array(vec![])));

    let json = Json::parse("[1,2.0,\"String\",[],{}]");
    assert_eq!(
        json,
        Ok(Json::Array(vec![
            Json::Number(Number::Unsigned(1)),
            Json::Number(Number::Float(String::from("2.0"))),
            Json::String(String::from("String")),
            Json::Array(vec![]),
            Json::Object(vec![]),
        ]))
    );
}

#[test]
fn valid_valid_object() {
    let json = Json::parse("{}");
    assert_eq!(json, Ok(Json::Object(vec![])));

    let json = Json::parse("{\"i\":1,\"f\":2.0,\"s\":\"String\",\"a\":[],\"o\":{}}");
    assert_eq!(
        json,
        Ok(Json::Object(vec![
            (String::from("i"), Json::Number(Number::Unsigned(1))),
            (String::from("f"), Json::Number(Number::Float(String::from("2.0")))),
            (String::from("s"), Json::String(String::from("String"))),
            (String::from("a"), Json::Array(vec![])),
            (String::from("o"), Json::Object(vec![])),
        ]))
    );
}
