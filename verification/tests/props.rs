use simple_json::Error;
use simple_json::Json;
use simple_json::Number;

#[test]
fn round_trip_composite() {
    let v = Json::Object(vec![
        (String::from("name"), Json::String(String::from("say \"hi\""))),
        (
            String::from("data"),
            Json::Array(vec![
                Json::Number(Number::Unsigned(1)),
                Json::Number(Number::Integer(-7)),
                Json::Number(Number::Float(String::from("2.5"))),
                Json::Boolean(true),
                Json::Null,
            ]),
        ),
        (String::from("empty"), Json::Object(vec![])),
    ]);
    let text = v.to_string();
    assert_eq!(Json::parse(text.as_str()).unwrap(), v);
}

#[test]
fn serialize_idempotent_concrete() {
    let v = Json::Array(vec![
        Json::Number(Number::Float(String::from("5e2"))),
        Json::String(String::from("x")),
        Json::Object(vec![(String::from("k"), Json::Number(Number::Integer(-1)))]),
    ]);
    let once = v.to_string();
    let again = Json::parse(once.as_str()).unwrap().to_string();
    assert_eq!(again, once);
}

#[test]
fn leading_zero_rejected() {
    assert_eq!(Json::parse("01"), Err(Error::InvalidCharacter(String::from("1"))));
    assert_eq!(Json::parse("-01"), Err(Error::InvalidCharacter(String::from("1"))));
}

#[test]
fn classification() {
    assert_eq!(Json::parse("5").unwrap(), Json::Number(Number::Unsigned(5)));
    assert_eq!(Json::parse("-5").unwrap(), Json::Number(Number::Integer(-5)));
    assert_eq!(Json::parse("5.0").unwrap(), Json::Number(Number::Float(String::from("5.0"))));
    let json = Json::parse("5e2").unwrap();
    assert_eq!(json, Json::Number(Number::Float(String::from("5e2"))));
    match json.as_number() {
        Number::Float(t) => assert_eq!(t.parse::<f64>().unwrap(), 500.0),
        _ => panic!("expected a float"),
    }
}

#[test]
fn empty_containers() {
    assert_eq!(Json::parse("[]").unwrap(), Json::Array(vec![]));
    assert_eq!(Json::parse("{}").unwrap(), Json::Object(vec![]));
}

#[test]
fn nesting() {
    assert_eq!(
        Json::parse("{\"a\":[1,2.5,\"x\"]}").unwrap(),
        Json::Object(vec![(
            String::from("a"),
            Json::Array(vec![
                Json::Number(Number::Unsigned(1)),
                Json::Number(Number::Float(String::from("2.5"))),
                Json::String(String::from("x")),
            ]),
        )])
    );
}

#[test]
fn escapes() {
    assert_eq!(Json::parse("\"a\\\"b\"").unwrap(), Json::String(String::from("a\"b")));
    assert_eq!(Json::parse("\"\\u3042\"").unwrap(), Json::String(String::from("あ")));
}

#[test]
fn malformed_inputs_fail() {
    assert_eq!(Json::parse("\"abc"), Err(Error::UnexpectedEof));
    assert_eq!(Json::parse("[1,]"), Err(Error::InvalidCharacter(String::from("]"))));
    assert_eq!(Json::parse("{\"a\" 1}"), Err(Error::InvalidCharacter(String::from("1"))));
    assert_eq!(Json::parse("[1 2]"), Err(Error::InvalidCharacter(String::from("2"))));
}

#[test]
fn error_variants() {
    assert_eq!(Json::parse(""), Err(Error::UnexpectedEof));
    assert_eq!(Json::parse("   "), Err(Error::UnexpectedEof));
    assert_eq!(Json::parse("x"), Err(Error::InvalidCharacter(String::from("x"))));
    assert_eq!(Json::parse("nul"), Err(Error::UnexpectedEof));
    assert_eq!(Json::parse("nulx"), Err(Error::InvalidCharacter(String::from("x"))));
    assert_eq!(Json::parse("tru!"), Err(Error::InvalidCharacter(String::from("!"))));
}

#[test]
fn integer_limits() {
    assert_eq!(
        Json::parse("18446744073709551615").unwrap(),
        Json::Number(Number::Unsigned(18446744073709551615))
    );
    assert_eq!(
        Json::parse("18446744073709551616"),
        Err(Error::InvalidCharacter(String::from("18446744073709551616")))
    );
    assert_eq!(
        Json::parse("-9223372036854775808").unwrap(),
        Json::Number(Number::Integer(i64::MIN))
    );
    assert_eq!(
        Json::parse("-9223372036854775809"),
        Err(Error::InvalidCharacter(String::from("-9223372036854775809")))
    );
}

#[test]
fn bad_escapes() {
    assert_eq!(Json::parse("\"\\q\""), Err(Error::InvalidCharacter(String::from("q"))));
    assert_eq!(Json::parse("\"\\uD800\""), Err(Error::InvalidCharacter(String::from("U+D800"))));
    assert_eq!(Json::parse("\"\\u12G4\""), Err(Error::InvalidCharacter(String::from("U+12"))));
    assert_eq!(Json::parse("\"\\u30\""), Err(Error::InvalidCharacter(String::from("U+30"))));
}

#[test]
fn incomplete_numbers() {
    assert_eq!(Json::parse("-"), Err(Error::UnexpectedEof));
    assert_eq!(Json::parse("1."), Err(Error::UnexpectedEof));
    assert_eq!(Json::parse("1.e5"), Err(Error::InvalidCharacter(String::from("e"))));
    assert_eq!(Json::parse("1e"), Err(Error::UnexpectedEof));
    assert_eq!(Json::parse("1e+"), Err(Error::UnexpectedEof));
    assert_eq!(Json::parse("1e-0"), Err(Error::InvalidCharacter(String::from("0"))));
}

#[test]
fn object_trailing_comma_accepted() {
    assert_eq!(
        Json::parse("{\"a\":1,}").unwrap(),
        Json::Object(vec![(String::from("a"), Json::Number(Number::Unsigned(1)))])
    );
}

#[test]
fn duplicate_keys_last_wins() {
    assert_eq!(
        Json::parse("{\"a\":1,\"b\":2,\"a\":3}").unwrap(),
        Json::Object(vec![
            (String::from("a"), Json::Number(Number::Unsigned(3))),
            (String::from("b"), Json::Number(Number::Unsigned(2))),
        ])
    );
}

#[test]
fn surrounding_whitespace() {
    assert_eq!(Json::parse(" \t\r\n true \t\r\n ").unwrap(), Json::Boolean(true));
    assert_eq!(Json::parse("true x"), Err(Error::InvalidCharacter(String::from("x"))));
}

#[test]
fn number_to_string_exact() {
    assert_eq!(Number::Unsigned(0).to_string(), "0");
    assert_eq!(Number::Unsigned(18446744073709551615).to_string(), "18446744073709551615");
    assert_eq!(Number::Integer(i64::MIN).to_string(), "-9223372036854775808");
    assert_eq!(Number::Integer(105).to_string(), "105");
    assert_eq!(Number::Float(String::from("20.01e10")).to_string(), "20.01e10");
}
