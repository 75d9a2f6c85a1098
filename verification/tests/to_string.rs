use simple_json::Json;
use simple_json::Number;

#[test]
fn null_to_string() {
    let json = Json::from(());
    assert_eq!(json.to_string(), "null");
}

#[test]
fn bool_to_string() {
    let json = Json::from(false);
    assert_eq!(json.to_string(), "false");
    let json = Json::from(true);
    assert_eq!(json.to_string(), "true");
}

#[test]
fn integer_to_string() {
    assert_eq!(Json::from(0).to_string(), "0");
    assert_eq!(Json::from(1).to_string(), "1");
    assert_eq!(Json::from(20).to_string(), "20");
    assert_eq!(Json::from(21).to_string(), "21");

    assert_eq!(Json::from(-0).to_string(), "0");
    assert_eq!(Json::from(-1).to_string(), "-1");
    assert_eq!(Json::from(-20).to_string(), "-20");
    assert_eq!(Json::from(-21).to_string(), "-21");
}

#[test]
fn float_to_string() {
    assert_eq!(Json::Number(Number::Float(String::from("0"))).to_string(), "0");
    assert_eq!(Json::Number(Number::Float((1.1 as f64).to_string())).to_string(), "1.1");
    assert_eq!(Json::Number(Number::Float((20.01 as f64).to_string())).to_string(), "20.01");
    assert_eq!(Json::Number(Number::Float((21.12 as f64).to_string())).to_string(), "21.12");

    assert_eq!(Json::Number(Number::Float(String::from("0"))).to_string(), "0");
    assert_eq!(Json::Number(Number::Float((-1.1 as f64).to_string())).to_string(), "-1.1");
    assert_eq!(Json::Number(Number::Float((-20.01 as f64).to_string())).to_string(), "-20.01");
    assert_eq!(Json::Number(Number::Float((-21.12 as f64).to_string())).to_string(), "-21.12");
}

#[test]
fn string_to_string() {
    assert_eq!(Json::from("").to_string(), "\"\"");

    assert_eq!(
        Json::from("This is a normal ASCII string.").to_string(),
        "\"This is a normal ASCII string.\""
    );

    assert_eq!(
        Json::from("I can also use unicode: ٩(-̮̮̃-̃)۶ ٩(●̮̮̃•̃)۶ ٩(͡๏̯͡๏)۶ ٩(-̮̮̃•̃).").to_string(),
        "\"I can also use unicode: ٩(-̮̮̃-̃)۶ ٩(●̮̮̃•̃)۶ ٩(͡๏̯͡๏)۶ ٩(-̮̮̃•̃).\""
    );

    assert_eq!(
        Json::from("I can escape some things, like \"\\/\u{0008}\u{000C}\n\r\t!").to_string(),
        "\"I can escape some things, like \\\"\\/\u{0008}\u{000C}\n\r\t!\""
    );

    assert_eq!(
        Json::from("I can even escape unicode: あ.").to_string(),
        "\"I can even escape unicode: \u{3042}.\""
    );
}

#[test]
fn array_to_string() {
    let empty: Vec<Json> = vec![];
    assert_eq!(Json::from(empty).to_string(), "[]");

    let json = Json::from(vec![
        Json::from(1),
        Json::Number(Number::Float((2.3 as f64).to_string())),
        Json::from("String"),
        Json::from(Vec::<Json>::new()),
        Json::from(Vec::<(String, Json)>::new()),
    ]);
    assert_eq!(json.to_string(), "[1,2.3,\"String\",[],{}]");
}

#[test]
fn map_to_object() {
    assert_eq!(Json::from(Vec::<(String, Json)>::new()).to_string(), "{}");

    let map: Vec<(String, Json)> = vec![
        (String::from("i"), Json::from(-1)),
        (String::from("f"), Json::Number(Number::Float((2.3 as f64).to_string()))),
        (String::from("s"), Json::from("String")),
        (String::from("a"), Json::from(Vec::<Json>::new())),
        (String::from("o"), Json::from(Vec::<(String, Json)>::new())),
    ];

    assert_eq!(
        Json::from(map),
        Json::parse("{\"i\":-1,\"f\":2.3,\"s\":\"String\",\"a\":[],\"o\":{}}").unwrap()
    );
}
