use simple_json::Json;
use simple_json::Number;

/// The narrowing conversion to an unsigned host integer: a float truncates.
fn to_u64(n: &Number) -> u64 {
    match n {
        Number::Unsigned(v) => *v,
        Number::Integer(v) => *v as u64,
        Number::Float(t) => t.parse::<f64>().unwrap() as u64,
    }
}

/// The narrowing conversion to a signed host integer: a float truncates.
fn to_i64(n: &Number) -> i64 {
    match n {
        Number::Unsigned(v) => *v as i64,
        Number::Integer(v) => *v,
        Number::Float(t) => t.parse::<f64>().unwrap() as i64,
    }
}

/// The conversion to a host float.
fn to_f64(n: &Number) -> f64 {
    match n {
        Number::Unsigned(v) => *v as f64,
        Number::Integer(v) => *v as f64,
        Number::Float(t) => t.parse::<f64>().unwrap(),
    }
}

#[test]
fn json_to_null() {
    let json = Json::parse("null").unwrap();
    let val: () = json.as_null();
    assert_eq!(val, ());
}

#[test]
fn json_to_bool() {
    let json = Json::parse("false").unwrap();
    assert_eq!(json.as_bool(), false);

    let json = Json::parse("true").unwrap();
    assert_eq!(json.as_bool(), true);
}

#[test]
fn convert_json_to_number() {
    assert_eq!(to_u64(Json::parse("1").unwrap().as_number()), 1);
    assert_eq!(to_u64(Json::parse("-2").unwrap().as_number()), (-2 as i64) as u64);
    assert_eq!(to_u64(Json::parse("3.4").unwrap().as_number()), 3);

    assert_eq!(to_i64(Json::parse("5").unwrap().as_number()), 5);
    assert_eq!(to_i64(Json::parse("-6").unwrap().as_number()), -6);
    assert_eq!(to_i64(Json::parse("7.8").unwrap().as_number()), 7);

    assert_eq!(to_f64(Json::parse("9").unwrap().as_number()), 9.);
    assert_eq!(to_f64(Json::parse("-1").unwrap().as_number()), -1.);
    assert_eq!(to_f64(Json::parse("0.2").unwrap().as_number()), 0.2);
}

#[test]
fn json_to_string() {
    let json = Json::parse("\"This is a nice string\"").unwrap();
    assert_eq!(json.as_string(), "This is a nice string");
}

#[test]
fn json_to_array() {
    let json = Json::parse("[ 1, 2.0, \"String\", [], {} ]").unwrap();
    assert_eq!(
        json.as_array(),
        &vec![
            Json::from(1 as u64),
            Json::Number(Number::Float(String::from("2.0"))),
            Json::from("String"),
            Json::from(Vec::<Json>::new()),
            Json::from(Vec::<(String, Json)>::new()),
        ]
    );
}

#[test]
fn json_to_object() {
    let json = Json::parse("{\"u\":1,\"i\":-3,\"f\":2.0,\"s\":\"String\",\"a\":[],\"o\":{}}")
        .unwrap();
    assert_eq!(
        json.as_object(),
        &vec![
            (String::from("u"), Json::from(1 as u64)),
            (String::from("i"), Json::from(-3)),
            (String::from("f"), Json::Number(Number::Float(String::from("2.0")))),
            (String::from("s"), Json::from("String")),
            (String::from("a"), Json::from(Vec::<Json>::new())),
            (String::from("o"), Json::from(Vec::<(String, Json)>::new())),
        ]
    );
}

#[test]
fn null_to_json() {
    let val: Json = ().into();
    assert_eq!(val, Json::Null);
}

#[test]
fn bool_to_json() {
    let val: Json = false.into();
    assert_eq!(val, Json::Boolean(false));
    let val: Json = true.into();
    assert_eq!(val, Json::Boolean(true));
}

#[test]
fn number_to_json() {
    let val: Json = (1 as u64).into();
    assert_eq!(val, Json::Number(Number::Unsigned(1)));
    let val: Json = 2.into();
    assert_eq!(val, Json::Number(Number::Integer(2)));
    let val: Json = Json::Number(Number::Float((3.0 as f64).to_string()));
    assert_eq!(val, Json::Number(Number::Float(String::from("3"))));
}

#[test]
fn string_to_json() {
    let val: Json = "This is a nice string".into();
    assert_eq!(val, Json::String(String::from("This is a nice string")));
    let val: Json = String::from("Strings").into();
    assert_eq!(val, Json::String(String::from("Strings")));
}

#[test]
fn array_to_json() {
    let vec: Vec<Json> = vec![
        Json::from(1),
        Json::Number(Number::Float((2.0 as f64).to_string())),
        Json::from("String"),
        Json::from(Vec::<Json>::new()),
        Json::from(Vec::<(String, Json)>::new()),
    ];

    let val: Json = vec.into();
    assert_eq!(
        val,
        Json::Array(vec![
            Json::from(1),
            Json::Number(Number::Float((2.0 as f64).to_string())),
            Json::from("String"),
            Json::from(Vec::<Json>::new()),
            Json::from(Vec::<(String, Json)>::new()),
        ])
    );
}

#[test]
fn object_to_json() {
    let map: Vec<(String, Json)> = vec![
        (String::from("u"), Json::from(1 as u64)),
        (String::from("i"), Json::from(-3)),
        (String::from("f"), Json::Number(Number::Float((2.0 as f64).to_string()))),
        (String::from("s"), Json::from("String")),
        (String::from("a"), Json::from(Vec::<Json>::new())),
        (String::from("o"), Json::from(Vec::<(String, Json)>::new())),
    ];

    let val: Json = map.into();
    assert_eq!(
        val,
        Json::Object(vec![
            (String::from("u"), Json::from(1 as u64)),
            (String::from("i"), Json::from(-3)),
            (String::from("f"), Json::Number(Number::Float((2.0 as f64).to_string()))),
            (String::from("s"), Json::from("String")),
            (String::from("a"), Json::from(Vec::<Json>::new())),
            (String::from("o"), Json::from(Vec::<(String, Json)>::new())),
        ])
    );
}
