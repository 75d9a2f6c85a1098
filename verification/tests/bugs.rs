use simple_json::Json;
use simple_json::Number;

#[test]
fn test_object_whitespaces() {
    let text = "{\n    \"size\": { \"x\": 800, \"y\": 600 }\n}";
    let result = Json::parse(text).unwrap();

    let size = vec![
        (String::from("x"), Json::Number(Number::Unsigned(800))),
        (String::from("y"), Json::Number(Number::Unsigned(600))),
    ];

    let correct = vec![(String::from("size"), Json::Object(size))];

    assert_eq!(result, Json::Object(correct));
}
