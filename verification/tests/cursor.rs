use simple_json::parser::boolean;
use simple_json::parser::node;
use simple_json::parser::null;
use simple_json::parser::number;
use simple_json::parser::string;
use simple_json::parser::Cursor;
use simple_json::ArrayParser;
use simple_json::Error;
use simple_json::Json;
use simple_json::NodeParser;
use simple_json::ObjectParser;
use simple_json::StringParser;

fn at(text: &str) -> Cursor {
    Cursor::new(text.chars().collect())
}

#[test]
fn dispatcher_leaves_offending_character() {
    let mut cur = at("x");
    assert_eq!(node(&mut cur), Err(Error::InvalidCharacter(String::from("x"))));
    assert_eq!(cur.pos, 0);

    let mut cur = at("  ]");
    assert_eq!(node(&mut cur), Err(Error::InvalidCharacter(String::from("]"))));
    assert_eq!(cur.pos, 2);
}

#[test]
fn dispatcher_consumes_all_whitespace_at_eof() {
    let mut cur = at("  \t");
    assert_eq!(NodeParser::parse_slice(&mut cur), Err(Error::UnexpectedEof));
    assert_eq!(cur.pos, 3);
}

#[test]
fn literal_failures_keep_consumed_prefix() {
    let mut cur = at("xyz");
    assert_eq!(boolean(&mut cur), Err(Error::InvalidCharacter(String::from("x"))));
    assert_eq!(cur.pos, 0);

    let mut cur = at("trXe");
    assert_eq!(boolean(&mut cur), Err(Error::InvalidCharacter(String::from("X"))));
    assert_eq!(cur.pos, 2);

    let mut cur = at("nuXl");
    assert_eq!(null(&mut cur), Err(Error::InvalidCharacter(String::from("X"))));
    assert_eq!(cur.pos, 2);
}

#[test]
fn string_failures_stop_at_offending_character() {
    let mut cur = at("x");
    assert_eq!(string(&mut cur), Err(Error::InvalidCharacter(String::from("x"))));
    assert_eq!(cur.pos, 0);

    let mut cur = at("\"ab\\q\"");
    assert_eq!(
        StringParser::parse_slice(&mut cur),
        Err(Error::InvalidCharacter(String::from("q")))
    );
    assert_eq!(cur.pos, 4);
}

#[test]
fn number_failures_stop_at_offending_character() {
    let mut cur = at("1.x");
    assert_eq!(number(&mut cur), Err(Error::InvalidCharacter(String::from("x"))));
    assert_eq!(cur.pos, 2);
}

#[test]
fn composite_failures_stop_at_offending_character() {
    let mut cur = at("[1,]");
    assert_eq!(
        ArrayParser::parse_slice(&mut cur),
        Err(Error::InvalidCharacter(String::from("]")))
    );
    assert_eq!(cur.pos, 3);

    let mut cur = at("{\"a\" 1}");
    assert_eq!(
        ObjectParser::parse_slice(&mut cur),
        Err(Error::InvalidCharacter(String::from("1")))
    );
    assert_eq!(cur.pos, 5);
}

#[test]
fn string_value_constructor() {
    assert_eq!(Json::from_str("say \"hi\""), Json::String(String::from("say \"hi\"")));
    assert_eq!(Json::from_str("").to_string(), "\"\"");
}
