use rson::{Literal, Number, ParseError, Rson, RsonMap, StructuralChar, Value};

fn parse(text: &str) -> Result<Value, ParseError> {
    Rson::from_reader(text.as_bytes())
}

fn number(digits: &str) -> Value {
    Value::Number(Number::new(digits.to_string()))
}

fn string(content: &str) -> Value {
    Value::String(content.to_string())
}

#[test]
fn literal_reads_word_and_trailing_whitespace() {
    for (text, expected) in [
        ("null", Literal::Null),
        ("true \t\n ", Literal::Bool(true)),
        ("false\n", Literal::Bool(false)),
    ] {
        let mut rson = Rson::new(text.as_bytes());
        assert_eq!(rson.parse(), Ok(Value::Literal(expected)));
        assert_eq!(rson.look(), None);
    }
}

#[test]
fn literal_stops_at_what_follows_the_whitespace() {
    let mut rson = Rson::new("true  ,x".as_bytes());
    assert_eq!(rson.literal(), Ok(Value::Literal(Literal::Bool(true))));
    assert_eq!(rson.look(), Some(','));
}

#[test]
fn carriage_return_is_no_whitespace() {
    assert_eq!(
        parse("true\r"),
        Err(ParseError::UnexpectedLiteralError { token: "true\r".to_string() })
    );
}

#[test]
fn leading_whitespace_is_not_skipped() {
    assert_eq!(
        parse(" true"),
        Err(ParseError::UnexpectedLiteralError { token: String::new() })
    );
}

#[test]
fn empty_input_is_an_empty_word() {
    assert_eq!(parse(""), Err(ParseError::UnexpectedLiteralError { token: String::new() }));
}

#[test]
fn number_keeps_its_digits() {
    assert_eq!(parse("0"), Ok(number("0")));
    assert_eq!(parse("007"), Ok(number("007")));
    assert_eq!(
        parse("123456789012345678901234567890"),
        Ok(number("123456789012345678901234567890"))
    );
}

#[test]
fn number_stops_at_the_first_non_digit() {
    let mut rson = Rson::new("12.5".as_bytes());
    assert_eq!(rson.number(), Ok(number("12")));
    assert_eq!(rson.look(), Some('.'));
    assert_eq!(parse("12e3"), Ok(number("12")));
}

#[test]
fn number_wants_a_digit() {
    let mut rson = Rson::new("-1".as_bytes());
    assert_eq!(rson.number(), Err(ParseError::IntegerExpectedError));
    let mut rson = Rson::new("".as_bytes());
    assert_eq!(rson.number(), Err(ParseError::IntegerExpectedError));
    assert_eq!(
        parse("-1"),
        Err(ParseError::UnexpectedLiteralError { token: "-1".to_string() })
    );
}

#[test]
fn string_is_the_text_between_the_marks() {
    assert_eq!(parse(r#""""#), Ok(string("")));
    assert_eq!(parse(r#""a b""#), Ok(string("a b")));
    assert_eq!(parse(r#""a\nb""#), Ok(string("a\\nb")));
    assert_eq!(parse(r#""{[,:]}""#), Ok(string("{[,:]}")));
}

#[test]
fn string_drops_whitespace_behind_the_opening_mark() {
    assert_eq!(parse("\"  a \""), Ok(string("a ")));
    assert_eq!(parse("\" \t\n\""), Ok(string("")));
}

#[test]
fn string_bytes_are_characters() {
    assert_eq!(Rson::from_reader(&[b'"', 0xE9, b'"']), Ok(string("\u{e9}")));
}

#[test]
fn string_must_be_closed() {
    assert_eq!(parse("\"abc"), Err(ParseError::UnterminatedStringError));
    assert_eq!(parse("\""), Err(ParseError::UnterminatedStringError));
    assert_eq!(parse("[\"abc"), Err(ParseError::UnterminatedStringError));
    assert_eq!(parse("{\"abc"), Err(ParseError::UnterminatedStringError));
}

#[test]
fn string_wants_its_opening_mark() {
    let mut rson = Rson::new("abc".as_bytes());
    assert_eq!(
        rson.string(),
        Err(ParseError::SyntaxError { expected: '"', found: Some('a') })
    );
    let mut rson = Rson::new("".as_bytes());
    assert_eq!(rson.quoted(), Err(ParseError::SyntaxError { expected: '"', found: None }));
}

#[test]
fn empty_containers() {
    assert_eq!(parse("[]"), Ok(Value::Array(vec![])));
    assert_eq!(parse("[ \n ]"), Ok(Value::Array(vec![])));
    assert_eq!(parse("{}"), Ok(Value::Object(RsonMap::new())));
    assert_eq!(parse("{\t}"), Ok(Value::Object(RsonMap::new())));
}

#[test]
fn empty_containers_are_read_to_their_end() {
    let mut rson = Rson::new("[] x".as_bytes());
    assert_eq!(rson.array(), Ok(Value::Array(vec![])));
    assert_eq!(rson.look(), Some('x'));
    let mut rson = Rson::new("{}".as_bytes());
    assert_eq!(rson.object(), Ok(Value::Object(RsonMap::new())));
    assert_eq!(rson.look(), None);
}

#[test]
fn nested_empty_containers() {
    let mut map = RsonMap::new();
    map.insert("a".to_string(), Value::Array(vec![]));
    map.insert("b".to_string(), Value::Object(RsonMap::new()));
    assert_eq!(parse(r#"{"a": [], "b": {}}"#), Ok(Value::Object(map)));
    assert_eq!(
        parse("[[], {}, [[]]]"),
        Ok(Value::Array(vec![
            Value::Array(vec![]),
            Value::Object(RsonMap::new()),
            Value::Array(vec![Value::Array(vec![])]),
        ]))
    );
}

#[test]
fn array_keeps_the_order_of_its_elements() {
    assert_eq!(
        parse(r#"["A", 1, true, false, null]"#),
        Ok(Value::Array(vec![
            string("A"),
            number("1"),
            Value::Literal(Literal::Bool(true)),
            Value::Literal(Literal::Bool(false)),
            Value::Literal(Literal::Null),
        ]))
    );
}

#[test]
fn separator_may_follow_the_last_item() {
    assert_eq!(parse("[1, 2, ]"), Ok(Value::Array(vec![number("1"), number("2")])));
    let mut map = RsonMap::new();
    map.insert("a".to_string(), number("1"));
    assert_eq!(parse(r#"{"a": 1,}"#), Ok(Value::Object(map)));
}

#[test]
fn items_want_a_separator() {
    assert_eq!(
        parse("[1 2]"),
        Err(ParseError::SyntaxError { expected: ']', found: Some('2') })
    );
    assert_eq!(
        parse(r#"{"a": 1 "b": 2}"#),
        Err(ParseError::SyntaxError { expected: '}', found: Some('"') })
    );
    assert_eq!(
        parse("[1}"),
        Err(ParseError::SyntaxError { expected: ']', found: Some('}') })
    );
}

#[test]
fn member_wants_its_name_separator() {
    assert_eq!(
        parse(r#"{"a" 1}"#),
        Err(ParseError::SyntaxError { expected: ':', found: Some('1') })
    );
}

#[test]
fn key_must_be_a_string() {
    assert_eq!(parse("{true}"), Err(ParseError::TypeError));
    assert_eq!(parse("{1: 2}"), Err(ParseError::TypeError));
    assert_eq!(parse(r#"{"a": 1, b: 2}"#), Err(ParseError::TypeError));
    assert_eq!(parse("{,}"), Err(ParseError::TypeError));
}

#[test]
fn containers_must_be_closed() {
    let open = [
        "[", "[1", "[1,", "[1, ", "{", "{\"a\"", "{\"a\":", "{\"a\": 1", "{\"a\": 1,", "[[]", "[{}",
    ];
    for text in open {
        assert_eq!(parse(text), Err(ParseError::UnterminatedContainerError), "{}", text);
    }
}

#[test]
fn productions_want_their_opening_character() {
    let mut rson = Rson::new("1".as_bytes());
    assert_eq!(rson.array(), Err(ParseError::SyntaxError { expected: '[', found: Some('1') }));
    let mut rson = Rson::new("".as_bytes());
    assert_eq!(rson.object(), Err(ParseError::SyntaxError { expected: '{', found: None }));
}

#[test]
fn errors_come_out_of_any_depth() {
    assert_eq!(
        parse(r#"{"a": [1, {"b": nul}]}"#),
        Err(ParseError::UnexpectedLiteralError { token: "nul".to_string() })
    );
    assert_eq!(
        parse("[1, ,]"),
        Err(ParseError::UnexpectedLiteralError { token: String::new() })
    );
}

#[test]
fn later_member_replaces_earlier_one() {
    let parsed = parse(r#"{"k": 1, "k": 2}"#).unwrap();
    assert_eq!(parsed.get("k"), Some(&number("2")));
    let mut map = RsonMap::new();
    map.insert("k".to_string(), number("2"));
    assert_eq!(parsed, Value::Object(map));
    match parsed {
        Value::Object(members) => assert_eq!(members.len(), 1),
        _ => panic!("an object was parsed"),
    }
}

#[test]
fn objects_are_equal_whatever_the_order() {
    assert_eq!(parse(r#"{"a": 1, "b": [2]}"#), parse(r#"{"b": [2], "a": 1}"#));
    assert_ne!(parse(r#"{"a": 1, "b": 2}"#), parse(r#"{"a": 1}"#));
    assert_ne!(parse(r#"{"a": 1}"#), parse(r#"{"a": 1, "b": 2}"#));
    assert_ne!(parse(r#"{"a": 1, "b": 2}"#), parse(r#"{"a": 1, "b": 3}"#));
    assert_ne!(parse(r#"{"a": 1, "b": 2}"#), parse(r#"{"a": 1, "c": 2}"#));
}

#[test]
fn values_of_different_shape_differ() {
    assert_ne!(parse("1"), parse("\"1\""));
    assert_ne!(parse("[1]"), parse("[1, 1]"));
    assert_ne!(parse("[1, 2]"), parse("[2, 1]"));
    assert_ne!(parse("null"), parse("false"));
    assert_ne!(parse("[]"), parse("{}"));
    assert_ne!(parse("1"), parse("01"));
    assert_ne!(Ok(number("1")), parse("x"));
    assert_ne!(
        ParseError::SyntaxError { expected: ']', found: None },
        ParseError::SyntaxError { expected: ']', found: Some(']') }
    );
    assert_ne!(ParseError::TypeError, ParseError::IntegerExpectedError);
}

#[test]
fn canonical_text_parses_to_the_same_value() {
    let first = parse("{ \"b\" : [ 1 , \"x\" , { } , null ] ,\n \"a\" : true , }").unwrap();
    let again = parse(r#"{"a":true,"b":[1,"x",{},null]}"#).unwrap();
    assert_eq!(first, again);
    let other_order = parse(r#"{"b":[1,"x",{},null],"a":true}"#).unwrap();
    assert_eq!(first, other_order);
}

#[test]
fn from_str_reads_bytes() {
    assert_eq!(Rson::from_str("[1, 2]"), Ok(Value::Array(vec![number("1"), number("2")])));
    assert_eq!(Rson::from_str("\"\u{e9}\""), Ok(string("\u{c3}\u{a9}")));
}

#[test]
fn scanner_steps() {
    let mut rson = Rson::new(" \t\n:x".as_bytes());
    assert_eq!(rson.look(), Some(' '));
    assert!(rson.is_white());
    rson.skip_white();
    assert_eq!(rson.look(), Some(':'));
    assert!(!rson.is_white());
    assert!(rson.accept(':'));
    assert!(!rson.accept(','));
    assert_eq!(
        rson.match_char(StructuralChar::ValueSeperator),
        Err(ParseError::SyntaxError { expected: ',', found: Some(':') })
    );
    assert_eq!(rson.look(), Some(':'));
    assert_eq!(rson.match_char(StructuralChar::NameSeperator), Ok(()));
    assert_eq!(rson.get_char(), None);
    assert_eq!(rson.get_char(), None);
    assert_eq!(rson.look(), None);
    assert!(!rson.is_white());
    assert!(!rson.accept('x'));
}

#[test]
fn token_is_a_run_of_word_characters() {
    let mut rson = Rson::new("ab-c9 \n]".as_bytes());
    assert_eq!(rson.get_token(), "ab-c9");
    assert_eq!(rson.look(), Some(']'));
    assert_eq!(rson.get_token(), "");
    assert_eq!(rson.look(), Some(']'));
}

#[test]
fn literal_names() {
    assert_eq!(Literal::from_str("null"), Ok(Literal::Null));
    assert_eq!(Literal::from_str("true"), Ok(Literal::Bool(true)));
    assert_eq!(Literal::from_str("false"), Ok(Literal::Bool(false)));
    assert_eq!(
        Literal::from_str("True"),
        Err(ParseError::UnexpectedLiteralError { token: "True".to_string() })
    );
}

#[test]
fn structural_characters() {
    let all: Vec<char> = StructuralChar::iter().into_iter().map(char::from).collect();
    assert_eq!(all, vec!['[', '{', ']', '}', ':', ',', '"']);
}

#[test]
fn map_lookups() {
    let mut map = RsonMap::new();
    assert!(map.is_empty());
    assert_eq!(map.len(), 0);
    map.insert("a".to_string(), number("1"));
    map.insert("b".to_string(), number("2"));
    map.insert("a".to_string(), number("3"));
    assert!(!map.is_empty());
    assert_eq!(map.len(), 2);
    assert!(map.contains_key("a"));
    assert!(!map.contains_key("c"));
    assert_eq!(map.get("a"), Some(&number("3")));
    assert_eq!(map.get("b"), Some(&number("2")));
    assert_eq!(map.get("c"), None);
    assert_eq!(number("17").get("a"), None);
}

#[test]
fn map_hands_out_every_member_once() {
    let parsed = parse(r#"{"a": 1, "b": 2, "a": 3}"#).unwrap();
    let Value::Object(members) = parsed else {
        panic!("an object was parsed");
    };
    let mut seen = Vec::new();
    let mut index = 0;
    while let Some((key, value)) = members.entry(index) {
        assert_eq!(members.get(key), Some(value));
        seen.push(key.to_string());
        index += 1;
    }
    assert_eq!(index, members.len());
    seen.sort();
    assert_eq!(seen, vec!["a".to_string(), "b".to_string()]);
    assert_eq!(members.entry(index + 1), None);
}
