use json_parser::lexer::{Lexer, Token};
use json_parser::parser::{pretty_print, ParseError, Parser, Value};

fn parse(source: &str) -> Result<Value, ParseError> {
    let mut lexer = Lexer::new(source);
    lexer.lex().unwrap();
    Parser::new(lexer.tokens).parse()
}

fn s(text: &str) -> Value {
    Value::Str(text.to_string())
}

fn number_value(v: &Value) -> f64 {
    match v {
        Value::Number(text) => text.parse::<f64>().unwrap(),
        other => panic!("not a number: {:?}", other),
    }
}

fn get<'a>(v: &'a Value, key: &str) -> &'a Value {
    match v {
        Value::Dict(entries) => &entries.iter().find(|e| e.0 == key).unwrap().1,
        other => panic!("not a dict: {:?}", other),
    }
}

#[test]
fn test_string() {
    let source = "\"test\"";
    let mut lexer = Lexer::new(source);
    lexer.lex().unwrap();
    let parser = Parser::new(lexer.tokens);
    let value = parser.parse().unwrap();
    assert_eq!(value, Value::Str("test".to_string()));
}

#[test]
fn test_number() {
    let source = "3.14e-8";
    let mut lexer = Lexer::new(source);
    lexer.lex().unwrap();
    let parser = Parser::new(lexer.tokens);
    let value = parser.parse().unwrap();
    assert_eq!(value, Value::Number("3.14e-8".to_string()));
    assert_eq!(number_value(&value), 3.14e-8);
}

#[test]
fn test_true() {
    let source = "true";
    let mut lexer = Lexer::new(source);
    lexer.lex().unwrap();
    let parser = Parser::new(lexer.tokens);
    let value = parser.parse().unwrap();
    assert_eq!(value, Value::Bool(true));
}

#[test]
fn test_nested_structures() {
    let input = r#"
        {
            "description": "The test case description",
            "schema": { "type": "string" },
            "tests": [
                {
                    "description": "a test with a valid instance",
                    "data": "a string",
                    "valid": true
                },
                {
                    "description": "a test with an invalid instance",
                    "data": 15,
                    "valid": false
                }
            ]
        }
        "#;

    let mut lexer = Lexer::new(input);
    lexer.lex().unwrap();
    let parser = Parser::new(lexer.tokens);
    let parsed = parser.parse().unwrap();

    let schema_map = vec![("type".to_string(), s("string"))];
    let test1 = vec![
        ("description".to_string(), s("a test with a valid instance")),
        ("data".to_string(), s("a string")),
        ("valid".to_string(), Value::Bool(true)),
    ];
    let test2 = vec![
        ("description".to_string(), s("a test with an invalid instance")),
        ("data".to_string(), Value::Number("15".to_string())),
        ("valid".to_string(), Value::Bool(false)),
    ];
    let test_list = vec![Value::Dict(test1), Value::Dict(test2)];
    let expected_map = vec![
        ("description".to_string(), s("The test case description")),
        ("schema".to_string(), Value::Dict(schema_map)),
        ("tests".to_string(), Value::List(test_list)),
    ];
    let expected = Value::Dict(expected_map);

    assert_eq!(parsed, expected);
    let tests = get(&parsed, "tests");
    match tests {
        Value::List(items) => assert_eq!(number_value(get(&items[1], "data")), 15.0),
        other => panic!("not a list: {:?}", other),
    }
}

#[test]
fn empty_containers_parse() {
    assert_eq!(parse("[]").unwrap(), Value::List(vec![]));
    assert_eq!(parse("{}").unwrap(), Value::Dict(vec![]));
    assert_eq!(parse("[[], {}]").unwrap(), Value::List(vec![Value::List(vec![]), Value::Dict(vec![])]));
}

#[test]
fn duplicate_keys_keep_last_value() {
    let v = parse(r#"{"a":1,"a":2}"#).unwrap();
    assert_eq!(v, Value::Dict(vec![("a".to_string(), Value::Number("2".to_string()))]));
    assert_eq!(number_value(get(&v, "a")), 2.0);
    let v = parse(r#"{"a":1,"b":3,"a":2}"#).unwrap();
    assert_eq!(
        v,
        Value::Dict(vec![
            ("a".to_string(), Value::Number("2".to_string())),
            ("b".to_string(), Value::Number("3".to_string())),
        ])
    );
}

#[test]
fn end_to_end_example() {
    let v = parse(r#"{"name":"Alice","age":30,"ok":true,"scores":[1,2],"addr":null}"#).unwrap();
    assert_eq!(get(&v, "name"), &s("Alice"));
    assert_eq!(number_value(get(&v, "age")), 30.0);
    assert_eq!(get(&v, "ok"), &Value::Bool(true));
    match get(&v, "scores") {
        Value::List(items) => {
            assert_eq!(items.len(), 2);
            assert_eq!(number_value(&items[0]), 1.0);
            assert_eq!(number_value(&items[1]), 2.0);
        }
        other => panic!("not a list: {:?}", other),
    }
    assert_eq!(get(&v, "addr"), &Value::Null);
    match &v {
        Value::Dict(entries) => assert_eq!(entries.len(), 5),
        _ => unreachable!(),
    }
}

#[test]
fn escaped_newline_in_value() {
    assert_eq!(parse("\"a\\nb\"").unwrap(), s("a\nb"));
}

#[test]
fn missing_close_bracket_fails() {
    match parse("[1,2") {
        Err(ParseError::UnexpectedToken(m)) => assert_eq!(m, "Expected ']', got 'EOF' at line: 1"),
        other => panic!("unexpected result {:?}", other),
    }
}

#[test]
fn missing_colon_fails() {
    match parse(r#"{"a" 1}"#) {
        Err(ParseError::UnexpectedToken(m)) => assert_eq!(m, "Expected ':', got '1' at line: 1"),
        other => panic!("unexpected result {:?}", other),
    }
}

#[test]
fn non_string_key_fails() {
    match parse("{1:2}") {
        Err(ParseError::InvalidKey(m)) => assert_eq!(m, "Expected string for key, got '1' at line: 1"),
        other => panic!("unexpected result {:?}", other),
    }
}

#[test]
fn missing_close_brace_fails() {
    match parse("{\"a\":1\n]") {
        Err(ParseError::UnexpectedToken(m)) => assert_eq!(m, "Expected '}', got ']' at line: 2"),
        other => panic!("unexpected result {:?}", other),
    }
}

#[test]
fn trailing_tokens_fail() {
    match parse("1 2") {
        Err(ParseError::UnexpectedToken(m)) => assert_eq!(m, "Expected EOF, got '2' at line: 1"),
        other => panic!("unexpected result {:?}", other),
    }
}

#[test]
fn misplaced_token_fails() {
    match parse("]") {
        Err(ParseError::UnexpectedToken(m)) => assert_eq!(m, "Unexpected token ']' at line: 1"),
        other => panic!("unexpected result {:?}", other),
    }
    match parse("") {
        Err(ParseError::UnexpectedToken(m)) => assert_eq!(m, "Unexpected token 'EOF' at line: 1"),
        other => panic!("unexpected result {:?}", other),
    }
    assert!(matches!(parse("[1,]"), Err(ParseError::UnexpectedToken(_))));
}

#[test]
fn parser_on_hand_made_tokens() {
    let tokens = vec![Token::LeftBracket(1), Token::Null(1), Token::RightBracket(1), Token::EOF(1)];
    assert_eq!(Parser::new(tokens).parse().unwrap(), Value::List(vec![Value::Null]));
}

#[test]
fn pretty_print_atoms() {
    assert_eq!(pretty_print(&s("hi")), "\"hi\"");
    assert_eq!(pretty_print(&Value::Number("2.5".to_string())), "2.5");
    assert_eq!(pretty_print(&Value::Bool(false)), "false");
    assert_eq!(pretty_print(&Value::Null), "null");
}

#[test]
fn pretty_print_nested() {
    let v = parse(r#"{"k":[1,"x"],"e":[]}"#).unwrap();
    let expected = "(\n  (k (\n    1\n    \"x\"\n  ))\n  (e (\n  ))\n)";
    assert_eq!(pretty_print(&v), expected);
}

#[test]
fn pretty_print_is_stable() {
    let v = parse(r#"[3, [true, null], {"a": "b"}]"#).unwrap();
    let first = pretty_print(&v);
    let second = pretty_print(&v);
    assert_eq!(first, second);
    assert_eq!(first, "(\n  3\n  (\n    true\n    null\n  )\n  (\n    (a \"b\")\n  )\n)");
}
