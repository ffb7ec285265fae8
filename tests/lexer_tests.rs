use json_parser::lexer::{LexError, Lexer, Token};

fn lex(source: &str) -> Result<Vec<Token>, LexError> {
    let mut lexer = Lexer::new(source);
    lexer.lex().map(|_| lexer.tokens)
}

fn number_value(t: &Token) -> f64 {
    match t {
        Token::Number(text, _) => text.parse::<f64>().unwrap(),
        other => panic!("not a number token: {:?}", other),
    }
}

#[test]
fn test_print() {
    let token = Token::EOF(1);
    assert_eq!(token.describe(), "'EOF' at line: 1");
}

#[test]
fn test_json_lexer() {
    let source = r#"
{
    "name": "Alice",
    "age": 30,
    "is_student": true,
    "scores": [95.5, 88.0, 76],
    "address": null
}
"#;
    let mut lexer = Lexer::new(source);
    let _ = lexer.lex().unwrap();

    let expected = vec![
        Token::LeftBrace(2),
        Token::Str("name".to_string(), 3),
        Token::Colon(3),
        Token::Str("Alice".to_string(), 3),
        Token::Comma(3),
        Token::Str("age".to_string(), 4),
        Token::Colon(4),
        Token::Number("30".to_string(), 4),
        Token::Comma(4),
        Token::Str("is_student".to_string(), 5),
        Token::Colon(5),
        Token::Bool(true, 5),
        Token::Comma(5),
        Token::Str("scores".to_string(), 6),
        Token::Colon(6),
        Token::LeftBracket(6),
        Token::Number("95.5".to_string(), 6),
        Token::Comma(6),
        Token::Number("88.0".to_string(), 6),
        Token::Comma(6),
        Token::Number("76".to_string(), 6),
        Token::RightBracket(6),
        Token::Comma(6),
        Token::Str("address".to_string(), 7),
        Token::Colon(7),
        Token::Null(7),
        Token::RightBrace(8),
        Token::EOF(9),
    ];

    assert_eq!(lexer.tokens, expected);
    assert_eq!(number_value(&lexer.tokens[7]), 30.0);
    assert_eq!(number_value(&lexer.tokens[16]), 95.5);
    assert_eq!(number_value(&lexer.tokens[18]), 88.0);
    assert_eq!(number_value(&lexer.tokens[20]), 76.0);
}

#[test]
fn empty_input_gives_only_eof() {
    assert_eq!(lex("").unwrap(), vec![Token::EOF(1)]);
    assert_eq!(lex("\n\n").unwrap(), vec![Token::EOF(3)]);
}

#[test]
fn token_lines_count_newlines_before_them() {
    let tokens = lex("[\n1,\n\n2]").unwrap();
    assert_eq!(
        tokens,
        vec![
            Token::LeftBracket(1),
            Token::Number("1".to_string(), 2),
            Token::Comma(2),
            Token::Number("2".to_string(), 4),
            Token::RightBracket(4),
            Token::EOF(4),
        ]
    );
}

#[test]
fn multi_line_string_reports_opening_line() {
    let tokens = lex("\n\"a\nb\" 1").unwrap();
    assert_eq!(
        tokens,
        vec![
            Token::Str("a\nb".to_string(), 2),
            Token::Number("1".to_string(), 3),
            Token::EOF(3),
        ]
    );
}

#[test]
fn escapes_are_decoded() {
    let tokens = lex("\"a\\nb\"").unwrap();
    assert_eq!(tokens, vec![Token::Str("a\nb".to_string(), 1), Token::EOF(1)]);
    let tokens = lex("\"\\t\\r\\\\\\\"\\q\"").unwrap();
    assert_eq!(tokens, vec![Token::Str("\t\r\\\"q".to_string(), 1), Token::EOF(1)]);
}

#[test]
fn unterminated_string_fails() {
    match lex("\n\"abc") {
        Err(LexError::UnterminatedString(m)) => assert_eq!(m, "Unterminated string at line: 2"),
        other => panic!("unexpected result {:?}", other),
    }
    assert!(matches!(lex("\"abc\\"), Err(LexError::UnterminatedString(_))));
}

#[test]
fn unknown_literal_fails() {
    match lex("truu") {
        Err(LexError::UnknownLiteral(m)) => assert_eq!(m, "Unknown literal 'truu' at line: 1"),
        other => panic!("unexpected result {:?}", other),
    }
    match lex("[nul_l2]") {
        Err(LexError::UnknownLiteral(m)) => assert_eq!(m, "Unknown literal 'nul_l2' at line: 1"),
        other => panic!("unexpected result {:?}", other),
    }
    match lex("éa") {
        Err(LexError::UnknownLiteral(m)) => assert_eq!(m, "Unknown literal 'éa' at line: 1"),
        other => panic!("unexpected result {:?}", other),
    }
}

#[test]
fn unknown_symbol_fails() {
    match lex("\n\n\n\n\n\n\n\n\n\n\n@") {
        Err(LexError::UnknownSymbol(m)) => assert_eq!(m, "Unknown symbol @ at line: 12"),
        other => panic!("unexpected result {:?}", other),
    }
}

#[test]
fn invalid_number_fails() {
    match lex("1.2.3") {
        Err(LexError::InvalidNumber(m)) => assert_eq!(m, "Invalid number 1.2.3 at line: 1"),
        other => panic!("unexpected result {:?}", other),
    }
    assert!(matches!(lex("-"), Err(LexError::InvalidNumber(_))));
    assert!(matches!(lex("1e"), Err(LexError::InvalidNumber(_))));
    assert!(matches!(lex("٣"), Err(LexError::InvalidNumber(_))));
}

#[test]
fn float_text_forms_are_accepted() {
    for text in ["0", "-1", "+1", "1.", "-.5", "1e5", "1E+5", "2.5e-3", "1.e2"] {
        let tokens = lex(text).unwrap();
        assert_eq!(tokens, vec![Token::Number(text.to_string(), 1), Token::EOF(1)]);
        assert!(text.parse::<f64>().is_ok());
    }
}

#[test]
fn keywords_lex() {
    assert_eq!(
        lex("true false null").unwrap(),
        vec![Token::Bool(true, 1), Token::Bool(false, 1), Token::Null(1), Token::EOF(1)]
    );
}

#[test]
fn describe_forms() {
    assert_eq!(Token::Str("ab".to_string(), 3).describe(), "'ab' at line: 3");
    assert_eq!(Token::RightBrace(120).describe(), "'}' at line: 120");
    assert_eq!(Token::Bool(false, 7).describe(), "'false' at line: 7");
    assert_eq!(Token::Number("1.5".to_string(), 10).describe(), "'1.5' at line: 10");
}
