use rtoml::lexer::{lex, parse_ident, parse_string, skip_to_newline, Error};
use rtoml::token::Token;

#[test]
fn test_skip_to_newline() {
    let cases = vec![
        ("hello world\nnext line", Some('\n'), "newline in middle"),
        ("", None, "empty string"),
        ("no newline here", None, "no newline"),
        ("\nstarts with newline", Some('\n'), "starts with newline"),
    ];

    for (input, expected, desc) in cases {
        let j = skip_to_newline(input, 0);
        let peeked = input.chars().nth(j);
        assert_eq!(peeked, expected, "Failed case: {}", desc);
    }
}

#[test]
fn test_parse_string() {
    let cases = vec![
        ("\"hello\"", Some("hello".to_string()), "simple string"),
        (
            "\"hello world!\"",
            Some("hello world!".to_string()),
            "string with spaces",
        ),
        ("\"\"", Some("".to_string()), "empty string"),
        ("\"unclosed", None, "missing closing quote"),
        ("noquote", None, "missing opening quote"),
        ("", None, "empty iterator"),
    ];

    for (input, expected, desc) in cases {
        let result = parse_string(input, 0);

        match expected {
            Some(ref s) => assert_eq!(result.unwrap().0, *s, "Failed case: {}", desc),
            None => assert!(result.is_err(), "Failed case: {}", desc),
        }
    }
}

#[test]
fn test_parse_ident() {
    let (ident, _) = parse_ident("hello", 0).unwrap();
    assert_eq!(ident, "hello");

    let (ident, j) = parse_ident("hello world", 0).unwrap();
    assert_eq!(ident, "hello");
    assert_eq!("hello world".chars().nth(j), Some(' '));

    let (ident, j) = parse_ident("hello\nworld", 0).unwrap();
    assert_eq!(ident, "hello");
    assert_eq!("hello\nworld".chars().nth(j), Some('\n'));

    let (ident, _) = parse_ident("_foo_bar", 0).unwrap();
    assert_eq!(ident, "_foo_bar");

    assert!(parse_ident("hello!", 0).is_err());

    let (ident, _) = parse_ident("", 0).unwrap();
    assert_eq!(ident, "");

    let (ident, j) = parse_ident(" foo", 0).unwrap();
    assert_eq!(ident, "");
    assert_eq!(" foo".chars().nth(j), Some(' '));
}

#[test]
fn test_lex() {
    let input = r#"
        # Comment line
        key = "value"
        number = 42
        negative = -7
        flag_true = true
        flag_false = false
        "#;

    let tokens = lex(input).expect("Lexing should succeed");

    let expected = vec![
        Token::NewLine,
        Token::NewLine,
        Token::Ident("key".to_string()),
        Token::Equal,
        Token::String("value".to_string()),
        Token::NewLine,
        Token::Ident("number".to_string()),
        Token::Equal,
        Token::Int(42),
        Token::NewLine,
        Token::Ident("negative".to_string()),
        Token::Equal,
        Token::Int(-7),
        Token::NewLine,
        Token::Ident("flag_true".to_string()),
        Token::Equal,
        Token::Bool(true),
        Token::NewLine,
        Token::Ident("flag_false".to_string()),
        Token::Equal,
        Token::Bool(false),
        Token::NewLine,
    ];

    assert_eq!(tokens, expected);

    let err_input = "key @ value";
    let err = lex(err_input).unwrap_err();
    assert!(matches!(err, Error::UnknownChar(_)));

    let empty_tokens = lex("").expect("Lexing empty string should succeed");
    assert!(empty_tokens.is_empty());
}
