use rtoml::lexer;
use rtoml::parse;
use rtoml::parser::{parse_tokens, Value};
use rtoml::token::{Decimal, Token};
use rtoml::ParseErr;

#[test]
fn test_empty_input_parses_to_empty_mapping() {
    let doc = parse("").expect("empty input should parse");
    assert_eq!(doc.len(), 0);
    assert!(doc.get("anything").is_none());
}

#[test]
fn test_end_to_end_example() {
    let input = "me = \"hello\"\n# comment\ntoo = 1\nneg_two = -2\nflag_true = true\nflag_false = false\nf = 1.5\n";
    let doc = parse(input).expect("document should parse");
    assert_eq!(doc.len(), 6);
    assert_eq!(doc.get("me"), Some(&Value::String("hello".to_string())));
    assert_eq!(doc.get("too"), Some(&Value::Int(1)));
    assert_eq!(doc.get("neg_two"), Some(&Value::Int(-2)));
    assert_eq!(doc.get("flag_true"), Some(&Value::Bool(true)));
    assert_eq!(doc.get("flag_false"), Some(&Value::Bool(false)));
    let expected_float = Decimal { neg: false, int_digits: vec![1], frac_digits: vec![5] };
    assert_eq!(doc.get("f"), Some(&Value::Float(expected_float)));
}

#[test]
fn test_comments_do_not_affect_mapping() {
    let plain = "a = 1\nb = \"x\"\nc = true\n";
    let commented = "# leading comment\na = 1 # trailing comment\nb = \"x\"# right after a string\nc = true\n# closing comment";
    let doc1 = parse(plain).expect("plain document should parse");
    let doc2 = parse(commented).expect("commented document should parse");
    assert_eq!(doc1.len(), doc2.len());
    assert_eq!(doc1.get("a"), doc2.get("a"));
    assert_eq!(doc1.get("b"), doc2.get("b"));
    assert_eq!(doc1.get("c"), doc2.get("c"));
}

#[test]
fn test_blank_lines_do_not_affect_mapping() {
    let plain = "a = 1\nb = 2\n";
    let spaced = "\n\na = 1\n\n\n\nb = 2\n\n";
    let doc1 = parse(plain).expect("plain document should parse");
    let doc2 = parse(spaced).expect("spaced document should parse");
    assert_eq!(doc1.len(), doc2.len());
    assert_eq!(doc1.get("a"), doc2.get("a"));
    assert_eq!(doc1.get("b"), doc2.get("b"));
}

#[test]
fn test_malformed_inputs_fail_with_expected_kind() {
    assert_eq!(
        parse("key @ value").unwrap_err(),
        ParseErr::Lexical(lexer::Error::UnknownChar('@'))
    );
    assert_eq!(
        parse("\"unclosed").unwrap_err(),
        ParseErr::Lexical(lexer::Error::UnableToParseString)
    );
    assert!(matches!(
        parse("x = ").unwrap_err(),
        ParseErr::Structure(rtoml::parser::Error::MissingValue)
    ));
    assert!(matches!(
        parse("x 1").unwrap_err(),
        ParseErr::Structure(rtoml::parser::Error::MissingEqual)
    ));
}

#[test]
fn test_structural_error_kinds() {
    assert!(matches!(
        parse("= 1\n").unwrap_err(),
        ParseErr::Structure(rtoml::parser::Error::UnexpectedToken)
    ));
    assert!(matches!(
        parse("x = 1 2\n").unwrap_err(),
        ParseErr::Structure(rtoml::parser::Error::MissingTerminator)
    ));
    assert!(matches!(
        parse("x = y\n").unwrap_err(),
        ParseErr::Structure(rtoml::parser::Error::MissingValue)
    ));
}

#[test]
fn test_lexical_error_kinds() {
    assert_eq!(
        parse("x = a!b\n").unwrap_err(),
        ParseErr::Lexical(lexer::Error::UnableToParseIdent)
    );
    assert_eq!(
        parse("x = 12a\n").unwrap_err(),
        ParseErr::Lexical(lexer::Error::UnableToParseInt)
    );
    assert_eq!(
        parse("x = 1.2.3\n").unwrap_err(),
        ParseErr::Lexical(lexer::Error::UnableToParseFloat)
    );
    assert_eq!(
        parse("x = .\n").unwrap_err(),
        ParseErr::Lexical(lexer::Error::UnableToParseFloat)
    );
    assert_eq!(
        parse("x = -\n").unwrap_err(),
        ParseErr::Lexical(lexer::Error::UnableToParseInt)
    );
}

#[test]
fn test_duplicate_key_last_write_wins() {
    let doc = parse("a = 1\na = 2\n").expect("document should parse");
    assert_eq!(doc.len(), 1);
    assert_eq!(doc.get("a"), Some(&Value::Int(2)));
}

#[test]
fn test_value_without_trailing_newline_is_accepted() {
    let doc = parse("a = 1").expect("end of input terminates the assignment");
    assert_eq!(doc.len(), 1);
    assert_eq!(doc.get("a"), Some(&Value::Int(1)));
}

#[test]
fn test_deterministic_parse() {
    let input = "a = 1\nb = \"two\"\n";
    let doc1 = parse(input).expect("should parse");
    let doc2 = parse(input).expect("should parse");
    assert_eq!(doc1.len(), doc2.len());
    assert_eq!(doc1.get("a"), doc2.get("a"));
    assert_eq!(doc1.get("b"), doc2.get("b"));
}

#[test]
fn test_parse_tokens_directly() {
    let tokens = vec![
        Token::Ident("k".to_string()),
        Token::Equal,
        Token::String("v".to_string()),
    ];
    let doc = parse_tokens(&tokens).expect("tokens should map");
    assert_eq!(doc.len(), 1);
    assert_eq!(doc.get("k"), Some(&Value::String("v".to_string())));

    let bad = vec![Token::Ident("k".to_string()), Token::Equal];
    assert!(matches!(
        parse_tokens(&bad).unwrap_err(),
        rtoml::parser::Error::MissingValue
    ));
}
