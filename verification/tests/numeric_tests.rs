use rtoml::lexer::{parse_num, Error};
use rtoml::parse;
use rtoml::parser::Value;
use rtoml::token::{Decimal, Token};

fn decimal_to_f64(d: &Decimal) -> f64 {
    let mut v = 0.0f64;
    for &digit in &d.int_digits {
        v = v * 10.0 + digit as f64;
    }
    let mut frac = 0.0f64;
    for &digit in d.frac_digits.iter().rev() {
        frac = (frac + digit as f64) / 10.0;
    }
    let r = v + frac;
    if d.neg { -r } else { r }
}

#[test]
fn test_boundary_numeric_forms() {
    // "11." is the float 11.0
    match parse_num("11.", 0).expect("trailing dot is a valid float") {
        (Token::Float(d), j) => {
            assert_eq!(j, 3);
            assert_eq!(d.neg, false);
            assert_eq!(d.int_digits, vec![1, 1]);
            assert_eq!(d.frac_digits, Vec::<u8>::new());
            assert_eq!(decimal_to_f64(&d), 11.0);
        },
        other => panic!("expected a float token, got {:?}", other),
    }

    // ".11" is the float 0.11
    match parse_num(".11", 0).expect("leading dot is a valid float") {
        (Token::Float(d), j) => {
            assert_eq!(j, 3);
            assert_eq!(d.neg, false);
            assert_eq!(d.int_digits, Vec::<u8>::new());
            assert_eq!(d.frac_digits, vec![1, 1]);
            assert!((decimal_to_f64(&d) - 0.11).abs() < 1e-12);
        },
        other => panic!("expected a float token, got {:?}", other),
    }

    // "-7" is the integer -7
    assert_eq!(parse_num("-7", 0).unwrap(), (Token::Int(-7), 2));

    // "0" is the integer 0
    assert_eq!(parse_num("0", 0).unwrap(), (Token::Int(0), 1));
}

#[test]
fn test_negative_float_and_half() {
    match parse_num("-2.5 ", 0).unwrap() {
        (Token::Float(d), j) => {
            assert_eq!(j, 4);
            assert!(d.neg);
            assert_eq!(decimal_to_f64(&d), -2.5);
        },
        other => panic!("expected a float token, got {:?}", other),
    }
}

#[test]
fn test_int_range_limits() {
    assert_eq!(
        parse_num("9223372036854775807", 0).unwrap(),
        (Token::Int(i64::MAX), 19)
    );
    assert_eq!(
        parse_num("-9223372036854775808", 0).unwrap(),
        (Token::Int(i64::MIN), 20)
    );
    assert_eq!(
        parse_num("9223372036854775808", 0).unwrap_err(),
        Error::UnableToParseInt
    );
    assert_eq!(
        parse_num("-9223372036854775809", 0).unwrap_err(),
        Error::UnableToParseInt
    );
}

#[test]
fn test_leading_zeros() {
    assert_eq!(parse_num("007", 0).unwrap(), (Token::Int(7), 3));
    assert_eq!(
        parse_num("00000000000000000000000042", 0).unwrap(),
        (Token::Int(42), 26)
    );
}

#[test]
fn test_floats_through_parse() {
    let doc = parse("float_zero = 11.\nfloat_one = 1.1\nfloat_two = .11\n")
        .expect("floats should parse");
    assert_eq!(doc.len(), 3);
    match doc.get("float_one") {
        Some(Value::Float(d)) => {
            assert_eq!(d.int_digits, vec![1]);
            assert_eq!(d.frac_digits, vec![1]);
        },
        other => panic!("expected a float value, got {:?}", other),
    }
}
