use bsp::decimal::{parse_u64, parse_usize, DecimalError};
use bsp::options::parse_error_description;

fn kind_of(e: &std::num::IntErrorKind) -> DecimalError {
    match e {
        std::num::IntErrorKind::Empty => DecimalError::Empty,
        std::num::IntErrorKind::InvalidDigit => DecimalError::InvalidDigit,
        std::num::IntErrorKind::PosOverflow => DecimalError::PosOverflow,
        other => panic!("not an error of an unsigned number: {:?}", other),
    }
}

fn samples() -> Vec<&'static str> {
    vec![
        "", "0", "1", "42", "007", "+5", "+", "-", "-5", "+-5", "++5", "5+", " 5", "5 ", "1e3",
        "0x10", "abc", "12a", "a12", "18446744073709551615", "18446744073709551616",
        "18446744073709551620", "99999999999999999999", "99999999999999999999x",
        "1844674407370955161x", "184467440737095516150", "+18446744073709551615",
        "+18446744073709551616", "000000000000000000000000000001", "٣", "1٣", "1_000", "1.0",
    ]
}

#[test]
fn parse_u64_agrees_with_the_standard_parser() {
    for s in samples() {
        let expected = s.parse::<u64>().map_err(|e| kind_of(e.kind()));
        assert_eq!(parse_u64(s), expected, "input {:?}", s);
    }
}

#[test]
fn parse_usize_agrees_with_the_standard_parser() {
    for s in samples() {
        assert_eq!(parse_usize(s), s.parse::<usize>().ok(), "input {:?}", s);
    }
}

#[test]
fn parse_u64_values() {
    assert_eq!(parse_u64("0"), Ok(0));
    assert_eq!(parse_u64("1024"), Ok(1024));
    assert_eq!(parse_u64("+17"), Ok(17));
    assert_eq!(parse_u64("18446744073709551615"), Ok(u64::MAX));
}

#[test]
fn parse_u64_errors() {
    assert_eq!(parse_u64(""), Err(DecimalError::Empty));
    assert_eq!(parse_u64("+"), Err(DecimalError::InvalidDigit));
    assert_eq!(parse_u64("-1"), Err(DecimalError::InvalidDigit));
    assert_eq!(parse_u64("12x"), Err(DecimalError::InvalidDigit));
    assert_eq!(parse_u64("18446744073709551616"), Err(DecimalError::PosOverflow));
    assert_eq!(parse_u64("99999999999999999999x"), Err(DecimalError::PosOverflow));
    assert_eq!(parse_u64("1844674407370955161x"), Err(DecimalError::InvalidDigit));
}

#[test]
fn error_descriptions_are_those_of_the_standard_parser() {
    for s in ["", "x", "18446744073709551616"] {
        let e = s.parse::<u64>().unwrap_err();
        assert_eq!(
            parse_error_description(kind_of(e.kind())),
            format!("parse error: {:?}", e)
        );
    }
}
