use puzzles::lines::{parse_i64, parse_lines, ParseIntError};
use puzzles::InvalidArguments;

#[test]
fn test_parse_lines_all_ok() {
    let input = ["1", "+16", "-42"];

    assert_eq!(parse_lines(&input).unwrap(), vec![1, 16, -42]);
}

#[test]
fn test_parse_lines_all_malformed() {
    let input = ["123very", "bad", "inputs666"];
    let parsed = parse_lines(&input);

    assert!(parsed.is_err());
    let err = parsed.unwrap_err();

    assert!(
        err.message().starts_with("invalid digit found in string")
    );
}

#[test]
fn test_parse_lines_some_malformed() {
    let input = ["123", "-3-a", "+2"];
    let parsed = parse_lines(&input);

    assert!(parsed.is_err());
    let err = parsed.unwrap_err();

    assert!(
        err.message().starts_with("invalid digit found in string")
    );
}

#[test]
fn test_parse_lines_works_with_vector_of_strings() {
    // testing generic code sanity
    let input: Vec<String> = vec!["1".into(), "+16".into(), "-42".into()];
    let lines: Vec<&str> = input.iter().map(|s| s.as_str()).collect();

    assert_eq!(parse_lines(&lines).unwrap(), vec![1, 16, -42]);
}

#[test]
fn test_parse_i64_error_variants() {
    assert_eq!(parse_i64("").unwrap_err(), ParseIntError::Empty);
    assert_eq!(parse_i64("+").unwrap_err(), ParseIntError::InvalidDigit);
    assert_eq!(parse_i64("12a").unwrap_err(), ParseIntError::InvalidDigit);
    assert_eq!(
        parse_i64("9223372036854775808").unwrap_err(),
        ParseIntError::PosOverflow
    );
    assert_eq!(
        parse_i64("-9223372036854775809").unwrap_err(),
        ParseIntError::NegOverflow
    );
    // overflow in the digits wins over an invalid character after them
    assert_eq!(
        parse_i64("99999999999999999999x").unwrap_err(),
        ParseIntError::PosOverflow
    );
    assert_eq!(
        parse_i64("-99999999999999999999x").unwrap_err(),
        ParseIntError::NegOverflow
    );
    // digits still in range when the invalid character comes
    assert_eq!(
        parse_i64("-9223372036854775808x").unwrap_err(),
        ParseIntError::InvalidDigit
    );
    assert_eq!(
        parse_i64("").unwrap_err().message(),
        "cannot parse integer from empty string"
    );
}

#[test]
fn test_parse_i64_boundaries() {
    assert_eq!(parse_i64("9223372036854775807").unwrap(), i64::MAX);
    assert_eq!(parse_i64("-9223372036854775808").unwrap(), i64::MIN);
    assert_eq!(parse_i64("+0"), Ok(0));
    assert_eq!(parse_i64("-0"), Ok(0));
}

#[test]
fn test_invalid_arguments_message() {
    let err = InvalidArguments { num_args: 2 };
    assert_eq!(err.message(), "Invalid number of arguments: 2");
}
