use graph_hops::ParseError;
use graph_hops::parse_edge_line;

#[test]
fn test_parse_plain_pair() {
    assert_eq!(parse_edge_line(b"1 2"), Ok((1, 2)));
}

#[test]
fn test_parse_leading_and_extra_whitespace() {
    assert_eq!(parse_edge_line(b"  12\t 34 "), Ok((12, 34)));
}

#[test]
fn test_parse_trailing_tokens_ignored() {
    assert_eq!(parse_edge_line(b"1 2 anything else"), Ok((1, 2)));
}

#[test]
fn test_parse_empty_line() {
    assert_eq!(parse_edge_line(b""), Err(ParseError::MalformedLine));
}

#[test]
fn test_parse_whitespace_only_line() {
    assert_eq!(parse_edge_line(b" \t "), Err(ParseError::MalformedLine));
}

#[test]
fn test_parse_missing_second_token() {
    assert_eq!(parse_edge_line(b"7"), Err(ParseError::MalformedLine));
}

#[test]
fn test_parse_missing_token_reported_before_bad_first() {
    // Token errors are reported before digit errors, as a reader that pulls
    // both tokens first would report them.
    assert_eq!(parse_edge_line(b"x"), Err(ParseError::MalformedLine));
}

#[test]
fn test_parse_non_digit_first_token() {
    assert_eq!(parse_edge_line(b"a 2"), Err(ParseError::InvalidInteger));
}

#[test]
fn test_parse_non_digit_second_token() {
    assert_eq!(parse_edge_line(b"1 b"), Err(ParseError::InvalidInteger));
}

#[test]
fn test_parse_negative_rejected() {
    assert_eq!(parse_edge_line(b"-1 2"), Err(ParseError::InvalidInteger));
}

#[test]
fn test_parse_overflow_rejected() {
    assert_eq!(
        parse_edge_line(b"999999999999999999999999999999 2"),
        Err(ParseError::InvalidInteger)
    );
}

#[test]
fn test_parse_zero_and_large() {
    assert_eq!(parse_edge_line(b"0 4294967295"), Ok((0, 4294967295)));
}
