use quicksort::parse::{parse_int_list, ParseError};

#[test]
fn parses_a_plain_list() {
    assert_eq!(parse_int_list("5,3,8,1"), Ok(vec![5, 3, 8, 1]));
}

#[test]
fn parses_a_single_number() {
    assert_eq!(parse_int_list("7"), Ok(vec![7]));
}

#[test]
fn parses_signs() {
    assert_eq!(parse_int_list("+5,-3,0"), Ok(vec![5, -3, 0]));
}

#[test]
fn parses_leading_zeroes() {
    assert_eq!(parse_int_list("007,010"), Ok(vec![7, 10]));
}

#[test]
fn parses_the_extremes_of_the_range() {
    assert_eq!(
        parse_int_list("2147483647,-2147483648"),
        Ok(vec![i32::MAX, i32::MIN])
    );
}

#[test]
fn rejects_letters() {
    assert_eq!(parse_int_list("a,b"), Err(ParseError { token_index: 0 }));
}

#[test]
fn reports_the_first_bad_token() {
    assert_eq!(parse_int_list("1,x,2"), Err(ParseError { token_index: 1 }));
}

#[test]
fn rejects_the_empty_text() {
    assert_eq!(parse_int_list(""), Err(ParseError { token_index: 0 }));
}

#[test]
fn rejects_an_empty_token() {
    assert_eq!(parse_int_list("5,,3"), Err(ParseError { token_index: 1 }));
}

#[test]
fn rejects_a_trailing_comma() {
    assert_eq!(parse_int_list("5,3,"), Err(ParseError { token_index: 2 }));
}

#[test]
fn rejects_a_bare_sign() {
    assert_eq!(parse_int_list("-"), Err(ParseError { token_index: 0 }));
    assert_eq!(parse_int_list("+"), Err(ParseError { token_index: 0 }));
}

#[test]
fn rejects_inner_spaces() {
    assert_eq!(parse_int_list("1, 2"), Err(ParseError { token_index: 1 }));
}

#[test]
fn rejects_values_beyond_the_range() {
    assert_eq!(
        parse_int_list("2147483648"),
        Err(ParseError { token_index: 0 })
    );
    assert_eq!(
        parse_int_list("-2147483649"),
        Err(ParseError { token_index: 0 })
    );
    assert_eq!(
        parse_int_list("99999999999999999999"),
        Err(ParseError { token_index: 0 })
    );
}

#[test]
fn rejects_non_ascii_text() {
    assert_eq!(
        parse_int_list("\u{FF11}\u{FF12}"),
        Err(ParseError { token_index: 0 })
    );
}
