use felix_flow::interp::utils as parse_utils;
use felix_flow::utils;

#[test]
fn utils_extract_one_digit() {
    assert_eq!(utils::extract_digits("1+2"), ("+2", "1"));
    assert_eq!(parse_utils::extract_digits("1+2"), Ok(("+2", "1")));
}

#[test]
fn utils_extract_multiple_digits() {
    assert_eq!(utils::extract_digits("10-20"), ("-20", "10"));
    assert_eq!(parse_utils::extract_digits("10-20"), Ok(("-20", "10")));
}

#[test]
fn do_not_extract_anything_from_empty_input() {
    assert_eq!(utils::extract_digits(""), ("", ""));
}

#[test]
fn utils_extract_digits_with_no_remainder() {
    assert_eq!(utils::extract_digits("100"), ("", "100"));
    assert_eq!(parse_utils::extract_digits("100"), Ok(("", "100")));
}

#[test]
fn utils_extract_plus() {
    assert_eq!(utils::extract_op("+2"), ("2", "+"));
    assert_eq!(parse_utils::extract_op("+2"), ("2", "+"));
}

#[test]
fn utils_extract_minus() {
    assert_eq!(utils::extract_op("-10"), ("10", "-"));
    assert_eq!(parse_utils::extract_op("-10"), ("10", "-"));
}

#[test]
fn utils_extract_star() {
    assert_eq!(utils::extract_op("*3"), ("3", "*"));
    assert_eq!(parse_utils::extract_op("*3"), ("3", "*"));
}

#[test]
fn utils_extract_slash() {
    assert_eq!(utils::extract_op("/4"), ("4", "/"));
    assert_eq!(parse_utils::extract_op("/4"), ("4", "/"));
}

#[test]
fn utils_extract_spaces() {
    assert_eq!(utils::extract_whitespace("   1"), ("1", "   "));
    assert_eq!(parse_utils::extract_whitespace("   1"), ("1", "   "));
}

#[test]
fn extract_alphabetic_ident() {
    assert_eq!(parse_utils::extract_ident("abcdEFG stop"), Ok((" stop", "abcdEFG")));
}

#[test]
fn extract_alphanumeric_ident() {
    assert_eq!(parse_utils::extract_ident("foobar1()"), Ok(("()", "foobar1")));
}

#[test]
fn cannot_extract_ident_beggining_with_number() {
    assert_eq!(
        parse_utils::extract_ident("123abc"),
        Err("expected identifier".to_string()),
    );
}

#[test]
fn tag_word() {
    assert_eq!(parse_utils::tag("let", "let a"), Ok(" a"));
}

#[test]
fn do_not_extract_digits_when_input_is_invalid() {
    assert_eq!(parse_utils::extract_digits("abcde"), Err("expected digits".to_string()));
}

#[test]
fn do_not_extract_spaces1_when_input_does_not_start_with_them() {
    assert_eq!(
        parse_utils::extract_whitespace1("gagau"),
        Err("expected a space".to_string()),
    );
}

#[test]
fn extract_newlines_or_spaces() {
    assert_eq!(parse_utils::extract_whitespace("\n   \n\nabc"), ("abc", "\n   \n\n"));
}
