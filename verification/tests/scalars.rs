use json_tree::{
    number_from, parse_boolean, parse_json, parse_null, parse_number, parse_string,
    parse_string_inner, ErrorKind, JsonNode, ParseError,
};

fn mismatch(input: &str, kind: ErrorKind) -> ParseError<'_> {
    ParseError { input, kind }
}

#[test]
fn null_leaves_what_follows() {
    assert_eq!(parse_null("null, 1"), Ok((", 1", JsonNode::Null)));
    assert_eq!(parse_null("nullnull"), Ok(("null", JsonNode::Null)));
}

#[test]
fn null_is_case_sensitive_and_untrimmed() {
    assert_eq!(parse_null("Null"), Err(mismatch("Null", ErrorKind::Tag)));
    assert_eq!(parse_null(" null"), Err(mismatch(" null", ErrorKind::Tag)));
    assert_eq!(parse_null("nul"), Err(mismatch("nul", ErrorKind::Tag)));
    assert_eq!(parse_null(""), Err(mismatch("", ErrorKind::Tag)));
}

#[test]
fn boolean_leaves_what_follows() {
    assert_eq!(parse_boolean("true]"), Ok(("]", JsonNode::Boolean(true))));
    assert_eq!(parse_boolean("falsetto"), Ok(("tto", JsonNode::Boolean(false))));
}

#[test]
fn boolean_rejects_other_text() {
    assert_eq!(parse_boolean("True"), Err(mismatch("True", ErrorKind::Tag)));
    assert_eq!(parse_boolean("fals"), Err(mismatch("fals", ErrorKind::Tag)));
    assert_eq!(parse_boolean("null"), Err(mismatch("null", ErrorKind::Tag)));
    assert_eq!(parse_boolean(""), Err(mismatch("", ErrorKind::Tag)));
}

#[test]
fn string_is_taken_verbatim() {
    assert_eq!(parse_string_inner("\"abc\""), Ok(("", "abc")));
    assert_eq!(parse_string_inner("\"\""), Ok(("", "")));
    assert_eq!(parse_string_inner("\"a b\tc\" rest"), Ok((" rest", "a b\tc")));
    assert_eq!(parse_string("\"héllo ✓\"!"), Ok(("!", JsonNode::String("héllo ✓"))));
}

#[test]
fn string_has_no_escapes() {
    // The backslash is an ordinary character: the quote behind it ends the string.
    assert_eq!(parse_string_inner("\"a\\\"b\""), Ok(("b\"", "a\\")));
    assert_eq!(parse_string("\"a\\nb\""), Ok(("", JsonNode::String("a\\nb"))));
}

#[test]
fn string_without_opening_quote_fails() {
    assert_eq!(parse_string_inner("abc\""), Err(mismatch("abc\"", ErrorKind::Tag)));
    assert_eq!(parse_string(""), Err(mismatch("", ErrorKind::Tag)));
}

#[test]
fn string_without_closing_quote_fails() {
    assert_eq!(parse_string_inner("\"abc"), Err(mismatch("abc", ErrorKind::TakeUntil)));
    assert_eq!(parse_string("\""), Err(mismatch("", ErrorKind::TakeUntil)));
}

#[test]
fn number_forms() {
    assert_eq!(parse_number("0"), Ok(("", JsonNode::Number(0f64.to_bits()))));
    assert_eq!(parse_number("-7"), Ok(("", JsonNode::Number((-7f64).to_bits()))));
    assert_eq!(parse_number("+5"), Ok(("", JsonNode::Number(5f64.to_bits()))));
    assert_eq!(parse_number("12.5"), Ok(("", JsonNode::Number(12.5f64.to_bits()))));
    assert_eq!(parse_number("1."), Ok(("", JsonNode::Number(1f64.to_bits()))));
    assert_eq!(parse_number("2E-2"), Ok(("", JsonNode::Number(0.02f64.to_bits()))));
    assert_eq!(parse_number("-.5e1"), Ok(("", JsonNode::Number((-5f64).to_bits()))));
}

#[test]
fn number_leaves_what_follows() {
    assert_eq!(parse_number("42abc"), Ok(("abc", JsonNode::Number(42f64.to_bits()))));
    assert_eq!(parse_number("1.5, 2"), Ok((", 2", JsonNode::Number(1.5f64.to_bits()))));
    assert_eq!(parse_number("1.2.3"), Ok((".3", JsonNode::Number(1.2f64.to_bits()))));
}

#[test]
fn number_is_not_range_checked() {
    assert_eq!(parse_number("1e999"), Ok(("", JsonNode::Number(f64::INFINITY.to_bits()))));
}

#[test]
fn number_mismatch() {
    assert_eq!(parse_number("abc"), Err(mismatch("abc", ErrorKind::Float)));
    assert_eq!(parse_number(""), Err(mismatch("", ErrorKind::Float)));
    assert_eq!(parse_number("-"), Err(mismatch("-", ErrorKind::Float)));
    assert_eq!(parse_number("."), Err(mismatch(".", ErrorKind::Float)));
    assert_eq!(parse_number(" 1"), Err(mismatch(" 1", ErrorKind::Float)));
}

#[test]
fn number_needs_digits_or_a_point_first() {
    assert_eq!(parse_number("nan"), Err(mismatch("nan", ErrorKind::Float)));
    assert_eq!(parse_number("inf"), Err(mismatch("inf", ErrorKind::Float)));
    assert_eq!(parse_number("Infinity"), Err(mismatch("Infinity", ErrorKind::Float)));
    assert_eq!(parse_json("nan"), Err(mismatch("nan", ErrorKind::Tag)));
}

#[test]
fn exponent_without_digits_is_no_number() {
    assert_eq!(parse_number("1e"), Err(mismatch("1e", ErrorKind::Float)));
    assert_eq!(parse_number("1.5E+"), Err(mismatch("1.5E+", ErrorKind::Float)));
    assert_eq!(parse_json("2E+x"), Err(mismatch("2E+x", ErrorKind::Tag)));
    assert_eq!(parse_number("1ex"), Err(mismatch("1ex", ErrorKind::Float)));
}

#[test]
fn number_from_a_reading() {
    assert_eq!(
        number_from("7 rest", Some((" rest", 7f64.to_bits()))),
        Ok((" rest", JsonNode::Number(7f64.to_bits())))
    );
    assert_eq!(number_from("here", None), Err(mismatch("here", ErrorKind::Float)));
}

#[test]
fn any_value_dispatches_on_the_first_match() {
    assert_eq!(parse_json("null"), Ok(("", JsonNode::Null)));
    assert_eq!(parse_json("true"), Ok(("", JsonNode::Boolean(true))));
    assert_eq!(parse_json("false"), Ok(("", JsonNode::Boolean(false))));
    assert_eq!(parse_json("\"s\""), Ok(("", JsonNode::String("s"))));
    assert_eq!(parse_json("3.25"), Ok(("", JsonNode::Number(3.25f64.to_bits()))));
    assert_eq!(parse_json("[]"), Ok(("", JsonNode::Array(Box::new(vec![])))));
    assert_eq!(parse_json("truex"), Ok(("x", JsonNode::Boolean(true))));
}

#[test]
fn no_value_matched() {
    assert_eq!(parse_json("something"), Err(mismatch("something", ErrorKind::Tag)));
    assert_eq!(parse_json(""), Err(mismatch("", ErrorKind::Tag)));
    assert_eq!(parse_json(" 1"), Err(mismatch(" 1", ErrorKind::Tag)));
    assert_eq!(parse_json("\"open"), Err(mismatch("\"open", ErrorKind::Tag)));
    assert_eq!(parse_json("[1"), Err(mismatch("[1", ErrorKind::Tag)));
}
