use json_tree::{parse_array, parse_json, parse_object, ErrorKind, JsonNode, JsonObject, ParseError};

fn mismatch(input: &str, kind: ErrorKind) -> ParseError<'_> {
    ParseError { input, kind }
}

fn number(value: f64) -> JsonNode<'static> {
    JsonNode::Number(value.to_bits())
}

fn array(items: Vec<JsonNode<'_>>) -> JsonNode<'_> {
    JsonNode::Array(Box::new(items))
}

fn object<'a>(entries: Vec<(&'a str, JsonNode<'a>)>) -> JsonNode<'a> {
    let mut members = JsonObject::new();
    for (key, value) in entries {
        members = members.with_entry(key, value);
    }
    JsonNode::Object(Box::new(members))
}

#[test]
fn array_keeps_source_order() {
    assert_eq!(
        parse_array("[3,1,2,1]"),
        Ok(("", array(vec![number(3.0), number(1.0), number(2.0), number(1.0)])))
    );
    assert_eq!(
        parse_array("[1,\"x\",null,true,[],{}]"),
        Ok((
            "",
            array(vec![
                number(1.0),
                JsonNode::String("x"),
                JsonNode::Null,
                JsonNode::Boolean(true),
                array(vec![]),
                object(vec![]),
            ])
        ))
    );
}

#[test]
fn array_allows_spaces_around_commas_only() {
    assert_eq!(
        parse_array("[1 ,\t2\r\n,\n 3]"),
        Ok(("", array(vec![number(1.0), number(2.0), number(3.0)])))
    );
    assert_eq!(parse_array("[ 1]"), Err(mismatch(" 1]", ErrorKind::Tag)));
    assert_eq!(parse_array("[1 ]"), Err(mismatch(" ]", ErrorKind::Tag)));
    assert_eq!(parse_array("[ ]"), Err(mismatch(" ]", ErrorKind::Tag)));
}

#[test]
fn array_leaves_what_follows() {
    assert_eq!(parse_array("[] tail"), Ok((" tail", array(vec![]))));
    assert_eq!(parse_array("[[1]]]"), Ok(("]", array(vec![array(vec![number(1.0)])]))));
}

#[test]
fn array_without_opening_bracket_fails() {
    assert_eq!(parse_array("1]"), Err(mismatch("1]", ErrorKind::Tag)));
    assert_eq!(parse_array(""), Err(mismatch("", ErrorKind::Tag)));
    assert_eq!(parse_array("{}"), Err(mismatch("{}", ErrorKind::Tag)));
}

#[test]
fn array_without_closing_bracket_fails() {
    assert_eq!(parse_array("["), Err(mismatch("", ErrorKind::Tag)));
    assert_eq!(parse_array("[1,2"), Err(mismatch("", ErrorKind::Tag)));
    assert_eq!(parse_array("[1 2]"), Err(mismatch(" 2]", ErrorKind::Tag)));
}

#[test]
fn array_with_a_bad_item_fails_whole() {
    // A comma without a value behind it is left unread, so the bracket is missing there.
    assert_eq!(parse_array("[1,]"), Err(mismatch(",]", ErrorKind::Tag)));
    assert_eq!(parse_array("[1, x]"), Err(mismatch(", x]", ErrorKind::Tag)));
    assert_eq!(parse_array("[x]"), Err(mismatch("x]", ErrorKind::Tag)));
    assert_eq!(parse_array("[[1,]]"), Err(mismatch("[1,]]", ErrorKind::Tag)));
}

#[test]
fn array_with_a_broken_number_fails_at_the_missing_bracket() {
    assert_eq!(parse_array("[1e]"), Err(mismatch("1e]", ErrorKind::Tag)));
    assert_eq!(parse_array("[1, 2e+]"), Err(mismatch(", 2e+]", ErrorKind::Tag)));
    assert_eq!(parse_json("[[3E]]"), Err(mismatch("[[3E]]", ErrorKind::Tag)));
}

#[test]
fn object_keeps_source_order() {
    let parsed = parse_object("{\"z\":1,\"a\":2,\"m\":3}");
    assert_eq!(
        parsed,
        Ok(("", object(vec![("z", number(1.0)), ("a", number(2.0)), ("m", number(3.0))])))
    );
    match parsed {
        Ok((_, JsonNode::Object(members))) => {
            assert_eq!(members.len(), 3);
            assert_eq!(members.entry_at(0), Some(("z", &number(1.0))));
            assert_eq!(members.entry_at(1), Some(("a", &number(2.0))));
            assert_eq!(members.entry_at(2), Some(("m", &number(3.0))));
            assert_eq!(members.entry_at(3), None);
        }
        other => panic!("not an object: {:?}", other),
    }
}

#[test]
fn object_allows_spaces_around_keys_and_values() {
    assert_eq!(
        parse_object("{ \"a\" : 1 , \"b\"\t:\n[true] }"),
        Ok(("", object(vec![("a", number(1.0)), ("b", array(vec![JsonNode::Boolean(true)]))])))
    );
    assert_eq!(parse_object("{ }"), Err(mismatch(" }", ErrorKind::Tag)));
}

#[test]
fn object_leaves_what_follows() {
    assert_eq!(parse_object("{}}"), Ok(("}", object(vec![]))));
    assert_eq!(
        parse_object("{\"k\":null} and more"),
        Ok((" and more", object(vec![("k", JsonNode::Null)])))
    );
}

#[test]
fn object_nests() {
    assert_eq!(
        parse_json("{\"a\":{\"b\":{\"c\":[{}]}}}"),
        Ok((
            "",
            object(vec![(
                "a",
                object(vec![("b", object(vec![("c", array(vec![object(vec![])]))]))])
            )])
        ))
    );
}

#[test]
fn object_without_opening_brace_fails() {
    assert_eq!(parse_object("\"a\":1}"), Err(mismatch("\"a\":1}", ErrorKind::Tag)));
    assert_eq!(parse_object(""), Err(mismatch("", ErrorKind::Tag)));
    assert_eq!(parse_object("[]"), Err(mismatch("[]", ErrorKind::Tag)));
}

#[test]
fn object_with_a_bad_entry_fails_whole() {
    // the key is no quoted string
    assert_eq!(parse_object("{a:1}"), Err(mismatch("a:1}", ErrorKind::Tag)));
    assert_eq!(parse_object("{\"a:1}"), Err(mismatch("\"a:1}", ErrorKind::Tag)));
    // the colon is missing
    assert_eq!(parse_object("{\"a\" 1}"), Err(mismatch("\"a\" 1}", ErrorKind::Tag)));
    // the value does not parse
    assert_eq!(parse_object("{\"a\":}"), Err(mismatch("\"a\":}", ErrorKind::Tag)));
    // a comma without an entry behind it is left unread
    assert_eq!(parse_object("{\"a\":1,}"), Err(mismatch(",}", ErrorKind::Tag)));
}

#[test]
fn object_without_closing_brace_fails() {
    assert_eq!(parse_object("{"), Err(mismatch("", ErrorKind::Tag)));
    assert_eq!(parse_object("{\"a\":1"), Err(mismatch("", ErrorKind::Tag)));
    assert_eq!(parse_object("{\"a\":1 \"b\":2}"), Err(mismatch("\"b\":2}", ErrorKind::Tag)));
}

#[test]
fn object_with_a_broken_number_fails_at_the_missing_brace() {
    assert_eq!(parse_object("{\"a\": 1e}"), Err(mismatch("\"a\": 1e}", ErrorKind::Tag)));
    assert_eq!(
        parse_object("{\"a\": 1, \"b\": [2e]}"),
        Err(mismatch(", \"b\": [2e]}", ErrorKind::Tag))
    );
}

#[test]
fn duplicate_key_keeps_first_place_and_last_value() {
    let parsed = parse_object("{\"a\": 1, \"a\": 2}");
    assert_eq!(parsed, Ok(("", object(vec![("a", number(2.0))]))));
    match parsed {
        Ok((_, JsonNode::Object(members))) => {
            assert_eq!(members.len(), 1);
            assert_eq!(members.get("a"), Some(&number(2.0)));
        }
        other => panic!("not an object: {:?}", other),
    }

    let parsed = parse_object("{\"a\": 1, \"b\": 2, \"a\": 3, \"c\": 4, \"b\": 5}");
    match parsed {
        Ok(("", JsonNode::Object(members))) => {
            assert_eq!(members.len(), 3);
            assert_eq!(members.entry_at(0), Some(("a", &number(3.0))));
            assert_eq!(members.entry_at(1), Some(("b", &number(5.0))));
            assert_eq!(members.entry_at(2), Some(("c", &number(4.0))));
        }
        other => panic!("not an object: {:?}", other),
    }
}

#[test]
fn reparsing_gives_an_equal_tree() {
    let text = "{\"a\": [1, 2.5, {\"b\": null}], \"c\": \"d\", \"a\": false}";
    let copy = String::from(text);
    let first = parse_json(text);
    let second = parse_json(text);
    let third = parse_json(copy.as_str());
    assert!(first.is_ok());
    assert_eq!(first, second);
    assert_eq!(first, third);
}

#[test]
fn nested_empty_arrays_parse_at_every_depth() {
    for depth in 1..=200usize {
        let text = format!("{}{}", "[".repeat(depth), "]".repeat(depth));
        let mut expected = array(vec![]);
        for _ in 1..depth {
            expected = array(vec![expected]);
        }
        assert_eq!(parse_json(&text), Ok(("", expected)));
    }
}

#[test]
fn unbalanced_nesting_fails() {
    assert_eq!(parse_json("[[[]]"), Err(mismatch("[[[]]", ErrorKind::Tag)));
    assert_eq!(parse_json("[[]]]"), Ok(("]", array(vec![array(vec![])]))));
}
