//! The productions: one function for each, from text to a node and the
//! remainder.

use crate::error::{ErrorKind, Mismatch, ParseError};
use crate::grammar::{
    array_outcome, boolean_outcome, entries_outcome, entry_outcome, first_index, items_outcome,
    json_outcome, key_outcome, lemma_first_index, lemma_key_leaves_suffix, lemma_skip_is_suffix,
    lemma_skip_spaces_is_suffix, lemma_string_leaves_suffix, lemma_suffix_of_suffix, more_entries,
    more_items, null_outcome, number_outcome, object_outcome, starts_number, string_inner_outcome,
    string_outcome, within, Outcome,
};
use crate::tokens::{double, multispace0, occurs_at, tag, take_until};
use crate::value::{lemma_array_view, views, JsonNode, JsonObject, JsonValue};
use vstd::prelude::*;
use vstd::string::StrSliceExecFns;

verus! {

/// What a production returns: the unconsumed remainder and what was read, or
/// the reason for which nothing was.
pub type ParseResult<'a, T> = Result<(&'a str, T), ParseError<'a>>;

/// The mathematical content of a production's result.
pub open spec fn outcome_of<'a>(r: ParseResult<'a, JsonNode<'a>>) -> Outcome {
    match r {
        Ok((rest, node)) => Ok((rest@, node@)),
        Err(e) => Err(e@),
    }
}

/// The mathematical content of the result of reading a quoted string.
pub open spec fn text_outcome_of<'a>(r: ParseResult<'a, &'a str>) -> Result<
    (Seq<char>, Seq<char>),
    Mismatch,
> {
    match r {
        Ok((rest, text)) => Ok((rest@, text@)),
        Err(e) => Err(e@),
    }
}

/// A token of one character stands where that character stands.
proof fn lemma_occurs_one(c: char, s: Seq<char>, i: int)
    ensures
        occurs_at(seq![c], s, i) <==> 0 <= i < s.len() && s[i] == c,
{
    if 0 <= i < s.len() {
        assert(s.subrange(i, i + 1)[0] == s[i]);
        if s[i] == c {
            assert(s.subrange(i, i + 1) =~= seq![c]);
        }
    }
}

/// Parses the literal `null`.
pub fn parse_null<'a>(json: &'a str) -> (r: ParseResult<'a, JsonNode<'a>>)
    ensures
        outcome_of(r) == null_outcome(json@),
        within(outcome_of(r), json@),
{
    proof {
        reveal_strlit("null");
        assert("null"@ =~= seq!['n', 'u', 'l', 'l']);
        lemma_skip_is_suffix(json@, 4);
    }
    match tag("null", json) {
        Some(rest) => Ok((rest, JsonNode::Null)),
        None => Err(ParseError { input: json, kind: ErrorKind::Tag }),
    }
}

/// Parses the literal `true` or the literal `false`.
pub fn parse_boolean<'a>(json: &'a str) -> (r: ParseResult<'a, JsonNode<'a>>)
    ensures
        outcome_of(r) == boolean_outcome(json@),
        within(outcome_of(r), json@),
{
    proof {
        reveal_strlit("true");
        reveal_strlit("false");
        assert("true"@ =~= seq!['t', 'r', 'u', 'e']);
        assert("false"@ =~= seq!['f', 'a', 'l', 's', 'e']);
        lemma_skip_is_suffix(json@, 4);
        lemma_skip_is_suffix(json@, 5);
    }
    match tag("true", json) {
        Some(rest) => Ok((rest, JsonNode::Boolean(true))),
        None => match tag("false", json) {
            Some(rest) => Ok((rest, JsonNode::Boolean(false))),
            None => Err(ParseError { input: json, kind: ErrorKind::Tag }),
        },
    }
}

/// Parses a quoted string and returns its text as it stands between the
/// quotes, without building a node.
pub fn parse_string_inner<'a>(json: &'a str) -> (r: ParseResult<'a, &'a str>)
    ensures
        text_outcome_of(r) == string_inner_outcome(json@),
        within(text_outcome_of(r), json@),
{
    proof {
        reveal_strlit("\"");
        assert("\""@ =~= seq!['"']);
        lemma_string_leaves_suffix(json@);
        lemma_occurs_one('"', json@, 0);
    }
    match tag("\"", json) {
        Some(body) => match take_until("\"", body) {
            Some((quote, text)) => {
                proof {
                    let n = text@.len() as int;
                    lemma_first_index(body@, '"');
                    lemma_occurs_one('"', body@, n);
                    assert forall|i: int| 0 <= i < n implies body@[i] != '"' by {
                        lemma_occurs_one('"', body@, i);
                    }
                    lemma_occurs_one('"', quote@, 0);
                    assert(first_index(body@, '"') == n);
                    assert(text@ =~= body@.take(n));
                }
                match tag("\"", quote) {
                    Some(rest) => {
                        assert(rest@ =~= body@.skip((text@.len() + 1) as int));
                        Ok((rest, text))
                    },
                    // Not reached: `quote` begins with the quote that was searched for.
                    None => Err(ParseError { input: quote, kind: ErrorKind::Tag }),
                }
            },
            None => {
                proof {
                    lemma_first_index(body@, '"');
                    lemma_occurs_one('"', body@, first_index(body@, '"'));
                }
                Err(ParseError { input: body, kind: ErrorKind::TakeUntil })
            },
        },
        None => Err(ParseError { input: json, kind: ErrorKind::Tag }),
    }
}

/// Parses a quoted string into a string node.
pub fn parse_string<'a>(json: &'a str) -> (r: ParseResult<'a, JsonNode<'a>>)
    ensures
        outcome_of(r) == string_outcome(json@),
        within(outcome_of(r), json@),
{
    match parse_string_inner(json) {
        Ok((rest, text)) => Ok((rest, JsonNode::String(text))),
        Err(e) => Err(e),
    }
}

/// Whether a number may begin where `json` begins.
fn begins_number(json: &str) -> (b: bool)
    ensures
        b == (json@.len() > 0 && starts_number(json@[0])),
{
    if json.is_empty() {
        false
    } else {
        let c = json.get_char(0);
        ('0' <= c && c <= '9') || c == '+' || c == '-' || c == '.'
    }
}

/// The result that a reading of a number at `json` stands for: a number node
/// with the bits that were read, or the mismatch of a number at `json`.
pub fn number_from<'a>(json: &'a str, reading: Option<(&'a str, u64)>) -> (r: ParseResult<
    'a,
    JsonNode<'a>,
>)
    ensures
        r == (match reading {
            Some((rest, bits)) => Ok((rest, JsonNode::Number(bits))),
            None => Err(ParseError { input: json, kind: ErrorKind::Float }),
        }),
{
    match reading {
        Some((rest, bits)) => Ok((rest, JsonNode::Number(bits))),
        None => Err(ParseError { input: json, kind: ErrorKind::Float }),
    }
}

/// Parses a number: an optional sign, digits with an optional fraction or a
/// fraction alone, and an optional exponent.
pub fn parse_number<'a>(json: &'a str) -> (r: ParseResult<'a, JsonNode<'a>>)
    ensures
        outcome_of(r) == number_outcome(json@),
        within(outcome_of(r), json@),
{
    proof {
        lemma_skip_is_suffix(json@, 0);
    }
    if begins_number(json) {
        number_from(json, double(json))
    } else {
        Err(ParseError { input: json, kind: ErrorKind::Float })
    }
}

/// Parses any JSON value: the first that matches among object, array,
/// number, string, boolean and null.
pub fn parse_json<'a>(json: &'a str) -> (r: ParseResult<'a, JsonNode<'a>>)
    ensures
        outcome_of(r) == json_outcome(json@),
        within(outcome_of(r), json@),
    decreases json@.len(), 2int,
{
    if let Ok(found) = parse_object(json) {
        return Ok(found);
    }
    if let Ok(found) = parse_array(json) {
        return Ok(found);
    }
    if let Ok(found) = parse_number(json) {
        return Ok(found);
    }
    if let Ok(found) = parse_string(json) {
        return Ok(found);
    }
    if let Ok(found) = parse_boolean(json) {
        return Ok(found);
    }
    parse_null(json)
}

/// Reads values separated by commas, as many as stand at `json`.
fn parse_items<'a>(json: &'a str) -> (r: (&'a str, Vec<JsonNode<'a>>))
    ensures
        (r.0@, views(r.1@)) == items_outcome(json@),
        r.0@.is_suffix_of(json@),
    decreases json@.len(), 4int,
{
    proof {
        reveal_strlit(",");
        assert(","@ =~= seq![',']);
        lemma_skip_is_suffix(json@, 0);
    }
    let mut items: Vec<JsonNode<'a>> = Vec::new();
    let mut rest = json;
    match parse_json(json) {
        Ok((behind, item)) => {
            items.push(item);
            rest = behind;
            assert(views(items@) =~= seq![item@]);
        },
        Err(_) => {
            assert(views(items@) =~= Seq::empty());
            return (json, items);
        },
    }
    loop
        invariant
            ","@ == seq![','],
            rest@.is_suffix_of(json@),
            items_outcome(json@) == more_items(rest@, views(items@)),
        decreases rest@.len(),
    {
        let comma = multispace0(rest);
        proof {
            lemma_skip_spaces_is_suffix(rest@);
            lemma_occurs_one(',', comma@, 0);
        }
        match tag(",", comma) {
            Some(behind) => {
                let next = multispace0(behind);
                proof {
                    lemma_skip_spaces_is_suffix(behind@);
                    lemma_skip_is_suffix(comma@, 1);
                    lemma_suffix_of_suffix(next@, behind@, comma@);
                    lemma_suffix_of_suffix(next@, comma@, rest@);
                    lemma_suffix_of_suffix(next@, rest@, json@);
                }
                match parse_json(next) {
                    Ok((behind, item)) => {
                        let ghost found = views(items@);
                        items.push(item);
                        rest = behind;
                        proof {
                            assert(views(items@) =~= found.push(item@));
                            lemma_suffix_of_suffix(rest@, next@, json@);
                        }
                    },
                    Err(_) => {
                        return (rest, items);
                    },
                }
            },
            None => {
                return (rest, items);
            },
        }
    }
}

/// Parses an array: `[`, values separated by commas, `]`.
pub fn parse_array<'a>(json: &'a str) -> (r: ParseResult<'a, JsonNode<'a>>)
    ensures
        outcome_of(r) == array_outcome(json@),
        within(outcome_of(r), json@),
    decreases json@.len(), 1int,
{
    proof {
        reveal_strlit("[");
        reveal_strlit("]");
        assert("["@ =~= seq!['[']);
        assert("]"@ =~= seq![']']);
        lemma_occurs_one('[', json@, 0);
        lemma_skip_is_suffix(json@, 1);
    }
    match tag("[", json) {
        Some(body) => {
            let (rest, items) = parse_items(body);
            proof {
                lemma_occurs_one(']', rest@, 0);
                lemma_suffix_of_suffix(rest@, body@, json@);
            }
            match tag("]", rest) {
                Some(behind) => {
                    let node = JsonNode::Array(Box::new(items));
                    proof {
                        lemma_array_view(node);
                        lemma_skip_is_suffix(rest@, 1);
                        lemma_suffix_of_suffix(behind@, rest@, json@);
                    }
                    Ok((behind, node))
                },
                None => Err(ParseError { input: rest, kind: ErrorKind::Tag }),
            }
        },
        None => Err(ParseError { input: json, kind: ErrorKind::Tag }),
    }
}

/// Reads the key of an object's entry and the colon behind it.
fn parse_key<'a>(json: &'a str) -> (r: ParseResult<'a, &'a str>)
    ensures
        text_outcome_of(r) == key_outcome(json@),
        within(text_outcome_of(r), json@),
{
    proof {
        reveal_strlit(":");
        assert(":"@ =~= seq![':']);
        lemma_key_leaves_suffix(json@);
    }
    match parse_string_inner(multispace0(json)) {
        Ok((rest, key)) => {
            let colon = multispace0(rest);
            proof {
                lemma_occurs_one(':', colon@, 0);
            }
            match tag(":", colon) {
                Some(behind) => Ok((behind, key)),
                None => Err(ParseError { input: colon, kind: ErrorKind::Tag }),
            }
        },
        Err(e) => Err(e),
    }
}

/// The mathematical content of the result of reading an object's entry.
spec fn entry_outcome_of<'a>(r: ParseResult<'a, (&'a str, JsonNode<'a>)>) -> Result<
    (Seq<char>, (Seq<char>, JsonValue)),
    Mismatch,
> {
    match r {
        Ok((rest, (key, value))) => Ok((rest@, (key@, value@))),
        Err(e) => Err(e@),
    }
}

/// Reads one entry of an object: a key, a colon and a value.
fn parse_entry<'a>(json: &'a str) -> (r: ParseResult<'a, (&'a str, JsonNode<'a>)>)
    ensures
        entry_outcome_of(r) == entry_outcome(json@),
        within(entry_outcome_of(r), json@),
    decreases json@.len(), 3int,
{
    proof {
        lemma_key_leaves_suffix(json@);
    }
    match parse_key(json) {
        Ok((colon, key)) => {
            let start = multispace0(colon);
            proof {
                lemma_skip_spaces_is_suffix(colon@);
                lemma_suffix_of_suffix(start@, colon@, json@);
            }
            match parse_json(start) {
                Ok((end, value)) => {
                    let rest = multispace0(end);
                    proof {
                        lemma_skip_spaces_is_suffix(end@);
                        lemma_suffix_of_suffix(rest@, end@, start@);
                        lemma_suffix_of_suffix(rest@, start@, json@);
                    }
                    Ok((rest, (key, value)))
                },
                Err(e) => {
                    proof {
                        lemma_suffix_of_suffix(e@.at, start@, json@);
                    }
                    Err(e)
                },
            }
        },
        Err(e) => Err(e),
    }
}

/// Reads entries separated by commas, as many as stand at `json`, each into
/// the place of the entry that has its key.
fn parse_entries<'a>(json: &'a str) -> (r: (&'a str, JsonObject<'a>))
    ensures
        (r.0@, r.1@) == entries_outcome(json@),
        r.0@.is_suffix_of(json@),
    decreases json@.len(), 4int,
{
    proof {
        reveal_strlit(",");
        assert(","@ =~= seq![',']);
        lemma_skip_is_suffix(json@, 0);
    }
    let mut object = JsonObject::new();
    let mut rest = json;
    match parse_entry(json) {
        Ok((behind, (key, value))) => {
            object = object.with_entry(key, value);
            rest = behind;
            assert(object@ =~= seq![(key@, value@)]);
        },
        Err(_) => {
            return (json, object);
        },
    }
    loop
        invariant
            ","@ == seq![','],
            rest@.is_suffix_of(json@),
            entries_outcome(json@) == more_entries(rest@, object@),
        decreases rest@.len(),
    {
        proof {
            lemma_occurs_one(',', rest@, 0);
        }
        match tag(",", rest) {
            Some(next) => {
                proof {
                    lemma_skip_is_suffix(rest@, 1);
                    lemma_suffix_of_suffix(next@, rest@, json@);
                }
                match parse_entry(next) {
                    Ok((behind, (key, value))) => {
                        object = object.with_entry(key, value);
                        rest = behind;
                        proof {
                            lemma_suffix_of_suffix(rest@, next@, json@);
                        }
                    },
                    Err(_) => {
                        return (rest, object);
                    },
                }
            },
            None => {
                return (rest, object);
            },
        }
    }
}

/// Parses an object: `{`, entries separated by commas, `}`. Of two entries
/// with one key the first gives the place and the second the value.
pub fn parse_object<'a>(json: &'a str) -> (r: ParseResult<'a, JsonNode<'a>>)
    ensures
        outcome_of(r) == object_outcome(json@),
        within(outcome_of(r), json@),
    decreases json@.len(), 1int,
{
    proof {
        reveal_strlit("{");
        reveal_strlit("}");
        assert("{"@ =~= seq!['{']);
        assert("}"@ =~= seq!['}']);
        lemma_occurs_one('{', json@, 0);
        lemma_skip_is_suffix(json@, 1);
    }
    match tag("{", json) {
        Some(body) => {
            let (rest, object) = parse_entries(body);
            proof {
                lemma_occurs_one('}', rest@, 0);
                lemma_suffix_of_suffix(rest@, body@, json@);
            }
            match tag("}", rest) {
                Some(behind) => {
                    proof {
                        lemma_skip_is_suffix(rest@, 1);
                        lemma_suffix_of_suffix(behind@, rest@, json@);
                    }
                    Ok((behind, JsonNode::Object(Box::new(object))))
                },
                None => Err(ParseError { input: rest, kind: ErrorKind::Tag }),
            }
        },
        None => Err(ParseError { input: json, kind: ErrorKind::Tag }),
    }
}

} // verus!
