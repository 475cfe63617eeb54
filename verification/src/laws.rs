//! What holds of every input: properties of the accepted language, proved
//! from its definition.

use crate::error::{ErrorKind, Mismatch};
use crate::grammar::{
    array_outcome, entries_outcome, entry_outcome, items_outcome, json_outcome, key_outcome,
    lemma_key_leaves_suffix, lemma_skip_is_suffix, lemma_skip_spaces_is_suffix,
    lemma_string_leaves_suffix, lemma_suffix_of_suffix, more_entries, more_items, object_outcome,
    starts_number, starts_with, within,
};
use crate::parser::{outcome_of, ParseResult};
use crate::tokens::{occurs_at, skip_spaces};
use crate::value::{
    distinct_keys, lemma_upsert_absent, lemma_upsert_present, upsert, JsonNode, JsonValue,
};
use vstd::prelude::*;

verus! {

/// Whether a value may begin with `c`: each production has its own first
/// characters.
pub open spec fn begins_value(c: char) -> bool {
    c == '{' || c == '[' || c == '"' || c == 't' || c == 'f' || c == 'n' || starts_number(c)
}

/// A token that stands at the beginning of `s` gives `s` its first character.
pub proof fn lemma_token_begins(token: Seq<char>, s: Seq<char>)
    requires
        token.len() > 0,
        occurs_at(token, s, 0),
    ensures
        s.len() > 0,
        s[0] == token[0],
{
    assert(s.subrange(0, token.len() as int)[0] == token[0]);
}

/// Where no production's first character stands, no value is read.
pub proof fn lemma_no_value_begins(s: Seq<char>)
    requires
        s.len() == 0 || !begins_value(s[0]),
    ensures
        json_outcome(s) is Err,
{
    if occurs_at(seq!['t', 'r', 'u', 'e'], s, 0) {
        lemma_token_begins(seq!['t', 'r', 'u', 'e'], s);
    }
    if occurs_at(seq!['f', 'a', 'l', 's', 'e'], s, 0) {
        lemma_token_begins(seq!['f', 'a', 'l', 's', 'e'], s);
    }
    if occurs_at(seq!['n', 'u', 'l', 'l'], s, 0) {
        lemma_token_begins(seq!['n', 'u', 'l', 'l'], s);
    }
}

/// Where no value is read, the mismatch is that of the last alternative: a
/// token was expected at the beginning of the input.
pub proof fn lemma_no_value_is_told_at_input(s: Seq<char>)
    requires
        json_outcome(s) is Err,
    ensures
        json_outcome(s) == Err::<(Seq<char>, JsonValue), Mismatch>(
            Mismatch { at: s, kind: ErrorKind::Tag },
        ),
{
}

/// The three literals are values, whatever follows them.
pub proof fn lemma_literals_are_values(tail: Seq<char>)
    ensures
        json_outcome(seq!['n', 'u', 'l', 'l'] + tail) == Ok::<(Seq<char>, JsonValue), Mismatch>(
            (tail, JsonValue::Null),
        ),
        json_outcome(seq!['t', 'r', 'u', 'e'] + tail) == Ok::<(Seq<char>, JsonValue), Mismatch>(
            (tail, JsonValue::Boolean(true)),
        ),
        json_outcome(seq!['f', 'a', 'l', 's', 'e'] + tail) == Ok::<
            (Seq<char>, JsonValue),
            Mismatch,
        >((tail, JsonValue::Boolean(false))),
{
    let null = seq!['n', 'u', 'l', 'l'] + tail;
    assert(null.subrange(0, 4) =~= seq!['n', 'u', 'l', 'l']);
    assert(null.skip(4) =~= tail);
    assert(null[0] == 'n');
    if occurs_at(seq!['t', 'r', 'u', 'e'], null, 0) {
        lemma_token_begins(seq!['t', 'r', 'u', 'e'], null);
    }
    if occurs_at(seq!['f', 'a', 'l', 's', 'e'], null, 0) {
        lemma_token_begins(seq!['f', 'a', 'l', 's', 'e'], null);
    }
    let yes = seq!['t', 'r', 'u', 'e'] + tail;
    assert(yes.subrange(0, 4) =~= seq!['t', 'r', 'u', 'e']);
    assert(yes.skip(4) =~= tail);
    assert(yes[0] == 't');
    let no = seq!['f', 'a', 'l', 's', 'e'] + tail;
    assert(no.subrange(0, 5) =~= seq!['f', 'a', 'l', 's', 'e']);
    assert(no.skip(5) =~= tail);
    assert(no[0] == 'f');
    if occurs_at(seq!['t', 'r', 'u', 'e'], no, 0) {
        lemma_token_begins(seq!['t', 'r', 'u', 'e'], no);
    }
}

/// `depth` opening brackets followed by `depth` closing brackets.
pub open spec fn nested_brackets(depth: nat) -> Seq<char>
    decreases depth,
{
    if depth == 0 {
        Seq::empty()
    } else {
        seq!['['] + nested_brackets((depth - 1) as nat) + seq![']']
    }
}

/// An empty array inside `depth - 1` arrays of one item each.
pub open spec fn nested_arrays(depth: nat) -> JsonValue
    decreases depth,
{
    if depth <= 1 {
        JsonValue::Array(Seq::empty())
    } else {
        JsonValue::Array(seq![nested_arrays((depth - 1) as nat)])
    }
}

/// Empty arrays nested to any depth are a value, whatever follows them: the
/// text of `depth` brackets opened and closed again, with `tail` behind it,
/// is read as the arrays nested to that depth, and `tail` remains.
pub proof fn lemma_nested_arrays_followed(depth: nat, tail: Seq<char>)
    requires
        depth > 0,
    ensures
        json_outcome(nested_brackets(depth) + tail) == Ok::<(Seq<char>, JsonValue), Mismatch>(
            (tail, nested_arrays(depth)),
        ),
    decreases depth,
{
    let s = nested_brackets(depth) + tail;
    let inner = (depth - 1) as nat;
    let closing = seq![']'] + tail;
    let body = nested_brackets(inner) + closing;
    assert(s.skip(1) =~= body);
    assert(s[0] == '[');
    assert(closing.skip(1) =~= tail);
    assert(skip_spaces(closing) == closing);
    if inner == 0 {
        assert(body =~= closing);
        lemma_no_value_begins(body);
        assert(items_outcome(body) == (closing, Seq::<JsonValue>::empty()));
    } else {
        lemma_nested_arrays_followed(inner, closing);
        assert(more_items(closing, seq![nested_arrays(inner)]) == (
            closing,
            seq![nested_arrays(inner)],
        ));
    }
    assert(object_outcome(s) is Err);
}

/// Empty arrays nested to any depth are a value: the text of `depth`
/// brackets opened and closed again is read as the arrays nested to that
/// depth, and nothing remains.
pub proof fn lemma_nested_arrays(depth: nat)
    requires
        depth > 0,
    ensures
        json_outcome(nested_brackets(depth)) == Ok::<(Seq<char>, JsonValue), Mismatch>(
            (Seq::empty(), nested_arrays(depth)),
        ),
{
    lemma_nested_arrays_followed(depth, Seq::empty());
    assert(nested_brackets(depth) + Seq::<char>::empty() =~= nested_brackets(depth));
}

/// Reading a text again gives the same tree: two results of `parse_json` on
/// texts of the same characters have the same content.
pub proof fn lemma_reparse_equal<'a, 'b>(
    first_text: &'a str,
    first: ParseResult<'a, JsonNode<'a>>,
    second_text: &'b str,
    second: ParseResult<'b, JsonNode<'b>>,
)
    requires
        first_text@ == second_text@,
        outcome_of(first) == json_outcome(first_text@),
        outcome_of(second) == json_outcome(second_text@),
    ensures
        outcome_of(first) == outcome_of(second),
{
}

/// Of two values put under one key the later one stays, in the place that
/// the key had or got at first.
pub proof fn lemma_upsert_twice(
    entries: Seq<(Seq<char>, JsonValue)>,
    key: Seq<char>,
    earlier: JsonValue,
    later: JsonValue,
)
    ensures
        upsert(upsert(entries, key, earlier), key, later) == upsert(entries, key, later),
    decreases entries.len(),
{
    if entries.len() == 0 {
        assert(seq![(key, earlier)].skip(1) =~= Seq::empty());
        assert(seq![(key, later)] + Seq::<(Seq<char>, JsonValue)>::empty() =~= seq![(key, later)]);
    } else if entries[0].0 == key {
        let once = seq![(key, earlier)] + entries.skip(1);
        assert(once.skip(1) =~= entries.skip(1));
    } else {
        let once = seq![entries[0]] + upsert(entries.skip(1), key, earlier);
        assert(once.skip(1) =~= upsert(entries.skip(1), key, earlier));
        lemma_upsert_twice(entries.skip(1), key, earlier, later);
    }
}

/// Whether no object in `value`, `value` itself included, has two entries
/// with one key.
pub open spec fn keys_unique(value: JsonValue) -> bool
    decreases value,
{
    match value {
        JsonValue::Object(entries) => distinct_keys(entries) && forall|i: int|
            0 <= i < entries.len() ==> keys_unique((#[trigger] entries[i]).1),
        JsonValue::Array(items) => forall|i: int|
            0 <= i < items.len() ==> keys_unique(#[trigger] items[i]),
        _ => true,
    }
}

/// An array has unique keys where each of its items has.
pub proof fn lemma_array_keys_unique_iff(items: Seq<JsonValue>)
    ensures
        keys_unique(JsonValue::Array(items)) <==> forall|i: int|
            0 <= i < items.len() ==> keys_unique(#[trigger] items[i]),
{
    assert(JsonValue::Array(items)->Array_0 == items);
}

/// An object has unique keys where no two of its entries have one key and
/// each of its entries' values has unique keys.
pub proof fn lemma_object_keys_unique_iff(entries: Seq<(Seq<char>, JsonValue)>)
    ensures
        keys_unique(JsonValue::Object(entries)) <==> distinct_keys(entries) && forall|i: int|
            0 <= i < entries.len() ==> keys_unique((#[trigger] entries[i]).1),
{
    assert(JsonValue::Object(entries)->Object_0 == entries);
}

/// Whether `entries` can be those of an object in a value with unique keys.
pub open spec fn entries_unique(entries: Seq<(Seq<char>, JsonValue)>) -> bool {
    keys_unique(JsonValue::Object(entries))
}

/// Putting a value under a key leaves keys unique.
pub proof fn lemma_upsert_keeps_keys_unique(
    entries: Seq<(Seq<char>, JsonValue)>,
    key: Seq<char>,
    value: JsonValue,
)
    requires
        entries_unique(entries),
        keys_unique(value),
    ensures
        entries_unique(upsert(entries, key, value)),
{
    lemma_object_keys_unique_iff(entries);
    lemma_object_keys_unique_iff(upsert(entries, key, value));
    if exists|i: int| 0 <= i < entries.len() && (#[trigger] entries[i]).0 == key {
        let i = choose|i: int| 0 <= i < entries.len() && (#[trigger] entries[i]).0 == key;
        lemma_upsert_present(entries, key, value, i);
    } else {
        lemma_upsert_absent(entries, key, value);
    }
}

/// Every value that is read has unique keys in each of its objects.
pub proof fn lemma_read_keys_unique(s: Seq<char>)
    ensures
        json_outcome(s) matches Ok((_, value)) ==> keys_unique(value),
    decreases s.len(), 2int,
{
    lemma_object_keys_unique(s);
    lemma_array_keys_unique(s);
}

proof fn lemma_array_keys_unique(s: Seq<char>)
    ensures
        array_outcome(s) matches Ok((_, value)) ==> keys_unique(value),
    decreases s.len(), 1int,
{
    if starts_with(s, '[') {
        lemma_items_keys_unique(s.skip(1));
    }
}

proof fn lemma_items_keys_unique(s: Seq<char>)
    ensures
        keys_unique(JsonValue::Array(items_outcome(s).1)),
    decreases s.len(), 4int,
{
    lemma_read_keys_unique(s);
    lemma_array_keys_unique_iff(Seq::empty());
    if let Ok((rest, item)) = json_outcome(s) {
        lemma_array_keys_unique_iff(seq![item]);
        if rest.len() <= s.len() {
            lemma_more_items_keys_unique(rest, seq![item]);
        }
    }
}

proof fn lemma_more_items_keys_unique(s: Seq<char>, found: Seq<JsonValue>)
    requires
        keys_unique(JsonValue::Array(found)),
    ensures
        keys_unique(JsonValue::Array(more_items(s, found).1)),
    decreases s.len(), 0int,
{
    lemma_array_keys_unique_iff(found);
    let comma = skip_spaces(s);
    if starts_with(comma, ',') {
        let next = skip_spaces(comma.skip(1));
        lemma_skip_spaces_is_suffix(s);
        lemma_skip_spaces_is_suffix(comma.skip(1));
        lemma_read_keys_unique(next);
        if let Ok((rest, item)) = json_outcome(next) {
            let items = found.push(item);
            lemma_array_keys_unique_iff(items);
            if rest.len() <= next.len() {
                lemma_more_items_keys_unique(rest, items);
            }
        }
    }
}

proof fn lemma_object_keys_unique(s: Seq<char>)
    ensures
        object_outcome(s) matches Ok((_, value)) ==> keys_unique(value),
    decreases s.len(), 1int,
{
    if starts_with(s, '{') {
        lemma_entries_keys_unique(s.skip(1));
    }
}

proof fn lemma_entry_keys_unique(s: Seq<char>)
    ensures
        entry_outcome(s) matches Ok((_, (_, value))) ==> keys_unique(value),
    decreases s.len(), 3int,
{
    lemma_key_leaves_suffix(s);
    if let Ok((rest, _)) = key_outcome(s) {
        lemma_skip_spaces_is_suffix(rest);
        lemma_read_keys_unique(skip_spaces(rest));
    }
}

proof fn lemma_entries_keys_unique(s: Seq<char>)
    ensures
        entries_unique(entries_outcome(s).1),
    decreases s.len(), 4int,
{
    lemma_entry_keys_unique(s);
    lemma_object_keys_unique_iff(Seq::empty());
    if let Ok((rest, (key, value))) = entry_outcome(s) {
        lemma_object_keys_unique_iff(seq![(key, value)]);
        if rest.len() <= s.len() {
            lemma_more_entries_keys_unique(rest, seq![(key, value)]);
        }
    }
}

proof fn lemma_more_entries_keys_unique(s: Seq<char>, found: Seq<(Seq<char>, JsonValue)>)
    requires
        entries_unique(found),
    ensures
        entries_unique(more_entries(s, found).1),
    decreases s.len(), 0int,
{
    if starts_with(s, ',') {
        lemma_entry_keys_unique(s.skip(1));
        if let Ok((rest, (key, value))) = entry_outcome(s.skip(1)) {
            lemma_upsert_keeps_keys_unique(found, key, value);
            if rest.len() <= s.skip(1).len() {
                lemma_more_entries_keys_unique(rest, upsert(found, key, value));
            }
        }
    }
}

/// What a value leaves behind is a suffix of the input, and so is the place
/// of a mismatch.
pub proof fn lemma_remainder_is_suffix(s: Seq<char>)
    ensures
        within(json_outcome(s), s),
    decreases s.len(), 2int,
{
    lemma_object_remainder(s);
    lemma_array_remainder(s);
    lemma_string_leaves_suffix(s);
    lemma_skip_is_suffix(s, 4);
    lemma_skip_is_suffix(s, 5);
}

proof fn lemma_array_remainder(s: Seq<char>)
    ensures
        within(array_outcome(s), s),
    decreases s.len(), 1int,
{
    lemma_skip_is_suffix(s, 1);
    if starts_with(s, '[') {
        lemma_items_remainder(s.skip(1));
        let rest = items_outcome(s.skip(1)).0;
        lemma_suffix_of_suffix(rest, s.skip(1), s);
        if starts_with(rest, ']') {
            lemma_skip_is_suffix(rest, 1);
            lemma_suffix_of_suffix(rest.skip(1), rest, s);
        }
    }
}

proof fn lemma_items_remainder(s: Seq<char>)
    ensures
        items_outcome(s).0.is_suffix_of(s),
    decreases s.len(), 4int,
{
    lemma_remainder_is_suffix(s);
    lemma_skip_is_suffix(s, 0);
    if let Ok((rest, item)) = json_outcome(s) {
        lemma_more_items_remainder(rest, seq![item]);
        lemma_suffix_of_suffix(more_items(rest, seq![item]).0, rest, s);
    }
}

proof fn lemma_more_items_remainder(s: Seq<char>, found: Seq<JsonValue>)
    ensures
        more_items(s, found).0.is_suffix_of(s),
    decreases s.len(), 0int,
{
    lemma_skip_is_suffix(s, 0);
    let comma = skip_spaces(s);
    if starts_with(comma, ',') {
        let next = skip_spaces(comma.skip(1));
        lemma_skip_spaces_is_suffix(s);
        lemma_skip_spaces_is_suffix(comma.skip(1));
        lemma_skip_is_suffix(comma, 1);
        lemma_suffix_of_suffix(next, comma.skip(1), comma);
        lemma_suffix_of_suffix(next, comma, s);
        lemma_remainder_is_suffix(next);
        if let Ok((rest, item)) = json_outcome(next) {
            lemma_more_items_remainder(rest, found.push(item));
            lemma_suffix_of_suffix(more_items(rest, found.push(item)).0, rest, next);
            lemma_suffix_of_suffix(more_items(rest, found.push(item)).0, next, s);
        }
    }
}

proof fn lemma_object_remainder(s: Seq<char>)
    ensures
        within(object_outcome(s), s),
    decreases s.len(), 1int,
{
    lemma_skip_is_suffix(s, 1);
    if starts_with(s, '{') {
        lemma_entries_remainder(s.skip(1));
        let rest = entries_outcome(s.skip(1)).0;
        lemma_suffix_of_suffix(rest, s.skip(1), s);
        if starts_with(rest, '}') {
            lemma_skip_is_suffix(rest, 1);
            lemma_suffix_of_suffix(rest.skip(1), rest, s);
        }
    }
}

proof fn lemma_entry_remainder(s: Seq<char>)
    ensures
        within(entry_outcome(s), s),
    decreases s.len(), 3int,
{
    lemma_key_leaves_suffix(s);
    if let Ok((colon, _)) = key_outcome(s) {
        let start = skip_spaces(colon);
        lemma_skip_spaces_is_suffix(colon);
        lemma_suffix_of_suffix(start, colon, s);
        lemma_remainder_is_suffix(start);
        match json_outcome(start) {
            Ok((end, _)) => {
                lemma_skip_spaces_is_suffix(end);
                lemma_suffix_of_suffix(skip_spaces(end), end, start);
                lemma_suffix_of_suffix(skip_spaces(end), start, s);
            },
            Err(e) => {
                lemma_suffix_of_suffix(e.at, start, s);
            },
        }
    }
}

proof fn lemma_entries_remainder(s: Seq<char>)
    ensures
        entries_outcome(s).0.is_suffix_of(s),
    decreases s.len(), 4int,
{
    lemma_entry_remainder(s);
    lemma_skip_is_suffix(s, 0);
    if let Ok((rest, (key, value))) = entry_outcome(s) {
        lemma_more_entries_remainder(rest, seq![(key, value)]);
        lemma_suffix_of_suffix(more_entries(rest, seq![(key, value)]).0, rest, s);
    }
}

proof fn lemma_more_entries_remainder(s: Seq<char>, found: Seq<(Seq<char>, JsonValue)>)
    ensures
        more_entries(s, found).0.is_suffix_of(s),
    decreases s.len(), 0int,
{
    lemma_skip_is_suffix(s, 0);
    lemma_skip_is_suffix(s, 1);
    if starts_with(s, ',') {
        let next = s.skip(1);
        lemma_entry_remainder(next);
        if let Ok((rest, (key, value))) = entry_outcome(next) {
            let entries = upsert(found, key, value);
            lemma_more_entries_remainder(rest, entries);
            lemma_suffix_of_suffix(more_entries(rest, entries).0, rest, next);
            lemma_suffix_of_suffix(more_entries(rest, entries).0, next, s);
        }
    }
}

} // verus!
