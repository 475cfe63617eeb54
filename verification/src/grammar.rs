//! The accepted language: for each production, what it makes of a sequence
//! of characters.

use crate::error::{ErrorKind, Mismatch};
use crate::tokens::{double_outcome, is_space, occurs_at, skip_spaces};
use crate::value::{upsert, JsonValue};
use vstd::prelude::*;

verus! {

/// What a production makes of an input: the remainder and the value it read,
/// or why it did not match.
pub type Outcome = Result<(Seq<char>, JsonValue), Mismatch>;

/// Whether `s` begins with the character `c`.
pub open spec fn starts_with(s: Seq<char>, c: char) -> bool {
    s.len() > 0 && s[0] == c
}

/// The index of the first `c` in `s`, or the length of `s` when it holds none.
pub open spec fn first_index(s: Seq<char>, c: char) -> int
    decreases s.len(),
{
    if s.len() == 0 || s[0] == c {
        0
    } else {
        1 + first_index(s.skip(1), c)
    }
}

/// The first of two alternatives where it matches, else the second.
pub open spec fn or_else(first: Outcome, second: Outcome) -> Outcome {
    if first is Ok {
        first
    } else {
        second
    }
}

/// The literal `null`.
pub open spec fn null_outcome(s: Seq<char>) -> Outcome {
    if occurs_at(seq!['n', 'u', 'l', 'l'], s, 0) {
        Ok((s.skip(4), JsonValue::Null))
    } else {
        Err(Mismatch { at: s, kind: ErrorKind::Tag })
    }
}

/// The literals `true` and `false`.
pub open spec fn boolean_outcome(s: Seq<char>) -> Outcome {
    if occurs_at(seq!['t', 'r', 'u', 'e'], s, 0) {
        Ok((s.skip(4), JsonValue::Boolean(true)))
    } else if occurs_at(seq!['f', 'a', 'l', 's', 'e'], s, 0) {
        Ok((s.skip(5), JsonValue::Boolean(false)))
    } else {
        Err(Mismatch { at: s, kind: ErrorKind::Tag })
    }
}

/// Whether a number may begin with `c`: a digit, a sign or the decimal point.
pub open spec fn starts_number(c: char) -> bool {
    ('0' <= c && c <= '9') || c == '+' || c == '-' || c == '.'
}

/// A number: where `s` begins as a number may, what the decimal
/// floating-point reader makes of it, which leaves a suffix of `s`.
pub open spec fn number_outcome(s: Seq<char>) -> Outcome {
    if s.len() > 0 && starts_number(s[0]) {
        match double_outcome(s) {
            Some((rest, bits)) if rest.is_suffix_of(s) => Ok((rest, JsonValue::Number(bits))),
            _ => Err(Mismatch { at: s, kind: ErrorKind::Float }),
        }
    } else {
        Err(Mismatch { at: s, kind: ErrorKind::Float })
    }
}

/// A quoted string: the characters between an opening quote and the next
/// quote, taken as they are.
pub open spec fn string_inner_outcome(s: Seq<char>) -> Result<(Seq<char>, Seq<char>), Mismatch> {
    if starts_with(s, '"') {
        let body = s.skip(1);
        let n = first_index(body, '"');
        if n < body.len() {
            Ok((body.skip(n + 1), body.take(n)))
        } else {
            Err(Mismatch { at: body, kind: ErrorKind::TakeUntil })
        }
    } else {
        Err(Mismatch { at: s, kind: ErrorKind::Tag })
    }
}

/// A quoted string as a value.
pub open spec fn string_outcome(s: Seq<char>) -> Outcome {
    match string_inner_outcome(s) {
        Ok((rest, text)) => Ok((rest, JsonValue::String(text))),
        Err(e) => Err(e),
    }
}

/// The key of an object's entry and the colon behind it, with spaces allowed
/// around the key.
pub open spec fn key_outcome(s: Seq<char>) -> Result<(Seq<char>, Seq<char>), Mismatch> {
    match string_inner_outcome(skip_spaces(s)) {
        Ok((rest, key)) => {
            let colon = skip_spaces(rest);
            if starts_with(colon, ':') {
                Ok((colon.skip(1), key))
            } else {
                Err(Mismatch { at: colon, kind: ErrorKind::Tag })
            }
        },
        Err(e) => Err(e),
    }
}

/// Any value: the first that matches among object, array, number, string,
/// boolean and null, in this order. Where none matches, the mismatch is that
/// of the last.
pub open spec fn json_outcome(s: Seq<char>) -> Outcome
    decreases s.len(), 2int,
{
    or_else(
        object_outcome(s),
        or_else(
            array_outcome(s),
            or_else(
                number_outcome(s),
                or_else(string_outcome(s), or_else(boolean_outcome(s), null_outcome(s))),
            ),
        ),
    )
}

/// An array: `[`, values separated by commas, `]`.
pub open spec fn array_outcome(s: Seq<char>) -> Outcome
    decreases s.len(), 1int,
{
    if starts_with(s, '[') {
        let (rest, items) = items_outcome(s.skip(1));
        if starts_with(rest, ']') {
            Ok((rest.skip(1), JsonValue::Array(items)))
        } else {
            Err(Mismatch { at: rest, kind: ErrorKind::Tag })
        }
    } else {
        Err(Mismatch { at: s, kind: ErrorKind::Tag })
    }
}

/// The values of an array and what follows them: no values where no value
/// stands at `s`, else that value and those that follow it.
///
/// The test on the remainder's length makes the definition well founded; it
/// always succeeds, since a value leaves a suffix of what it was given.
pub open spec fn items_outcome(s: Seq<char>) -> (Seq<char>, Seq<JsonValue>)
    decreases s.len(), 4int,
{
    match json_outcome(s) {
        Ok((rest, item)) => if rest.len() <= s.len() {
            more_items(rest, seq![item])
        } else {
            (rest, seq![item])
        },
        Err(_) => (s, Seq::empty()),
    }
}

/// The values of an array behind those in `found`: as long as a comma, with
/// spaces allowed around it, and a value follow, that value is added. A comma
/// without a value behind it is left unread, with the spaces before it.
pub open spec fn more_items(s: Seq<char>, found: Seq<JsonValue>) -> (Seq<char>, Seq<JsonValue>)
    decreases s.len(), 0int,
    via more_items_decreases
{
    let comma = skip_spaces(s);
    if starts_with(comma, ',') {
        let next = skip_spaces(comma.skip(1));
        match json_outcome(next) {
            Ok((rest, item)) => if rest.len() <= next.len() {
                more_items(rest, found.push(item))
            } else {
                (rest, found.push(item))
            },
            Err(_) => (s, found),
        }
    } else {
        (s, found)
    }
}

#[via_fn]
proof fn more_items_decreases(s: Seq<char>, found: Seq<JsonValue>) {
    lemma_skip_spaces_is_suffix(s);
    lemma_skip_spaces_is_suffix(skip_spaces(s).skip(1));
}

/// An object: `{`, entries separated by commas, `}`. Of two entries with one
/// key the first gives the place and the second the value.
pub open spec fn object_outcome(s: Seq<char>) -> Outcome
    decreases s.len(), 1int,
{
    if starts_with(s, '{') {
        let (rest, entries) = entries_outcome(s.skip(1));
        if starts_with(rest, '}') {
            Ok((rest.skip(1), JsonValue::Object(entries)))
        } else {
            Err(Mismatch { at: rest, kind: ErrorKind::Tag })
        }
    } else {
        Err(Mismatch { at: s, kind: ErrorKind::Tag })
    }
}

/// One entry of an object: a key, a colon and a value, with spaces allowed
/// around the key and around the value.
pub open spec fn entry_outcome(s: Seq<char>) -> Result<
    (Seq<char>, (Seq<char>, JsonValue)),
    Mismatch,
>
    decreases s.len(), 3int,
    via entry_outcome_decreases
{
    match key_outcome(s) {
        Ok((rest, key)) => match json_outcome(skip_spaces(rest)) {
            Ok((rest, value)) => Ok((skip_spaces(rest), (key, value))),
            Err(e) => Err(e),
        },
        Err(e) => Err(e),
    }
}

#[via_fn]
proof fn entry_outcome_decreases(s: Seq<char>) {
    lemma_key_leaves_suffix(s);
    if let Ok((rest, _)) = key_outcome(s) {
        lemma_skip_spaces_is_suffix(rest);
    }
}

/// The entries of an object and what follows them: no entries where no entry
/// stands at `s`, else that entry and those that follow it.
///
/// The test on the remainder's length makes the definition well founded; it
/// always succeeds, since an entry leaves a suffix of what it was given.
pub open spec fn entries_outcome(s: Seq<char>) -> (Seq<char>, Seq<(Seq<char>, JsonValue)>)
    decreases s.len(), 4int,
{
    match entry_outcome(s) {
        Ok((rest, (key, value))) => if rest.len() <= s.len() {
            more_entries(rest, seq![(key, value)])
        } else {
            (rest, seq![(key, value)])
        },
        Err(_) => (s, Seq::empty()),
    }
}

/// The entries of an object behind those in `found`: as long as a comma and
/// an entry follow, that entry is put into `found`. A comma without an entry
/// behind it is left unread.
pub open spec fn more_entries(s: Seq<char>, found: Seq<(Seq<char>, JsonValue)>) -> (
    Seq<char>,
    Seq<(Seq<char>, JsonValue)>,
)
    decreases s.len(), 0int,
{
    if starts_with(s, ',') {
        match entry_outcome(s.skip(1)) {
            Ok((rest, (key, value))) => if rest.len() <= s.skip(1).len() {
                more_entries(rest, upsert(found, key, value))
            } else {
                (rest, upsert(found, key, value))
            },
            Err(_) => (s, found),
        }
    } else {
        (s, found)
    }
}

/// Whether the remainder of a match, or the place of a mismatch, is a suffix
/// of the input `s`.
pub open spec fn within<T>(outcome: Result<(Seq<char>, T), Mismatch>, s: Seq<char>) -> bool {
    match outcome {
        Ok((rest, _)) => rest.is_suffix_of(s),
        Err(e) => e.at.is_suffix_of(s),
    }
}

/// Dropping leading characters leaves a suffix.
pub proof fn lemma_skip_is_suffix(s: Seq<char>, n: int)
    ensures
        0 <= n <= s.len() ==> s.skip(n).is_suffix_of(s),
        s.is_suffix_of(s),
{
    assert(s.is_suffix_of(s));
}

/// What remains of what remains of `c` remains of `c`.
pub proof fn lemma_suffix_of_suffix(a: Seq<char>, b: Seq<char>, c: Seq<char>)
    requires
        a.is_suffix_of(b),
        b.is_suffix_of(c),
    ensures
        a.is_suffix_of(c),
{
    assert(b.subrange(b.len() - a.len(), b.len() as int) =~= c.subrange(
        c.len() - a.len(),
        c.len() as int,
    ));
}

/// A suffix of `s.skip(n)` is a suffix of `s`.
pub proof fn lemma_suffix_of_skip(rest: Seq<char>, s: Seq<char>, n: int)
    requires
        0 <= n <= s.len(),
        rest.is_suffix_of(s.skip(n)),
    ensures
        rest.is_suffix_of(s),
{
    assert(s.skip(n).is_suffix_of(s));
    lemma_suffix_of_suffix(rest, s.skip(n), s);
}

/// Skipping spaces leaves a suffix.
pub proof fn lemma_skip_spaces_is_suffix(s: Seq<char>)
    ensures
        skip_spaces(s).is_suffix_of(s),
    decreases s.len(),
{
    if s.len() > 0 && is_space(s[0]) {
        lemma_skip_spaces_is_suffix(s.skip(1));
        lemma_suffix_of_skip(skip_spaces(s), s, 1);
    } else {
        assert(s.is_suffix_of(s));
    }
}

/// The first `c` in `s` stands within `s` or at its end, with no `c` before
/// it.
pub proof fn lemma_first_index(s: Seq<char>, c: char)
    ensures
        0 <= first_index(s, c) <= s.len(),
        first_index(s, c) < s.len() ==> s[first_index(s, c)] == c,
        forall|i: int| 0 <= i < first_index(s, c) ==> s[i] != c,
    decreases s.len(),
{
    if s.len() == 0 || s[0] == c {
    } else {
        lemma_first_index(s.skip(1), c);
        assert forall|i: int| 0 <= i < first_index(s, c) implies s[i] != c by {
            if i > 0 {
                assert(s[i] == s.skip(1)[i - 1]);
            }
        }
    }
}

/// A quoted string is followed by a suffix of the input, two characters
/// shorter than the input without the string's text.
pub proof fn lemma_string_leaves_suffix(s: Seq<char>)
    ensures
        string_inner_outcome(s) matches Ok((rest, text)) ==> rest.is_suffix_of(s) && rest.len()
            + text.len() + 2 == s.len(),
        string_inner_outcome(s) matches Err(e) ==> e.at.is_suffix_of(s),
{
    if starts_with(s, '"') {
        let body = s.skip(1);
        lemma_first_index(body, '"');
        let n = first_index(body, '"');
        assert(body.is_suffix_of(s));
        if n < body.len() {
            assert(body.skip(n + 1).is_suffix_of(body));
            lemma_suffix_of_suffix(body.skip(n + 1), body, s);
        }
    } else {
        assert(s.is_suffix_of(s));
    }
}

/// A key and its colon are followed by a suffix of the input, at least three
/// characters shorter than the input.
pub proof fn lemma_key_leaves_suffix(s: Seq<char>)
    ensures
        key_outcome(s) matches Ok((rest, _)) ==> rest.is_suffix_of(s) && rest.len() + 3 <= s.len(),
        key_outcome(s) matches Err(e) ==> e.at.is_suffix_of(s),
{
    let key = skip_spaces(s);
    lemma_skip_spaces_is_suffix(s);
    lemma_string_leaves_suffix(key);
    match string_inner_outcome(key) {
        Ok((rest, _)) => {
            let colon = skip_spaces(rest);
            lemma_skip_spaces_is_suffix(rest);
            lemma_suffix_of_suffix(rest, key, s);
            lemma_suffix_of_suffix(colon, rest, s);
            if starts_with(colon, ':') {
                lemma_suffix_of_skip(colon.skip(1), colon, 1);
                assert(colon.skip(1).is_suffix_of(colon.skip(1)));
                lemma_suffix_of_suffix(colon.skip(1), colon, s);
            }
        },
        Err(e) => {
            lemma_suffix_of_suffix(e.at, key, s);
        },
    }
}

} // verus!
