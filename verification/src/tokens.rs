//! The token readers of `nom` that the productions are built from, each
//! behind a function whose contract Verus takes on trust.

use vstd::prelude::*;

verus! {

/// Whether `c` is one of the four characters that may stand between tokens:
/// space, tab, carriage return, line feed.
pub open spec fn is_space(c: char) -> bool {
    c == ' ' || c == '\t' || c == '\r' || c == '\n'
}

/// `s` without its leading run of space characters.
pub open spec fn skip_spaces(s: Seq<char>) -> Seq<char>
    decreases s.len(),
{
    if s.len() > 0 && is_space(s[0]) {
        skip_spaces(s.skip(1))
    } else {
        s
    }
}

/// Whether `token` stands in `input` at index `i`.
pub open spec fn occurs_at(token: Seq<char>, input: Seq<char>, i: int) -> bool {
    0 <= i && i + token.len() <= input.len() && input.subrange(i, i + token.len()) == token
}

/// What `nom::number::complete::double` reads at the beginning of `input`:
/// the remainder and the IEEE 754 binary64 bits of the value, or nothing where
/// it reads no number.
pub uninterp spec fn double_outcome(input: Seq<char>) -> Option<(Seq<char>, u64)>;

/// Calls `nom::bytes::complete::tag`. Taken on trust: where `input` begins
/// with `token`, the result is `input` without that beginning; otherwise there
/// is none.
#[verifier::external_body]
pub(crate) fn tag<'a>(token: &str, input: &'a str) -> (r: Option<&'a str>)
    ensures
        match r {
            Some(rest) => occurs_at(token@, input@, 0) && rest@ == input@.skip(token@.len() as int),
            None => !occurs_at(token@, input@, 0),
        },
{
    match nom::bytes::complete::tag::<&str, &str, nom::error::Error<&str>>(token)(input) {
        Ok((rest, _)) => Some(rest),
        Err(_) => None,
    }
}

/// Calls `nom::bytes::complete::take_until`. Taken on trust: the result splits
/// `input` in front of the first place where `token` stands in it, into the
/// remainder, which begins with `token`, and what precedes it; there is none
/// where `token` stands nowhere in `input`.
#[verifier::external_body]
pub(crate) fn take_until<'a>(token: &str, input: &'a str) -> (r: Option<(&'a str, &'a str)>)
    ensures
        match r {
            Some((rest, taken)) => {
                &&& occurs_at(token@, input@, taken@.len() as int)
                &&& forall|i: int| 0 <= i < taken@.len() ==> !occurs_at(token@, input@, i)
                &&& taken@ == input@.take(taken@.len() as int)
                &&& rest@ == input@.skip(taken@.len() as int)
            },
            None => forall|i: int| !occurs_at(token@, input@, i),
        },
{
    match nom::bytes::complete::take_until::<&str, &str, nom::error::Error<&str>>(token)(input) {
        Ok((rest, taken)) => Some((rest, taken)),
        Err(_) => None,
    }
}

/// Calls `nom::character::complete::multispace0`. Taken on trust: the result
/// is `input` without its leading spaces, tabs, carriage returns and line
/// feeds.
#[verifier::external_body]
pub(crate) fn multispace0<'a>(input: &'a str) -> (rest: &'a str)
    ensures
        rest@ == skip_spaces(input@),
{
    match nom::character::complete::multispace0::<&str, nom::error::Error<&str>>(input) {
        Ok((rest, _)) => rest,
        Err(_) => input,
    }
}

/// Calls `nom::number::complete::double`. Taken on trust: what it reads
/// depends on the characters of `input` alone, and the remainder it leaves is
/// a suffix of `input`. The value is handed on as its bits; an error of any
/// kind as nothing.
#[verifier::external_body]
pub(crate) fn double<'a>(input: &'a str) -> (r: Option<(&'a str, u64)>)
    ensures
        double_outcome(input@) == match r {
            Some((rest, bits)) => Some((rest@, bits)),
            None => None,
        },
        r matches Some((rest, _)) ==> rest@.is_suffix_of(input@),
{
    match nom::number::complete::double::<&str, nom::error::Error<&str>>(input) {
        Ok((rest, value)) => Some((rest, value.to_bits())),
        Err(_) => None,
    }
}

} // verus!
