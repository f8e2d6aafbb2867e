//! The lexical layer: the character classes of the grammar, and the
//! primitive recognisers, which are those of `nom` on `&str`.

use vstd::prelude::*;

verus! {

/// A decimal digit, `0` to `9`.
pub open spec fn is_digit(c: char) -> bool {
    '0' <= c <= '9'
}

/// A space, a tab, a carriage return or a line feed.
pub open spec fn is_space_spec(c: char) -> bool {
    c == ' ' || c == '\t' || c == '\r' || c == '\n'
}

/// Whether `c` separates the elements of a node line.
#[verifier::when_used_as_spec(is_space_spec)]
pub fn is_space(c: char) -> (b: bool)
    ensures
        b == is_space_spec(c),
{
    c == ' ' || c == '\t' || c == '\r' || c == '\n'
}

/// The test that a character is no decimal digit.
pub open spec fn not_digit() -> spec_fn(char) -> bool {
    |c: char| !is_digit(c)
}

/// The test that a character is whitespace.
pub open spec fn space() -> spec_fn(char) -> bool {
    |c: char| is_space_spec(c)
}

/// The test that a character is no whitespace.
pub open spec fn not_space() -> spec_fn(char) -> bool {
    |c: char| !is_space_spec(c)
}

/// The test that a character is `x`.
pub open spec fn is_char(x: char) -> spec_fn(char) -> bool {
    |c: char| c == x
}

/// The test that a character is not `x`.
pub open spec fn not_char(x: char) -> spec_fn(char) -> bool {
    |c: char| c != x
}

/// `head` is the longest prefix of `input` in which no character satisfies
/// `stop`, and `rest` is what follows it.
pub open spec fn split_before(
    input: Seq<char>,
    head: Seq<char>,
    rest: Seq<char>,
    stop: spec_fn(char) -> bool,
) -> bool {
    &&& input == head + rest
    &&& forall|i: int| 0 <= i < head.len() ==> !stop(#[trigger] head[i])
    &&& rest.len() > 0 ==> stop(rest[0])
}

/// `nom::bytes::complete::tag` on `&str`: where `input` starts with
/// `literal`, what follows the literal; `None` where it does not. nom
/// compares the bytes of the two texts, which start alike exactly when
/// their characters do.
#[verifier::external_body]
pub(crate) fn lex_tag<'a>(input: &'a str, literal: &str) -> (r: Option<&'a str>)
    ensures
        match r {
            Some(rest) => input@ == literal@ + rest@,
            None => !literal@.is_prefix_of(input@),
        },
{
    match nom::bytes::complete::tag::<&str, &str, nom::error::Error<&str>>(literal)(input) {
        Ok((rest, _)) => Some(rest),
        Err(_) => None,
    }
}

/// `nom::character::complete::digit1` on `&str`: the longest run of decimal
/// digits at the start of `input`, after what follows it; `None` where
/// `input` does not start with a digit.
#[verifier::external_body]
pub(crate) fn lex_digit1<'a>(input: &'a str) -> (r: Option<(&'a str, &'a str)>)
    ensures
        match r {
            Some((rest, digits)) => digits@.len() > 0 && split_before(
                input@,
                digits@,
                rest@,
                not_digit(),
            ),
            None => input@.len() == 0 || !is_digit(input@[0]),
        },
{
    match nom::character::complete::digit1::<&str, nom::error::Error<&str>>(input) {
        Ok((rest, digits)) => Some((rest, digits)),
        Err(_) => None,
    }
}

/// `nom::bytes::complete::take_until` on `&str`, for a pattern of one
/// character: what stands before the first occurrence of that character,
/// after what starts with it; `None` where the character does not occur.
#[verifier::external_body]
pub(crate) fn lex_take_until<'a>(input: &'a str, pattern: &str) -> (r: Option<(&'a str, &'a str)>)
    requires
        pattern@.len() == 1,
    ensures
        match r {
            Some((rest, taken)) => rest@.len() > 0 && split_before(
                input@,
                taken@,
                rest@,
                is_char(pattern@[0]),
            ),
            None => forall|i: int| 0 <= i < input@.len() ==> input@[i] != pattern@[0],
        },
{
    match nom::bytes::complete::take_until::<&str, &str, nom::error::Error<&str>>(pattern)(input) {
        Ok((rest, taken)) => Some((rest, taken)),
        Err(_) => None,
    }
}

/// `nom::character::complete::multispace0` on `&str`: the longest run of
/// spaces, tabs, carriage returns and line feeds at the start of `input`,
/// which may be empty, after what follows it. On a `&str` this recogniser
/// has no failure.
#[verifier::external_body]
pub(crate) fn lex_multispace0<'a>(input: &'a str) -> (r: (&'a str, &'a str))
    ensures
        split_before(input@, r.1@, r.0@, not_space()),
{
    match nom::character::complete::multispace0::<&str, nom::error::Error<&str>>(input) {
        Ok((rest, spaces)) => (rest, spaces),
        Err(_) => (input, ""),
    }
}

/// `nom::character::complete::multispace1` on `&str`: as `multispace0`,
/// but `None` where `input` does not start with one of these characters.
#[verifier::external_body]
pub(crate) fn lex_multispace1<'a>(input: &'a str) -> (r: Option<(&'a str, &'a str)>)
    ensures
        match r {
            Some((rest, spaces)) => spaces@.len() > 0 && split_before(
                input@,
                spaces@,
                rest@,
                not_space(),
            ),
            None => input@.len() == 0 || !is_space_spec(input@[0]),
        },
{
    match nom::character::complete::multispace1::<&str, nom::error::Error<&str>>(input) {
        Ok((rest, spaces)) => Some((rest, spaces)),
        Err(_) => None,
    }
}

/// `nom::bytes::complete::take_till` on `&str` with [`is_space`] as the
/// test: the longest run of characters that are none of space, tab,
/// carriage return and line feed at the start of `input`, which may be
/// empty, after what follows it. On a `&str` this recogniser has no
/// failure.
#[verifier::external_body]
pub(crate) fn lex_word<'a>(input: &'a str) -> (r: (&'a str, &'a str))
    ensures
        split_before(input@, r.1@, r.0@, space()),
{
    match nom::bytes::complete::take_till::<_, &str, nom::error::Error<&str>>(|c: char| is_space(c))(input) {
        Ok((rest, word)) => (rest, word),
        Err(_) => (input, ""),
    }
}

} // verus!
