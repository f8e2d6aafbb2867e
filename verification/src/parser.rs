//! The parser: the grammar read off a `&str`, and the construction of the
//! tree from the node lines.

use vstd::prelude::*;
use vstd::utf8::{encode_utf8, is_ascii_chars, is_ascii_chars_encode_utf8};
use crate::grammar::{
    blob_keyword, decimal, digit_value, fail, kept, lemma_decimal_grows, lemma_span_bounds,
    lemma_span_is, lemma_split_is_span, rbind_keyword, span, spec_blob, spec_elements,
    spec_get_depth, spec_isolate_contents, spec_more_elements, spec_more_numbers,
    spec_node_content, spec_node_element, spec_node_line, spec_number_list, spec_parse_id,
    spec_parse_numbers, spec_prop_blob, spec_prop_rbind, spec_property, spec_uuid, spec_word,
    starts_with, without_empty_words, Expected, ParseError, Parsed,
};
use crate::lexer::{
    is_char, is_digit, lex_digit1, lex_multispace0, lex_multispace1, lex_tag, lex_take_until,
    lex_word, not_char, not_digit, not_space, space,
};
use crate::linking::{
    open_links_are_waited_for, open_links_wait, slots_ok, unmet, unresolved_are_absent,
};
use crate::node::{Arena, ElementView, Node, NodeElement, NodeProperty};
use crate::registry::{fired, others, populate_node, populated, PendingView, Registry};
use crate::tree::{
    attached, child_pushed, complete_below, extends, fresh, lemma_extends_trans,
    lemma_same_shape_attached, lemma_same_shape_path, lemma_same_shape_trans, link_ok, path,
    sons_ok, wf, TreeView,
};

verus! {

/// An address as a sequence of indices.
pub type VecID = Vec<usize>;

/// What a parser hands back says what the grammar says of the text.
pub open spec fn agrees<'a, T: View>(r: Result<(&'a str, T), ParseError>, s: Parsed<T::V>) -> bool {
    match r {
        Ok((rest, value)) => s == Ok::<(Seq<char>, T::V), ParseError>((rest@, value@)),
        Err(e) => s == Err::<(Seq<char>, T::V), ParseError>(e),
    }
}

impl ParseError {
    /// The place of the failure in a text of `input_len` bytes, counted in
    /// bytes from its start.
    pub fn offset(&self, input_len: usize) -> (offset: usize)
        ensures
            offset == if self.remaining <= input_len {
                input_len - self.remaining
            } else {
                0
            },
    {
        if self.remaining <= input_len {
            input_len - self.remaining
        } else {
            0
        }
    }
}

/// The failure of a rule that expected `expected` where `input` was left.
fn fail_at(input: &str, expected: Expected) -> (e: ParseError)
    ensures
        e == fail(input@, expected),
{
    ParseError { remaining: input.len(), expected }
}

/// Reads the one character of `literal` off the start of `input`, where
/// `input` starts with it.
fn accept_char<'a>(input: &'a str, literal: &str, Ghost(c): Ghost<char>) -> (r: Option<&'a str>)
    requires
        literal@ == seq![c],
    ensures
        match r {
            Some(rest) => starts_with(input@, c) && rest@ == input@.skip(1),
            None => !starts_with(input@, c),
        },
{
    let r = lex_tag(input, literal);
    proof {
        match r {
            Some(rest) => {
                assert(input@[0] == literal@[0]);
                assert(rest@ =~= input@.skip(1));
            },
            None => {
                if starts_with(input@, c) {
                    assert(literal@ =~= input@.subrange(0, 1));
                }
            },
        }
    }
    r
}

/// Reads the one character of `literal` off the start of `input`, or fails.
fn expect_char<'a>(input: &'a str, literal: &str, Ghost(c): Ghost<char>, expected: Expected) -> (r:
    Result<&'a str, ParseError>)
    requires
        literal@ == seq![c],
    ensures
        match r {
            Ok(rest) => starts_with(input@, c) && rest@ == input@.skip(1),
            Err(e) => !starts_with(input@, c) && e == fail(input@, expected),
        },
{
    match accept_char(input, literal, Ghost(c)) {
        Some(rest) => Ok(rest),
        None => Err(fail_at(input, expected)),
    }
}

/// Reads `literal` off the start of `input`.
fn expect_keyword<'a>(input: &'a str, literal: &str, expected: Expected) -> (r: Result<
    &'a str,
    ParseError,
>)
    ensures
        match r {
            Ok(rest) => literal@.is_prefix_of(input@) && rest@ == input@.skip(literal@.len() as int),
            Err(e) => !literal@.is_prefix_of(input@) && e == fail(input@, expected),
        },
{
    match lex_tag(input, literal) {
        Some(rest) => {
            proof {
                assert(literal@ =~= input@.subrange(0, literal@.len() as int));
                assert(rest@ =~= input@.skip(literal@.len() as int));
            }
            Ok(rest)
        },
        None => Err(fail_at(input, expected)),
    }
}

/// A text has no more characters than bytes.
proof fn lemma_chars_fit(s: Seq<char>)
    ensures
        s.len() <= encode_utf8(s).len(),
    decreases s.len(),
{
    if s.len() > 0 {
        lemma_chars_fit(s.drop_first());
    }
}

/// The number that the digits write, or `None` where it does not fit.
fn decimal_value(digits: &str) -> (r: Option<usize>)
    requires
        forall|i: int| 0 <= i < digits@.len() ==> is_digit(#[trigger] digits@[i]),
    ensures
        match r {
            Some(n) => n == decimal(digits@),
            None => decimal(digits@) > usize::MAX,
        },
{
    let bytes = digits.as_bytes();
    proof {
        assert(is_ascii_chars(digits@));
        is_ascii_chars_encode_utf8(digits@);
        assert(digits@.take(0) =~= Seq::<char>::empty());
    }
    let mut acc: usize = 0;
    let mut i: usize = 0;
    while i < bytes.len()
        invariant
            i <= bytes@.len(),
            bytes@.len() == digits@.len(),
            forall|j: int| 0 <= j < digits@.len() ==> is_digit(#[trigger] digits@[j]),
            forall|j: int| 0 <= j < digits@.len() ==> digits@[j] as u8 == #[trigger] bytes@[j],
            acc == decimal(digits@.take(i as int)),
        decreases bytes@.len() - i,
    {
        let b = bytes[i];
        proof {
            assert(is_digit(digits@[i as int]));
            assert(digits@[i as int] as u8 == b);
            assert(digits@.take(i as int + 1).drop_last() =~= digits@.take(i as int));
            assert(digits@.take(i as int + 1).last() == digits@[i as int]);
        }
        let d: usize = (b - 48) as usize;
        proof {
            assert(d == digit_value(digits@[i as int]));
        }
        if acc > (usize::MAX - d) / 10 {
            proof {
                assert(acc * 10 + d > usize::MAX);
                lemma_decimal_grows(digits@, i as int + 1);
            }
            return None;
        }
        acc = acc * 10 + d;
        i += 1;
    }
    proof {
        assert(digits@.take(digits@.len() as int) =~= digits@);
    }
    Some(acc)
}

/// integer := one or more decimal digits
pub fn parse_numbers<'a>(input: &'a str) -> (r: Result<(&'a str, usize), ParseError>)
    ensures
        agrees(r, spec_parse_numbers(input@)),
{
    match lex_digit1(input) {
        Some((rest, digits)) => {
            proof {
                lemma_split_is_span(input@, digits@, rest@, not_digit());
            }
            match decimal_value(digits) {
                Some(n) => Ok((rest, n)),
                None => Err(fail_at(input, Expected::Number)),
            }
        },
        None => {
            proof {
                lemma_span_is(input@, not_digit(), 0);
            }
            Err(fail_at(input, Expected::Digit))
        },
    }
}

/// integer (`separator` integer)*
fn number_list<'a>(input: &'a str, separator: &str, Ghost(sep): Ghost<char>) -> (r: Result<
    (&'a str, Vec<usize>),
    ParseError,
>)
    requires
        separator@ == seq![sep],
    ensures
        agrees(r, spec_number_list(input@, sep)),
{
    let (mut rest, first) = match parse_numbers(input) {
        Ok(found) => found,
        Err(e) => {
            return Err(e);
        },
    };
    let ghost start = rest@;
    let mut list: Vec<usize> = Vec::new();
    list.push(first);
    loop
        invariant
            separator@ == seq![sep],
            spec_more_numbers(start, sep, seq![first]) == spec_more_numbers(rest@, sep, list@),
        ensures
            spec_more_numbers(start, sep, seq![first]) == (rest@, list@),
        decreases rest@.len(),
    {
        let after = match accept_char(rest, separator, Ghost(sep)) {
            Some(after) => after,
            None => {
                break ;
            },
        };
        match parse_numbers(after) {
            Ok((next, n)) => {
                proof {
                    lemma_span_bounds(after@, not_digit());
                }
                rest = next;
                list.push(n);
            },
            Err(_) => {
                break ;
            },
        }
    }
    Ok((rest, list))
}

/// address := `(` integer (`.` integer)* `)`
pub fn parse_id<'a>(input: &'a str) -> (r: Result<(&'a str, VecID), ParseError>)
    ensures
        agrees(r, spec_parse_id(input@)),
{
    proof {
        reveal_strlit("(");
        reveal_strlit(".");
        reveal_strlit(")");
        assert("("@ =~= seq!['(']);
        assert("."@ =~= seq!['.']);
        assert(")"@ =~= seq![')']);
    }
    let opened = match expect_char(input, "(", Ghost('('), Expected::OpenParen) {
        Ok(rest) => rest,
        Err(e) => {
            return Err(e);
        },
    };
    let (rest, id) = match number_list(opened, ".", Ghost('.')) {
        Ok(found) => found,
        Err(e) => {
            return Err(e);
        },
    };
    match expect_char(rest, ")", Ghost(')'), Expected::CloseParen) {
        Ok(closed) => Ok((closed, id)),
        Err(e) => Err(e),
    }
}

/// reference := `#` address
pub fn uuid<'a>(input: &'a str) -> (r: Result<(&'a str, VecID), ParseError>)
    ensures
        agrees(r, spec_uuid(input@)),
{
    proof {
        reveal_strlit("#");
        assert("#"@ =~= seq!['#']);
    }
    match expect_char(input, "#", Ghost('#'), Expected::Hash) {
        Ok(rest) => parse_id(rest),
        Err(e) => Err(e),
    }
}

/// blob := `{` characters other than `}` `}` address
pub fn blob<'a>(input: &'a str) -> (r: Result<(&'a str, (String, VecID)), ParseError>)
    ensures
        agrees(r, spec_blob(input@)),
{
    proof {
        reveal_strlit("{");
        reveal_strlit("}");
        assert("{"@ =~= seq!['{']);
        assert("}"@ =~= seq!['}']);
    }
    let body = match expect_char(input, "{", Ghost('{'), Expected::OpenBrace) {
        Ok(rest) => rest,
        Err(e) => {
            return Err(e);
        },
    };
    let (closing, text) = match lex_take_until(body, "}") {
        Some(found) => found,
        None => {
            proof {
                lemma_span_is(body@, is_char('}'), body@.len() as int);
            }
            return Err(fail_at(body, Expected::CloseBrace));
        },
    };
    proof {
        lemma_split_is_span(body@, text@, closing@, is_char('}'));
    }
    let after = match expect_char(closing, "}", Ghost('}'), Expected::CloseBrace) {
        Ok(rest) => rest,
        Err(e) => {
            return Err(e);
        },
    };
    proof {
        assert(after@ =~= body@.skip(text@.len() as int + 1));
    }
    match parse_id(after) {
        Ok((rest, id)) => Ok((rest, (text.to_owned(), id))),
        Err(e) => Err(e),
    }
}

/// `blob`
pub fn prop_blob<'a>(input: &'a str) -> (r: Result<(&'a str, NodeProperty), ParseError>)
    ensures
        agrees(r, spec_prop_blob(input@)),
{
    proof {
        reveal_strlit("blob");
        assert("blob"@ =~= blob_keyword());
    }
    match expect_keyword(input, "blob", Expected::BlobKeyword) {
        Ok(rest) => Ok((rest, NodeProperty::Blob)),
        Err(e) => Err(e),
    }
}

/// `rbind[` integer (`,` integer)* `]`
pub fn prop_rbind<'a>(input: &'a str) -> (r: Result<(&'a str, NodeProperty), ParseError>)
    ensures
        agrees(r, spec_prop_rbind(input@)),
{
    proof {
        reveal_strlit("rbind");
        reveal_strlit("[");
        reveal_strlit(",");
        reveal_strlit("]");
        assert("rbind"@ =~= rbind_keyword());
        assert("["@ =~= seq!['[']);
        assert(","@ =~= seq![',']);
        assert("]"@ =~= seq![']']);
    }
    let named = match expect_keyword(input, "rbind", Expected::RbindKeyword) {
        Ok(rest) => rest,
        Err(e) => {
            return Err(e);
        },
    };
    let opened = match expect_char(named, "[", Ghost('['), Expected::OpenBracket) {
        Ok(rest) => rest,
        Err(e) => {
            return Err(e);
        },
    };
    let (rest, list) = match number_list(opened, ",", Ghost(',')) {
        Ok(found) => found,
        Err(e) => {
            return Err(e);
        },
    };
    match expect_char(rest, "]", Ghost(']'), Expected::CloseBracket) {
        Ok(closed) => Ok((closed, NodeProperty::Rbind(list))),
        Err(e) => Err(e),
    }
}

/// property := `<` (`blob` | `rbind[` integer (`,` integer)* `]`) `>`
pub fn property<'a>(input: &'a str) -> (r: Result<(&'a str, NodeProperty), ParseError>)
    ensures
        agrees(r, spec_property(input@)),
{
    proof {
        reveal_strlit("<");
        reveal_strlit(">");
        assert("<"@ =~= seq!['<']);
        assert(">"@ =~= seq!['>']);
    }
    let opened = match expect_char(input, "<", Ghost('<'), Expected::OpenAngle) {
        Ok(rest) => rest,
        Err(e) => {
            return Err(e);
        },
    };
    let inner = match prop_blob(opened) {
        Ok(found) => Ok(found),
        Err(_) => prop_rbind(opened),
    };
    let (rest, found) = match inner {
        Ok(found) => found,
        Err(e) => {
            return Err(e);
        },
    };
    match expect_char(rest, ">", Ghost('>'), Expected::CloseAngle) {
        Ok(closed) => Ok((closed, found)),
        Err(e) => Err(e),
    }
}

/// word := the longest run of characters that are not whitespace. It may
/// be empty, and it is always found.
pub fn word<'a>(input: &'a str) -> (r: Result<(&'a str, &'a str), ParseError>)
    ensures
        r matches Ok((rest, word)) && (rest@, word@) == spec_word(input@),
{
    let (rest, word) = lex_word(input);
    proof {
        lemma_split_is_span(input@, word@, rest@, space());
    }
    Ok((rest, word))
}

/// One element: a reference, else a property, else a blob, else a word.
/// One of them is always found.
pub fn node_element<'a>(input: &'a str) -> (r: Result<(&'a str, NodeElement<'a>), ParseError>)
    ensures
        r matches Ok((rest, element)) && (rest@, element@) == spec_node_element(input@),
{
    match uuid(input) {
        Ok((rest, ref_id)) => {
            return Ok((rest, NodeElement::TempRef(ref_id)));
        },
        Err(_) => {},
    }
    match property(input) {
        Ok((rest, property)) => {
            return Ok((rest, NodeElement::Property(property)));
        },
        Err(_) => {},
    }
    match blob(input) {
        Ok((rest, blob)) => {
            return Ok((rest, NodeElement::TempBlob(blob)));
        },
        Err(_) => {},
    }
    match word(input) {
        Ok((rest, text)) => Ok((rest, NodeElement::Word(text))),
        Err(e) => Err(e),
    }
}

/// The mathematical values of the elements in a vector.
pub open spec fn element_views<'a>(elements: Seq<NodeElement<'a>>) -> Seq<ElementView> {
    elements.map_values(|e: NodeElement<'a>| e@)
}

/// What a parser of elements hands back says what the grammar says of the text.
pub open spec fn agree_elements<'a>(
    r: Result<(&'a str, Vec<NodeElement<'a>>), ParseError>,
    s: Parsed<Seq<ElementView>>,
) -> bool {
    match r {
        Ok((rest, elements)) => s == Ok::<(Seq<char>, Seq<ElementView>), ParseError>(
            (rest@, element_views(elements@)),
        ),
        Err(e) => s == Err::<(Seq<char>, Seq<ElementView>), ParseError>(e),
    }
}

/// The elements of a content segment: element (whitespace element)*.
/// Reading stops where no whitespace follows an element; what is left of
/// the segment is handed back.
fn elements<'a>(line: &'a str) -> (r: (&'a str, Vec<NodeElement<'a>>))
    ensures
        (r.0@, element_views(r.1@)) == spec_elements(line@),
{
    let mut list: Vec<NodeElement<'a>> = Vec::new();
    let mut rest = line;
    match node_element(line) {
        Ok((after, first)) => {
            rest = after;
            list.push(first);
        },
        Err(_) => {},
    }
    proof {
        assert(element_views(list@) =~= seq![spec_node_element(line@).1]);
    }
    loop
        invariant
            spec_elements(line@) == spec_more_elements(rest@, element_views(list@)),
        ensures
            spec_elements(line@) == (rest@, element_views(list@)),
        decreases rest@.len(),
    {
        let after = match lex_multispace1(rest) {
            Some((after, spaces)) => {
                proof {
                    lemma_split_is_span(rest@, spaces@, after@, not_space());
                }
                after
            },
            None => {
                proof {
                    lemma_span_is(rest@, not_space(), 0);
                }
                break ;
            },
        };
        match node_element(after) {
            Ok((next, element)) => {
                proof {
                    lemma_element_rest(after@);
                    assert(element_views(list@.push(element)) =~= element_views(list@).push(element@));
                }
                rest = next;
                list.push(element);
            },
            Err(_) => {
                break ;
            },
        }
    }
    (rest, list)
}

/// A content segment: the text up to the next line feed, read as elements.
/// The line feed is left.
pub fn isolate_contents<'a>(input: &'a str) -> (r: Result<(&'a str, Vec<NodeElement<'a>>), ParseError>)
    ensures
        agree_elements(r, spec_isolate_contents(input@)),
{
    proof {
        reveal_strlit("\n");
        assert("\n"@ =~= seq!['\n']);
    }
    match lex_take_until(input, "\n") {
        Some((rest, isolated)) => {
            proof {
                lemma_split_is_span(input@, isolated@, rest@, is_char('\n'));
            }
            let (_, list) = elements(isolated);
            Ok((rest, list))
        },
        None => {
            proof {
                lemma_span_is(input@, is_char('\n'), input@.len() as int);
            }
            Err(fail_at(input, Expected::Newline))
        },
    }
}

/// Whether an element is kept: every element but the empty word.
fn is_kept(element: &NodeElement) -> (k: bool)
    ensures
        k == kept(element@),
{
    match element {
        NodeElement::Word(iel) => !iel.is_empty(),
        _ => true,
    }
}

/// The rest of a node line from its marker on: `-`, a content segment, a
/// line feed. Empty words are left out.
pub fn node_content<'a>(input: &'a str) -> (r: Result<(&'a str, Vec<NodeElement<'a>>), ParseError>)
    ensures
        agree_elements(r, spec_node_content(input@)),
{
    proof {
        reveal_strlit("-");
        reveal_strlit("\n");
        assert("-"@ =~= seq!['-']);
        assert("\n"@ =~= seq!['\n']);
    }
    let marked = match expect_char(input, "-", Ghost('-'), Expected::Marker) {
        Ok(rest) => rest,
        Err(e) => {
            return Err(e);
        },
    };
    let (rest, all) = match isolate_contents(marked) {
        Ok(found) => found,
        Err(e) => {
            return Err(e);
        },
    };
    let ghost all_views = element_views(all@);
    let mut list: Vec<NodeElement<'a>> = Vec::new();
    proof {
        assert(all_views.take(0) =~= Seq::<ElementView>::empty());
        assert(element_views(list@) =~= Seq::<ElementView>::empty());
    }
    for element in it: all
        invariant
            it.seq() == all@,
            all_views == element_views(all@),
            element_views(list@) == without_empty_words(all_views.take(it.index() as int)),
    {
        let ghost i = it.index() as int;
        proof {
            assert(all_views.take(i + 1).drop_last() =~= all_views.take(i));
            assert(all_views.take(i + 1).last() == element@);
            assert(element_views(list@.push(element)) =~= element_views(list@).push(element@));
        }
        if is_kept(&element) {
            list.push(element);
        }
    }
    proof {
        assert(all_views.take(all_views.len() as int) =~= all_views);
        lemma_span_bounds(marked@, is_char('\n'));
    }
    match expect_char(rest, "\n", Ghost('\n'), Expected::Newline) {
        Ok(after) => Ok((after, list)),
        Err(e) => Err(e),
    }
}

/// Reads the run of the one character of `literal` off the start of
/// `input`, and counts it.
fn skip_run<'a>(input: &'a str, literal: &str, Ghost(c): Ghost<char>) -> (r: (&'a str, usize))
    requires
        literal@ == seq![c],
    ensures
        r.1 == span(input@, not_char(c)),
        r.0@ == input@.skip(r.1 as int),
{
    let bytes = input.as_bytes();
    let limit = bytes.len();
    proof {
        lemma_chars_fit(input@);
        lemma_span_bounds(input@, not_char(c));
        assert(input@.skip(0) =~= input@);
    }
    let mut rest = input;
    let mut count: usize = 0;
    loop
        invariant
            literal@ == seq![c],
            count <= input@.len() <= usize::MAX,
            rest@ == input@.skip(count as int),
            span(input@, not_char(c)) == count + span(rest@, not_char(c)),
        ensures
            span(input@, not_char(c)) == count,
            rest@ == input@.skip(count as int),
        decreases rest@.len(),
    {
        match accept_char(rest, literal, Ghost(c)) {
            Some(after) => {
                proof {
                    assert(after@ =~= input@.skip(count as int + 1));
                }
                rest = after;
                count += 1;
            },
            None => {
                break ;
            },
        }
    }
    (rest, count)
}

/// The depth of the node line that `input` starts with: the number of
/// spaces between the line feeds at the start and the marker `-`. Nothing
/// is read off: the text handed back is `input`.
pub fn get_depth<'a>(input: &'a str) -> (r: Result<(&'a str, usize), ParseError>)
    ensures
        agrees(r, spec_get_depth(input@)),
{
    proof {
        reveal_strlit("\n");
        reveal_strlit(" ");
        reveal_strlit("-");
        assert("\n"@ =~= seq!['\n']);
        assert(" "@ =~= seq![' ']);
        assert("-"@ =~= seq!['-']);
    }
    let (line, _) = skip_run(input, "\n", Ghost('\n'));
    let (marker, depth) = skip_run(line, " ", Ghost(' '));
    match expect_char(marker, "-", Ghost('-'), Expected::Marker) {
        Ok(_) => Ok((input, depth)),
        Err(e) => Err(e),
    }
}

/// An element leaves no more text than it was given.
pub proof fn lemma_element_rest(s: Seq<char>)
    ensures
        spec_node_element(s).0.len() <= s.len(),
{
    lemma_uuid_rest(s);
    lemma_property_rest(s);
    lemma_blob_rest(s);
    lemma_span_bounds(s, space());
}

/// A list of integers leaves no more text than it was given.
pub proof fn lemma_more_numbers_rest(s: Seq<char>, sep: char, acc: Seq<usize>)
    ensures
        spec_more_numbers(s, sep, acc).0.len() <= s.len(),
    decreases s.len(),
{
    if starts_with(s, sep) {
        if let Ok((rest, n)) = spec_parse_numbers(s.skip(1)) {
            if rest.len() < s.len() {
                lemma_more_numbers_rest(rest, sep, acc.push(n));
            }
        }
    }
}

/// A list of integers leaves less text than it was given.
pub proof fn lemma_number_list_rest(s: Seq<char>, sep: char)
    ensures
        spec_number_list(s, sep) matches Ok((rest, _)) ==> rest.len() < s.len(),
{
    lemma_span_bounds(s, not_digit());
    if let Ok((rest, n)) = spec_parse_numbers(s) {
        lemma_more_numbers_rest(rest, sep, seq![n]);
    }
}

/// An address leaves less text than it was given.
pub proof fn lemma_id_rest(s: Seq<char>)
    ensures
        spec_parse_id(s) matches Ok((rest, _)) ==> rest.len() < s.len(),
{
    if starts_with(s, '(') {
        lemma_number_list_rest(s.skip(1), '.');
    }
}

/// A reference leaves less text than it was given.
pub proof fn lemma_uuid_rest(s: Seq<char>)
    ensures
        spec_uuid(s) matches Ok((rest, _)) ==> rest.len() < s.len(),
{
    if starts_with(s, '#') {
        lemma_id_rest(s.skip(1));
    }
}

/// A property leaves less text than it was given.
pub proof fn lemma_property_rest(s: Seq<char>)
    ensures
        spec_property(s) matches Ok((rest, _)) ==> rest.len() < s.len(),
{
    if starts_with(s, '<') {
        let inner = s.skip(1);
        if rbind_keyword().is_prefix_of(inner) && starts_with(inner.skip(5), '[') {
            lemma_number_list_rest(inner.skip(5).skip(1), ',');
        }
    }
}

/// A blob leaves less text than it was given.
pub proof fn lemma_blob_rest(s: Seq<char>)
    ensures
        spec_blob(s) matches Ok((rest, _)) ==> rest.len() < s.len(),
{
    if starts_with(s, '{') {
        let body = s.skip(1);
        lemma_span_bounds(body, is_char('}'));
        let n = span(body, is_char('}')) as int;
        if n < body.len() {
            lemma_id_rest(body.skip(n + 1));
        }
    }
}

/// What the construction of a node and its subtree gives: the text that is
/// left, the table, the registry, and the handle of the node.
pub struct Built {
    pub rest: Seq<char>,
    pub tree: TreeView,
    pub pending: Seq<PendingView>,
    pub node: usize,
}

/// A construction that a departure from the grammar ended: the failure,
/// and the table and the registry as they were left.
pub struct Aborted {
    pub error: ParseError,
    pub tree: TreeView,
    pub pending: Seq<PendingView>,
}

/// The table and the registry after the node line with `elements` was made
/// into a node below `parent`: the node is made, the elements are added
/// with their links looked up or queued, and the resolutions that waited
/// for the address of the node are carried out.
pub open spec fn line_built(
    t: TreeView,
    pending: Seq<PendingView>,
    parent: Option<usize>,
    elements: Seq<ElementView>,
) -> (TreeView, Seq<PendingView>) {
    let node = t.len() as int;
    let filled = populated(t.push(fresh(t, parent)), pending, node, elements);
    let own = path(filled.0, node);
    (fired(filled.0, filled.1, own, node as usize), others(filled.1, own))
}

/// A node and its subtree, read off the start of `s`: the node line, then
/// as children the node lines that follow at a greater depth.
pub open spec fn spec_node(
    s: Seq<char>,
    t: TreeView,
    pending: Seq<PendingView>,
    parent: Option<usize>,
) -> Result<Built, Aborted>
    decreases s.len(), 0nat,
{
    match spec_get_depth(s) {
        Ok((_, depth)) => match spec_node_line(s) {
            Ok((rest, elements)) => {
                let made = line_built(t, pending, parent, elements);
                if rest.len() < s.len() {
                    spec_children(rest, made.0, made.1, t.len() as usize, depth)
                } else {
                    Err(Aborted { error: fail(s, Expected::Newline), tree: t, pending })
                }
            },
            Err(error) => Err(Aborted { error, tree: t, pending }),
        },
        Err(error) => Err(Aborted { error, tree: t, pending }),
    }
}

/// The children of `node`, read off the start of `s`: node lines as long as
/// they are deeper than `depth`. Each child is appended when its own
/// subtree is complete.
pub open spec fn spec_children(
    s: Seq<char>,
    t: TreeView,
    pending: Seq<PendingView>,
    node: usize,
    depth: usize,
) -> Result<Built, Aborted>
    decreases s.len(), 1nat,
{
    if s.len() == 0 {
        Ok(Built { rest: s, tree: t, pending, node })
    } else {
        match spec_get_depth(s) {
            Ok((_, next_depth)) => if depth < next_depth {
                match spec_node(s, t, pending, Some(node)) {
                    Ok(child) => if child.rest.len() < s.len() {
                        spec_children(
                            child.rest,
                            child_pushed(child.tree, node as int, child.node),
                            child.pending,
                            node,
                            depth,
                        )
                    } else {
                        Err(Aborted { error: fail(s, Expected::Newline), tree: t, pending })
                    },
                    Err(aborted) => Err(aborted),
                }
            } else {
                Ok(Built { rest: s, tree: t, pending, node })
            },
            Err(error) => Err(Aborted { error, tree: t, pending }),
        }
    }
}

/// A complete subtree stays complete when a further child of its root was
/// built after it and appended to the root.
proof fn lemma_complete_grows(before: TreeView, grown: TreeView, after: TreeView, root: int, child: usize)
    requires
        wf(before),
        wf(grown),
        0 <= root < before.len(),
        child == before.len(),
        child < grown.len(),
        extends(before, grown),
        complete_below(before, root),
        complete_below(grown, child as int),
        grown[child as int].parent == Some(root as usize),
        after == child_pushed(grown, root, child),
    ensures
        complete_below(after, root),
{
    assert forall|h: int| root < h < after.len() implies #[trigger] attached(after, h) && match after[h].parent {
        Some(p) => root <= p,
        None => false,
    } by {
        if h < before.len() {
            assert(attached(before, h));
            assert(link_ok(before, h));
            let p = before[h].parent->0;
            assert(grown[h].parent == before[h].parent);
            assert(grown[p as int].sons == before[p as int].sons);
            let i = before[p as int].sons.index_of(h as usize);
            assert(after[p as int].sons[i] == h);
        } else if h == child {
            assert(after[root].sons[grown[root].sons.len() as int] == child);
        } else {
            assert(attached(grown, h));
            let p = grown[h].parent->0;
            assert(sons_ok(grown, p as int));
            let i = grown[p as int].sons.index_of(h as usize);
            assert(after[p as int].sons[i] == h);
        }
    }
}

/// A node line leaves less text than it was given.
pub proof fn lemma_node_line_rest(s: Seq<char>)
    ensures
        spec_node_line(s) matches Ok((rest, _)) ==> rest.len() < s.len(),
{
    lemma_span_bounds(s, not_space());
    let line = s.skip(span(s, not_space()) as int);
    if starts_with(line, '-') {
        lemma_span_bounds(line.skip(1), is_char('\n'));
    }
}

/// Parses a node and its subtree off the start of `input` and builds them
/// in `arena` below `parent`, or as a root.
///
/// The node is made when its line is read. Each reference and blob on the
/// line is linked at once where its target is in the tree by then; the
/// others are queued in `wanted_uuids`, and linked when the node with the
/// address they wait for is made. The lines that follow at a greater depth
/// become the children, each appended when its own subtree is complete.
/// Reading stops before the first line that is not deeper than this node's,
/// or at the end of the text.
///
/// A text that departs from the grammar ends the construction there: the
/// nodes made until then stay in the table as they are, and the child that
/// was under construction is not appended.
///
/// When a root has been built, what is left in `wanted_uuids` waits for
/// addresses that no node of the tree has. When nothing waited before, a
/// resolution is left there for every link of the tree that is still open,
/// and each waits for a slot that holds a reference or a blob: the
/// references that could not be resolved are all reported, and no other.
pub fn node<'i>(
    input: &'i str,
    arena: &mut Arena,
    parent: Option<usize>,
    wanted_uuids: &mut Registry,
) -> (r: Result<(&'i str, usize), ParseError>)
    requires
        old(arena).wf(),
        parent matches Some(p) ==> p < old(arena)@.len(),
    ensures
        match r {
            Ok((rest, root)) => {
                &&& spec_node(input@, old(arena)@, old(wanted_uuids)@, parent) == Ok::<Built, Aborted>(
                    Built {
                        rest: rest@,
                        tree: final(arena)@,
                        pending: final(wanted_uuids)@,
                        node: root,
                    },
                )
                &&& root == old(arena)@.len()
                &&& root < final(arena)@.len()
                &&& final(arena)@[root as int].parent == parent
                &&& !attached(final(arena)@, root as int)
                &&& complete_below(final(arena)@, root as int)
                &&& rest@.len() < input@.len()
                &&& parent is None ==> unmet(final(arena)@, final(wanted_uuids)@, root as int, -1)
                &&& parent is None && old(wanted_uuids)@.len() == 0 ==> slots_ok(
                    final(arena)@,
                    final(wanted_uuids)@,
                ) && open_links_wait(final(arena)@, final(wanted_uuids)@, root as int)
            },
            Err(error) => spec_node(input@, old(arena)@, old(wanted_uuids)@, parent) == Err::<
                Built,
                Aborted,
            >(Aborted { error, tree: final(arena)@, pending: final(wanted_uuids)@ }),
        },
        final(arena).wf(),
        extends(old(arena)@, final(arena)@),
    decreases input@.len(),
{
    let ghost t0 = arena@;
    let ghost q0 = wanted_uuids@;
    let ghost goal = spec_node(input@, t0, q0, parent);
    let depth = match get_depth(input) {
        Ok((_, depth)) => depth,
        Err(e) => {
            return Err(e);
        },
    };
    let (line, blank) = lex_multispace0(input);
    proof {
        lemma_split_is_span(input@, blank@, line@, not_space());
        lemma_node_line_rest(input@);
    }
    let (mut rest, contents) = match node_content(line) {
        Ok(found) => found,
        Err(e) => {
            return Err(e);
        },
    };
    let ghost elements = element_views(contents@);
    let ghost rest1 = rest@;
    let new_node = Node::new(arena, parent);
    let ghost t1 = arena@;
    populate_node(arena, new_node, contents, wanted_uuids);
    let ghost t2 = arena@;
    proof {
        lemma_same_shape_path(t1, t2, new_node as int);
    }
    Node::check_and_rectify_wanted_status(arena, new_node, wanted_uuids);
    let ghost t3 = arena@;
    let ghost q3 = wanted_uuids@;
    proof {
        assert((t3, q3) == line_built(t0, q0, parent, elements));
        assert(goal == spec_children(rest1, t3, q3, new_node, depth));
        lemma_same_shape_trans(t1, t2, t3);
        lemma_same_shape_attached(t1, t3, new_node as int);
        assert(extends(t0, t3)) by {
            assert forall|h: int| 0 <= h < t0.len() implies (#[trigger] t3[h]).parent == t0[h].parent
                && t3[h].uuid == t0[h].uuid && t3[h].sons == t0[h].sons by {
                assert(t1[h] == t0[h]);
            }
        }
        assert(t3[new_node as int].parent == t1[new_node as int].parent);
    }
    loop
        invariant
            t0 == old(arena)@,
            q0 == old(wanted_uuids)@,
            goal == spec_node(input@, t0, q0, parent),
            arena.wf(),
            extends(t0, arena@),
            new_node == t0.len(),
            new_node < arena@.len(),
            arena@[new_node as int].parent == parent,
            parent matches Some(p) ==> p < t0.len(),
            wf(t0),
            !attached(arena@, new_node as int),
            complete_below(arena@, new_node as int),
            rest@.len() <= rest1.len(),
            rest1.len() < input@.len(),
            goal == spec_children(rest@, arena@, wanted_uuids@, new_node, depth),
        ensures
            arena.wf(),
            extends(t0, arena@),
            new_node < arena@.len(),
            arena@[new_node as int].parent == parent,
            !attached(arena@, new_node as int),
            complete_below(arena@, new_node as int),
            rest@.len() <= rest1.len(),
            goal == Ok::<Built, Aborted>(
                Built { rest: rest@, tree: arena@, pending: wanted_uuids@, node: new_node },
            ),
        decreases rest@.len(),
    {
        if rest.is_empty() {
            break ;
        }
        let next_depth = match get_depth(rest) {
            Ok((_, next_depth)) => next_depth,
            Err(e) => {
                return Err(e);
            },
        };
        if !(depth < next_depth) {
            break ;
        }
        let ghost before = arena@;
        let (after, child_node) = match node(rest, arena, Some(new_node), wanted_uuids) {
            Ok(found) => found,
            Err(e) => {
                proof {
                    lemma_extends_trans(t0, before, arena@);
                }
                return Err(e);
            },
        };
        let ghost grown = arena@;
        proof {
            assert(grown[new_node as int].sons == before[new_node as int].sons);
            assert(!attached(grown, new_node as int)) by {
                if let Some(p) = parent {
                    assert(grown[p as int].sons == before[p as int].sons);
                }
            }
        }
        Node::push_child(arena, new_node, child_node);
        proof {
            lemma_extends_trans(t0, before, grown);
            assert(extends(t0, arena@)) by {
                assert forall|h: int| 0 <= h < t0.len() implies (#[trigger] arena@[h]).parent
                    == t0[h].parent && arena@[h].uuid == t0[h].uuid && arena@[h].sons
                    == t0[h].sons by {
                    assert(arena@[h] == grown[h]);
                    assert(grown[h].parent == t0[h].parent);
                }
            }
            assert(!attached(arena@, new_node as int)) by {
                if let Some(p) = parent {
                    assert(arena@[p as int] == grown[p as int]);
                }
            }
            lemma_complete_grows(before, grown, arena@, new_node as int, child_node);
        }
        rest = after;
    }
    proof {
        arena.lemma_fits();
        if parent is None {
            unresolved_are_absent(input@, t0, q0);
            if q0.len() == 0 {
                assert(q0 =~= Seq::<PendingView>::empty());
                open_links_are_waited_for(input@, t0);
            }
        }
    }
    Ok((rest, new_node))
}

} // verus!
