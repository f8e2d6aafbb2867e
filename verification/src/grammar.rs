//! The grammar of the outline format, as functions on sequences of
//! characters. Each gives what is read from the start of a text and what
//! text is left, or the point at which the text departs from the grammar.

use vstd::prelude::*;
use vstd::utf8::encode_utf8;
use crate::lexer::{is_char, not_char, not_digit, not_space, space, split_before};
use crate::node::ElementView;
use crate::tree::PropertyView;

verus! {

/// What the grammar asked for at the point where a text departed from it.
#[derive(Debug, Clone, Copy, PartialEq, Eq, Structural)]
pub enum Expected {
    /// A decimal digit.
    Digit,
    /// A number small enough for an index.
    Number,
    /// `(`
    OpenParen,
    /// `)`
    CloseParen,
    /// `#`
    Hash,
    /// `{`
    OpenBrace,
    /// `}`
    CloseBrace,
    /// `<`
    OpenAngle,
    /// `>`
    CloseAngle,
    /// `[`
    OpenBracket,
    /// `]`
    CloseBracket,
    /// `blob`
    BlobKeyword,
    /// `rbind`
    RbindKeyword,
    /// The marker `-` of a node line.
    Marker,
    /// The line feed that ends a node line.
    Newline,
}

/// A text that departs from the grammar: how many bytes of it were left at
/// that point, and what was expected there.
#[derive(Debug, Clone, Copy, PartialEq, Eq, Structural)]
pub struct ParseError {
    pub remaining: usize,
    pub expected: Expected,
}

/// What a rule of the grammar makes of a text: the text that is left and
/// the value read, or the failure.
pub type Parsed<T> = Result<(Seq<char>, T), ParseError>;

/// The number of bytes that a text takes.
pub open spec fn byte_len(s: Seq<char>) -> usize {
    encode_utf8(s).len() as usize
}

/// The failure of a rule that expected `expected` where `s` was left.
pub open spec fn fail(s: Seq<char>, expected: Expected) -> ParseError {
    ParseError { remaining: byte_len(s), expected }
}

/// The length of the longest prefix of `s` in which no character satisfies `stop`.
pub open spec fn span(s: Seq<char>, stop: spec_fn(char) -> bool) -> nat
    decreases s.len(),
{
    if s.len() > 0 && !stop(s[0]) {
        1 + span(s.skip(1), stop)
    } else {
        0
    }
}

/// Whether `s` starts with the character `c`.
pub open spec fn starts_with(s: Seq<char>, c: char) -> bool {
    s.len() > 0 && s[0] == c
}

/// The value of a decimal digit.
pub open spec fn digit_value(c: char) -> nat {
    (c as nat - '0' as nat) as nat
}

/// The number that a sequence of decimal digits writes.
pub open spec fn decimal(s: Seq<char>) -> nat
    decreases s.len(),
{
    if s.len() == 0 {
        0
    } else {
        decimal(s.drop_last()) * 10 + digit_value(s.last())
    }
}

/// The keyword of the blob property.
pub open spec fn blob_keyword() -> Seq<char> {
    seq!['b', 'l', 'o', 'b']
}

/// The keyword of the rbind property.
pub open spec fn rbind_keyword() -> Seq<char> {
    seq!['r', 'b', 'i', 'n', 'd']
}

/// integer := one or more decimal digits, as many as there are; the number
/// has to fit an index.
pub open spec fn spec_parse_numbers(s: Seq<char>) -> Parsed<usize> {
    let n = span(s, not_digit()) as int;
    if n == 0 {
        Err(fail(s, Expected::Digit))
    } else if decimal(s.take(n)) > usize::MAX {
        Err(fail(s, Expected::Number))
    } else {
        Ok((s.skip(n), decimal(s.take(n)) as usize))
    }
}

/// (`sep` integer)*, added to the integers in `acc`. A separator that no
/// integer follows is not read.
pub open spec fn spec_more_numbers(s: Seq<char>, sep: char, acc: Seq<usize>) -> (Seq<char>, Seq<usize>)
    decreases s.len(),
{
    if starts_with(s, sep) {
        match spec_parse_numbers(s.skip(1)) {
            Ok((rest, n)) => if rest.len() < s.len() {
                spec_more_numbers(rest, sep, acc.push(n))
            } else {
                (s, acc)
            },
            Err(_) => (s, acc),
        }
    } else {
        (s, acc)
    }
}

/// integer (`sep` integer)*
pub open spec fn spec_number_list(s: Seq<char>, sep: char) -> Parsed<Seq<usize>> {
    match spec_parse_numbers(s) {
        Ok((rest, n)) => Ok(spec_more_numbers(rest, sep, seq![n])),
        Err(e) => Err(e),
    }
}

/// `(` integer (`.` integer)* `)`
pub open spec fn spec_parse_id(s: Seq<char>) -> Parsed<Seq<usize>> {
    if starts_with(s, '(') {
        match spec_number_list(s.skip(1), '.') {
            Ok((rest, id)) => if starts_with(rest, ')') {
                Ok((rest.skip(1), id))
            } else {
                Err(fail(rest, Expected::CloseParen))
            },
            Err(e) => Err(e),
        }
    } else {
        Err(fail(s, Expected::OpenParen))
    }
}

/// reference := `#` address
pub open spec fn spec_uuid(s: Seq<char>) -> Parsed<Seq<usize>> {
    if starts_with(s, '#') {
        spec_parse_id(s.skip(1))
    } else {
        Err(fail(s, Expected::Hash))
    }
}

/// blob := `{` characters other than `}` `}` address
pub open spec fn spec_blob(s: Seq<char>) -> Parsed<(Seq<char>, Seq<usize>)> {
    if starts_with(s, '{') {
        let body = s.skip(1);
        let n = span(body, is_char('}')) as int;
        if n < body.len() {
            match spec_parse_id(body.skip(n + 1)) {
                Ok((rest, id)) => Ok((rest, (body.take(n), id))),
                Err(e) => Err(e),
            }
        } else {
            Err(fail(body, Expected::CloseBrace))
        }
    } else {
        Err(fail(s, Expected::OpenBrace))
    }
}

/// `blob`
pub open spec fn spec_prop_blob(s: Seq<char>) -> Parsed<PropertyView> {
    if blob_keyword().is_prefix_of(s) {
        Ok((s.skip(4), PropertyView::Blob))
    } else {
        Err(fail(s, Expected::BlobKeyword))
    }
}

/// `rbind[` integer (`,` integer)* `]`
pub open spec fn spec_prop_rbind(s: Seq<char>) -> Parsed<PropertyView> {
    if rbind_keyword().is_prefix_of(s) {
        let opened = s.skip(5);
        if starts_with(opened, '[') {
            match spec_number_list(opened.skip(1), ',') {
                Ok((rest, list)) => if starts_with(rest, ']') {
                    Ok((rest.skip(1), PropertyView::Rbind(list)))
                } else {
                    Err(fail(rest, Expected::CloseBracket))
                },
                Err(e) => Err(e),
            }
        } else {
            Err(fail(opened, Expected::OpenBracket))
        }
    } else {
        Err(fail(s, Expected::RbindKeyword))
    }
}

/// property := `<` (`blob` | `rbind[` integer (`,` integer)* `]`) `>`
pub open spec fn spec_property(s: Seq<char>) -> Parsed<PropertyView> {
    if starts_with(s, '<') {
        let inner = match spec_prop_blob(s.skip(1)) {
            Ok(found) => Ok(found),
            Err(_) => spec_prop_rbind(s.skip(1)),
        };
        match inner {
            Ok((rest, property)) => if starts_with(rest, '>') {
                Ok((rest.skip(1), property))
            } else {
                Err(fail(rest, Expected::CloseAngle))
            },
            Err(e) => Err(e),
        }
    } else {
        Err(fail(s, Expected::OpenAngle))
    }
}

/// word := the longest run of characters that are not whitespace; it may
/// be empty.
pub open spec fn spec_word(s: Seq<char>) -> (Seq<char>, Seq<char>) {
    let n = span(s, space()) as int;
    (s.skip(n), s.take(n))
}

/// One element: a reference, else a property, else a blob, else a word.
pub open spec fn spec_node_element(s: Seq<char>) -> (Seq<char>, ElementView) {
    match spec_uuid(s) {
        Ok((rest, id)) => (rest, ElementView::TempRef(id)),
        Err(_) => match spec_property(s) {
            Ok((rest, property)) => (rest, ElementView::Property(property)),
            Err(_) => match spec_blob(s) {
                Ok((rest, blob)) => (rest, ElementView::TempBlob(blob.0, blob.1)),
                Err(_) => (spec_word(s).0, ElementView::Word(spec_word(s).1)),
            },
        },
    }
}

/// (whitespace element)*, added to the elements in `acc`. Reading stops
/// where no whitespace follows an element.
pub open spec fn spec_more_elements(s: Seq<char>, acc: Seq<ElementView>) -> (Seq<char>, Seq<ElementView>)
    decreases s.len(),
{
    let k = span(s, not_space()) as int;
    if k == 0 {
        (s, acc)
    } else {
        let next = spec_node_element(s.skip(k));
        if next.0.len() < s.len() {
            spec_more_elements(next.0, acc.push(next.1))
        } else {
            (s, acc)
        }
    }
}

/// The elements of a content segment: element (whitespace element)*.
pub open spec fn spec_elements(line: Seq<char>) -> (Seq<char>, Seq<ElementView>) {
    let first = spec_node_element(line);
    spec_more_elements(first.0, seq![first.1])
}

/// A content segment: the text up to the next line feed, read as elements.
/// The line feed is left.
pub open spec fn spec_isolate_contents(s: Seq<char>) -> Parsed<Seq<ElementView>> {
    let n = span(s, is_char('\n')) as int;
    if n < s.len() {
        Ok((s.skip(n), spec_elements(s.take(n)).1))
    } else {
        Err(fail(s, Expected::Newline))
    }
}

/// Whether an element is kept: every element but the empty word.
pub open spec fn kept(e: ElementView) -> bool {
    match e {
        ElementView::Word(w) => w.len() > 0,
        _ => true,
    }
}

/// The elements that are kept, in their order.
pub open spec fn without_empty_words(elements: Seq<ElementView>) -> Seq<ElementView>
    decreases elements.len(),
{
    if elements.len() == 0 {
        elements
    } else {
        let before = without_empty_words(elements.drop_last());
        if kept(elements.last()) {
            before.push(elements.last())
        } else {
            before
        }
    }
}

/// The rest of a node line from its marker on: `-`, a content segment, a
/// line feed.
pub open spec fn spec_node_content(s: Seq<char>) -> Parsed<Seq<ElementView>> {
    if starts_with(s, '-') {
        match spec_isolate_contents(s.skip(1)) {
            Ok((rest, elements)) => Ok((rest.skip(1), without_empty_words(elements))),
            Err(e) => Err(e),
        }
    } else {
        Err(fail(s, Expected::Marker))
    }
}

/// The text after the line feeds at its start.
pub open spec fn after_newlines(s: Seq<char>) -> Seq<char> {
    s.skip(span(s, not_char('\n')) as int)
}

/// The depth of the node line that a text starts with: the number of
/// spaces between the line feeds at the start and the marker. Nothing is
/// read off the text.
pub open spec fn spec_get_depth(s: Seq<char>) -> Parsed<usize> {
    let line = after_newlines(s);
    let depth = span(line, not_char(' ')) as int;
    if starts_with(line.skip(depth), '-') {
        Ok((s, depth as usize))
    } else {
        Err(fail(line.skip(depth), Expected::Marker))
    }
}

/// A node line: whitespace, then the line from its marker on.
pub open spec fn spec_node_line(s: Seq<char>) -> Parsed<Seq<ElementView>> {
    spec_node_content(s.skip(span(s, not_space()) as int))
}

/// What the length of the longest prefix without a stopping character is.
pub proof fn lemma_span_bounds(s: Seq<char>, stop: spec_fn(char) -> bool)
    ensures
        span(s, stop) <= s.len(),
        forall|i: int| 0 <= i < span(s, stop) ==> !stop(#[trigger] s[i]),
        span(s, stop) < s.len() ==> stop(s[span(s, stop) as int]),
    decreases s.len(),
{
    if s.len() > 0 && !stop(s[0]) {
        lemma_span_bounds(s.skip(1), stop);
        assert forall|i: int| 0 <= i < span(s, stop) implies !stop(#[trigger] s[i]) by {
            if i > 0 {
                assert(s[i] == s.skip(1)[i - 1]);
            }
        }
    }
}

/// A prefix without a stopping character that ends at one, or at the end,
/// is the longest.
pub proof fn lemma_span_is(s: Seq<char>, stop: spec_fn(char) -> bool, n: int)
    requires
        0 <= n <= s.len(),
        forall|i: int| 0 <= i < n ==> !stop(#[trigger] s[i]),
        n < s.len() ==> stop(s[n]),
    ensures
        span(s, stop) == n,
    decreases n,
{
    if n > 0 {
        assert(!stop(s[0]));
        assert forall|i: int| 0 <= i < n - 1 implies !stop(#[trigger] s.skip(1)[i]) by {
            assert(s.skip(1)[i] == s[i + 1]);
        }
        lemma_span_is(s.skip(1), stop, n - 1);
    }
}

/// What a primitive recogniser hands back is the split at the span.
pub proof fn lemma_split_is_span(
    input: Seq<char>,
    head: Seq<char>,
    rest: Seq<char>,
    stop: spec_fn(char) -> bool,
)
    requires
        split_before(input, head, rest, stop),
    ensures
        span(input, stop) == head.len(),
        head == input.take(head.len() as int),
        rest == input.skip(head.len() as int),
{
    assert(head =~= input.take(head.len() as int));
    assert(rest =~= input.skip(head.len() as int));
    assert forall|i: int| 0 <= i < head.len() implies !stop(#[trigger] input[i]) by {
        assert(input[i] == head[i]);
    }
    if head.len() < input.len() {
        assert(input[head.len() as int] == rest[0]);
    }
    lemma_span_is(input, stop, head.len() as int);
}

/// The number written by a prefix of a digit sequence is no larger than
/// the number written by the whole.
pub proof fn lemma_decimal_grows(s: Seq<char>, k: int)
    requires
        0 <= k <= s.len(),
    ensures
        decimal(s.take(k)) <= decimal(s),
    decreases s.len() - k,
{
    if k < s.len() {
        lemma_decimal_grows(s, k + 1);
        assert(s.take(k + 1).drop_last() =~= s.take(k));
    } else {
        assert(s.take(k) =~= s);
    }
}

} // verus!
