//! What the rendering writes of an address, the grammar reads back.

use vstd::prelude::*;
use crate::grammar::{
    decimal, digit_value, lemma_span_is, spec_more_numbers, spec_number_list, spec_parse_id,
    spec_parse_numbers, spec_uuid, starts_with, ParseError,
};
use crate::lexer::{is_digit, not_digit};
use crate::render::{decimal_digits, digit_char, dotted};

verus! {

/// What follows the first index of a written address: a dot and the digits
/// of each further index.
pub open spec fn dotted_tail(q: Seq<usize>) -> Seq<char>
    decreases q.len(),
{
    if q.len() == 0 {
        Seq::empty()
    } else {
        seq!['.'] + decimal_digits(q[0] as nat) + dotted_tail(q.skip(1))
    }
}

/// The digits that write a number are digits, and they write that number.
pub proof fn lemma_decimal_digits(n: nat)
    ensures
        decimal_digits(n).len() >= 1,
        forall|i: int| 0 <= i < decimal_digits(n).len() ==> is_digit(#[trigger] decimal_digits(n)[i]),
        decimal(decimal_digits(n)) == n,
    decreases n,
{
    let d = if n < 10 {
        n
    } else {
        n % 10
    };
    assert(is_digit(digit_char(d)) && digit_value(digit_char(d)) == d);
    if n < 10 {
        assert(decimal_digits(n).drop_last() =~= Seq::<char>::empty());
        assert(decimal(decimal_digits(n).drop_last()) == 0);
    } else {
        lemma_decimal_digits(n / 10);
        assert(decimal_digits(n).drop_last() =~= decimal_digits(n / 10));
    }
}

/// A written number reads back as itself, where no digit follows it.
pub proof fn lemma_number_reads_back(n: usize, rest: Seq<char>)
    requires
        !(rest.len() > 0 && is_digit(rest[0])),
    ensures
        spec_parse_numbers(decimal_digits(n as nat) + rest) == Ok::<(Seq<char>, usize), ParseError>(
            (rest, n),
        ),
{
    let digits = decimal_digits(n as nat);
    let s = digits + rest;
    lemma_decimal_digits(n as nat);
    assert forall|i: int| 0 <= i < digits.len() implies !not_digit()(#[trigger] s[i]) by {
        assert(s[i] == digits[i]);
    }
    if digits.len() < s.len() {
        assert(s[digits.len() as int] == rest[0]);
    }
    lemma_span_is(s, not_digit(), digits.len() as int);
    assert(s.take(digits.len() as int) =~= digits);
    assert(s.skip(digits.len() as int) =~= rest);
}

/// The written tail of an address reads back as the indices it was
/// written from, where neither a dot nor a digit follows it.
pub proof fn lemma_tail_reads_back(q: Seq<usize>, rest: Seq<char>, acc: Seq<usize>)
    requires
        !starts_with(rest, '.'),
        !(rest.len() > 0 && is_digit(rest[0])),
    ensures
        spec_more_numbers(dotted_tail(q) + rest, '.', acc) == (rest, acc + q),
    decreases q.len(),
{
    let s = dotted_tail(q) + rest;
    if q.len() == 0 {
        assert(s =~= rest);
        assert(acc + q =~= acc);
    } else {
        let after = dotted_tail(q.skip(1)) + rest;
        lemma_decimal_digits(q[0] as nat);
        assert(s[0] == '.');
        assert(s.skip(1) =~= decimal_digits(q[0] as nat) + after);
        assert(!(after.len() > 0 && is_digit(after[0]))) by {
            if q.skip(1).len() > 0 {
                assert(after[0] == '.');
            } else {
                assert(after =~= rest);
            }
        }
        lemma_number_reads_back(q[0], after);
        lemma_tail_reads_back(q.skip(1), rest, acc.push(q[0]));
        assert(acc.push(q[0]) + q.skip(1) =~= acc + q);
    }
}

/// Writing one more index adds a dot and its digits.
pub proof fn lemma_tail_push(q: Seq<usize>, x: usize)
    ensures
        dotted_tail(q.push(x)) == dotted_tail(q) + seq!['.'] + decimal_digits(x as nat),
    decreases q.len(),
{
    if q.len() == 0 {
        assert(q.push(x).skip(1) =~= Seq::<usize>::empty());
        assert(dotted_tail(q.push(x).skip(1)) =~= Seq::<char>::empty());
        assert(dotted_tail(q) =~= Seq::<char>::empty());
        assert(dotted_tail(q.push(x)) =~= dotted_tail(q) + seq!['.'] + decimal_digits(x as nat));
    } else {
        lemma_tail_push(q.skip(1), x);
        assert(q.push(x).skip(1) =~= q.skip(1).push(x));
        assert(dotted_tail(q.push(x)) =~= dotted_tail(q) + seq!['.'] + decimal_digits(x as nat));
    }
}

/// A written address is the digits of its first index and the written tail.
pub proof fn lemma_dotted_is_head_and_tail(p: Seq<usize>)
    requires
        p.len() >= 1,
    ensures
        dotted(p) == decimal_digits(p[0] as nat) + dotted_tail(p.skip(1)),
    decreases p.len(),
{
    if p.len() == 1 {
        assert(dotted(p) =~= decimal_digits(p[0] as nat) + dotted_tail(p.skip(1)));
    } else {
        lemma_dotted_is_head_and_tail(p.drop_last());
        lemma_tail_push(p.drop_last().skip(1), p.last());
        assert(p.drop_last().skip(1).push(p.last()) =~= p.skip(1));
        assert(dotted(p) =~= decimal_digits(p[0] as nat) + dotted_tail(p.skip(1)));
    }
}

/// An address in parentheses, written as the rendering writes it, reads
/// back as the same address, whatever follows the closing parenthesis; and
/// so does a reference to it.
pub proof fn address_reads_back(p: Seq<usize>, rest: Seq<char>)
    requires
        p.len() >= 1,
    ensures
        spec_parse_id(seq!['('] + dotted(p) + seq![')'] + rest) == Ok::<(Seq<char>, Seq<usize>), ParseError>(
            (rest, p),
        ),
        spec_uuid(seq!['#', '('] + dotted(p) + seq![')'] + rest) == Ok::<(Seq<char>, Seq<usize>), ParseError>(
            (rest, p),
        ),
{
    let closed = seq![')'] + rest;
    let s = seq!['('] + dotted(p) + seq![')'] + rest;
    let inner = s.skip(1);
    lemma_dotted_is_head_and_tail(p);
    let tail = dotted_tail(p.skip(1)) + closed;
    assert(inner =~= decimal_digits(p[0] as nat) + tail);
    assert(!(tail.len() > 0 && is_digit(tail[0]))) by {
        if p.skip(1).len() > 0 {
            assert(tail[0] == '.');
        } else {
            assert(tail =~= closed);
        }
    }
    lemma_number_reads_back(p[0], tail);
    lemma_tail_reads_back(p.skip(1), closed, seq![p[0]]);
    assert(seq![p[0]] + p.skip(1) =~= p);
    assert(spec_number_list(inner, '.') == Ok::<(Seq<char>, Seq<usize>), ParseError>((closed, p)));
    assert(closed.skip(1) =~= rest);
    let r = seq!['#', '('] + dotted(p) + seq![')'] + rest;
    assert(r.skip(1) =~= s);
}

} // verus!
