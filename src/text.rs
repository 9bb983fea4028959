//! Synthetic identifiers and the literals of constant nodes.
use vstd::prelude::*;
use crate::formula::{float_literal, parse_number};
use vstd::std_specs::iter::IteratorSpec;

verus! {

/// The decimal digit for `d < 10`.
pub open spec fn digit(d: nat) -> char {
    if d == 0 { '0' } else if d == 1 { '1' } else if d == 2 { '2' } else if d == 3 { '3' }
    else if d == 4 { '4' } else if d == 5 { '5' } else if d == 6 { '6' } else if d == 7 { '7' }
    else if d == 8 { '8' } else { '9' }
}

/// The decimal notation of `n`, without leading zeros.
pub open spec fn decimal(n: nat) -> Seq<char>
    decreases n,
{
    if n < 10 { seq![digit(n)] } else { decimal(n / 10).push(digit(n % 10)) }
}

/// The name under which a node's output is visible to the formulas it feeds.
pub open spec fn ident(id: usize) -> Seq<char> {
    seq!['i', 'd'] + decimal(id as nat)
}

/// The fields of `s` between commas, from left to right.
pub open spec fn comma_fields(s: Seq<char>) -> Seq<Seq<char>>
    decreases s.len(),
{
    if s.len() == 0 {
        seq![Seq::empty()]
    } else {
        let f = comma_fields(s.drop_last());
        if s.last() == ',' {
            f.push(Seq::empty())
        } else {
            f.update(f.len() - 1, f.last().push(s.last()))
        }
    }
}

/// The numbers of a comma-separated list, if every field is one.
pub open spec fn sequence_literal(s: Seq<char>) -> Option<Seq<u64>> {
    let fields = comma_fields(s);
    if forall|i: int| 0 <= i < fields.len() ==> (#[trigger] float_literal(fields[i])) is Some {
        Some(Seq::new(fields.len(), |i: int| float_literal(fields[i])->0))
    } else {
        None
    }
}

/// Relies on `FromIterator<char>` for `String`: the characters in order.
#[verifier::external_body]
fn string_of(chars: Vec<char>) -> (r: String)
    ensures
        r@ == chars@,
{
    chars.into_iter().collect()
}

/// The characters of the text in order.
fn chars_of(s: &str) -> (r: Vec<char>)
    ensures
        r@ == s@,
{
    broadcast use vstd::string::axiom_spec_iter, vstd::string::next_postcondition;

    let mut it = s.chars();
    let mut out: Vec<char> = Vec::new();
    assert(it.remaining() == s@);
    loop
        invariant
            it.obeys_prophetic_iter_laws(),
            out@ + it.remaining() == s@,
        decreases s@.len() - out@.len(),
    {
        match it.next() {
            Some(c) => {
                out.push(c);
                assert(out@ + it.remaining() =~= s@);
            },
            None => {
                assert(out@ =~= s@);
                return out;
            },
        }
    }
}

fn digit_char(d: usize) -> (c: char)
    requires
        d < 10,
    ensures
        c == digit(d as nat),
{
    if d == 0 { '0' } else if d == 1 { '1' } else if d == 2 { '2' } else if d == 3 { '3' }
    else if d == 4 { '4' } else if d == 5 { '5' } else if d == 6 { '6' } else if d == 7 { '7' }
    else if d == 8 { '8' } else { '9' }
}

fn push_decimal(out: &mut Vec<char>, n: usize)
    ensures
        final(out)@ == old(out)@ + decimal(n as nat),
    decreases n,
{
    if n < 10 {
        out.push(digit_char(n));
        assert(decimal(n as nat) == seq![digit(n as nat)]);
    } else {
        push_decimal(out, n / 10);
        out.push(digit_char(n % 10));
    }
}

/// The synthetic identifier of node `id`: `id` followed by its decimal number.
pub fn identifier(id: usize) -> (r: String)
    ensures
        r@ == ident(id),
{
    let mut chars: Vec<char> = vec!['i', 'd'];
    push_decimal(&mut chars, id);
    string_of(chars)
}

/// Parses a comma-separated list of decimal numbers.
pub fn parse_sequence(text: &str) -> (r: Option<Vec<u64>>)
    ensures
        match r {
            Some(v) => sequence_literal(text@) == Some(v@),
            None => sequence_literal(text@) is None,
        },
{
    let chars = chars_of(text);
    let ghost s = chars@;
    let mut fields: Vec<Vec<char>> = Vec::new();
    let ghost mut done: Seq<Seq<char>> = Seq::empty();
    let mut current: Vec<char> = Vec::new();
    let mut i: usize = 0;
    proof {
        assert(s.take(0) =~= Seq::<char>::empty());
    }
    while i < chars.len()
        invariant
            i <= chars.len(),
            s == chars@,
            fields@.len() == done.len(),
            forall|j: int| 0 <= j < done.len() ==> (#[trigger] fields@[j])@ == done[j],
            comma_fields(s.take(i as int)) == done.push(current@),
        decreases chars.len() - i,
    {
        let c = chars[i];
        proof {
            assert(s.take(i + 1).drop_last() =~= s.take(i as int));
            assert(s.take(i + 1).last() == c);
        }
        if c == ',' {
            proof {
                done = done.push(current@);
            }
            fields.push(current);
            current = Vec::new();
            proof {
                assert(current@ =~= Seq::<char>::empty());
            }
        } else {
            let ghost prev = done.push(current@);
            current.push(c);
            proof {
                assert(done.push(current@) =~= prev.update(prev.len() - 1, prev.last().push(c)));
            }
        }
        i = i + 1;
    }
    proof {
        assert(s.take(i as int) =~= s);
        done = done.push(current@);
    }
    fields.push(current);
    let ghost all = done;
    let mut out: Vec<u64> = Vec::new();
    let mut k: usize = 0;
    while k < fields.len()
        invariant
            k <= fields.len(),
            fields@.len() == all.len(),
            forall|j: int| 0 <= j < all.len() ==> (#[trigger] fields@[j])@ == all[j],
            all == comma_fields(text@),
            out@.len() == k,
            forall|j: int| 0 <= j < k ==> float_literal(#[trigger] all[j]) == Some(out@[j]),
        decreases fields.len() - k,
    {
        let field = string_of(fields[k].clone());
        assert(field@ == all[k as int]);
        match parse_number(field.as_str()) {
            Some(b) => out.push(b),
            None => {
                assert(float_literal(all[k as int]) is None);
                return None;
            },
        }
        k = k + 1;
    }
    assert(Seq::new(all.len(), |j: int| float_literal(all[j])->0) =~= out@);
    Some(out)
}

/// Parses a decimal number.
pub fn parse_scalar(text: &str) -> (r: Option<u64>)
    ensures
        r == float_literal(text@),
{
    parse_number(text)
}

} // verus!
