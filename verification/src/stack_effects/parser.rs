//! Reading an effect such as `(..a f(..a -- ..b) -- ..b)` into a
//! scratchpad.
use vstd::prelude::*;
use crate::errors::Error;
use crate::text::{chars_eq_str, copy_chars, suffix_from};
use super::element::{Element, ElementRef, StackEffect};
use super::scratchpad::{Scratchpad, refs_below, view_below};
use super::sequence::{normalize_in, new_marks, push_ref};
use crate::stack_effect::{p_effect, p_seq, toks_view, lparen, rparen, dashes};

verus! {

/// Where the elements of the tokens from `pos` up to `term` end, or the
/// error that reading them gives.
pub open spec fn seq_end(tv: Seq<Seq<char>>, pos: int, term: Seq<char>) -> Result<int, Error> {
    match p_seq(tv, pos, term) {
        Ok((_, e)) => Ok(e),
        Err(e) => Err(e),
    }
}

/// Where the effect that starts at `pos` ends, or the error that reading
/// it gives.
pub open spec fn effect_end(tv: Seq<Seq<char>>, pos: int) -> Result<int, Error> {
    match p_effect(tv, pos) {
        Ok((_, e)) => Ok(e),
        Err(e) => Err(e),
    }
}

/// Whether a token is `--`.
pub open spec fn is_separator(t: Seq<char>) -> bool {
    t == seq!['-', '-']
}

/// Whether a token is `)`.
pub open spec fn is_close(t: Seq<char>) -> bool {
    t == seq![')']
}

/// Whether a token names a row: it starts with `..`.
pub open spec fn is_row_token(t: Seq<char>) -> bool {
    t.len() >= 2 && t[0] == '.' && t[1] == '.'
}

fn token_is(t: &Vec<char>, c: char) -> (r: bool)
    ensures
        r == (t@ == seq![c]),
{
    if t.len() == 1 && t[0] == c {
        assert(t@ =~= seq![c]);
        true
    } else {
        false
    }
}

fn is_separator_token(t: &Vec<char>) -> (r: bool)
    ensures
        r == is_separator(t@),
{
    if t.len() == 2 && t[0] == '-' && t[1] == '-' {
        assert(t@ =~= seq!['-', '-']);
        true
    } else {
        false
    }
}

/// Reads an effect from `tokens`, starting at `pos` (past an opening `(`
/// if there is one) and ending after its closing `)`; returns the effect
/// and the position after it. Names are merged into the scratchpad's
/// registered elements. When neither side starts with a row, an anonymous
/// row `.._` is put under both.
pub fn parse_effect(pad: &mut Scratchpad, tokens: &Vec<Vec<char>>, pos: usize) -> (r: Result<(StackEffect, usize), Error>)
    requires
        old(pad).wf(),
        pos <= tokens@.len(),
    ensures
        final(pad).wf(),
        old(pad).len() <= final(pad).len(),
        match r {
            Ok((se, q)) => {
                &&& pos < q <= tokens@.len()
                &&& is_close(tokens@[q - 1]@)
                &&& refs_below(se.inputs@, final(pad).len())
                &&& refs_below(se.outputs@, final(pad).len())
            },
            Err(e) => e == Error::EndOfInput || e == Error::IncompatibleStackEffects,
        },
        pos < tokens@.len() && tokens@[pos as int]@ == lparen() ==> {
            &&& (r matches Ok((_, q)) ==> effect_end(toks_view(tokens@), pos as int) == Ok::<int, Error>(q as int))
            &&& (r == Err::<(StackEffect, usize), Error>(Error::EndOfInput) ==> effect_end(toks_view(tokens@), pos as int)
                == Err::<int, Error>(Error::EndOfInput))
        },
    decreases tokens@.len() - pos, 1nat,
{
    let ghost tv = toks_view(tokens@);
    let ghost opened = pos < tokens@.len() && tokens@[pos as int]@ == lparen();
    let mut p = pos;
    if p < tokens.len() && token_is(&tokens[p], '(') {
        p = p + 1;
    }
    assert(opened ==> p == pos + 1 && tv[pos as int] == lparen());
    let (mut inputs, p2) = match parse_sequence(pad, tokens, p, false) {
        Ok(x) => x,
        Err(e) => {
            return Err(e);
        },
    };
    let (mut outputs, p3) = match parse_sequence(pad, tokens, p2, true) {
        Ok(x) => x,
        Err(e) => {
            assert(opened && e == Error::EndOfInput ==> effect_end(tv, pos as int) == Err::<int, Error>(Error::EndOfInput));
            return Err(e);
        },
    };
    assert(opened ==> effect_end(tv, pos as int) == Ok::<int, Error>(p3 as int));
    let i0 = inputs.len() > 0 && pad.get(inputs[0]).is_ellipsis();
    let o0 = outputs.len() > 0 && pad.get(outputs[0]).is_ellipsis();
    if !i0 && !o0 {
        let mut name: Vec<char> = Vec::new();
        name.push('_');
        let id = pad.insert(Element::Ellipsis(name));
        let mut ni: Vec<ElementRef> = Vec::new();
        push_ref(&mut ni, id, Ghost(pad.len()));
        let mut no: Vec<ElementRef> = Vec::new();
        push_ref(&mut no, id, Ghost(pad.len()));
        let mut k: usize = 0;
        while k < inputs.len()
            invariant
                pad.wf(),
                refs_below(inputs@, pad.len()),
                refs_below(ni@, pad.len()),
                k <= inputs@.len(),
            decreases inputs@.len() - k,
        {
            push_ref(&mut ni, inputs[k], Ghost(pad.len()));
            k = k + 1;
        }
        let mut k: usize = 0;
        while k < outputs.len()
            invariant
                pad.wf(),
                refs_below(outputs@, pad.len()),
                refs_below(no@, pad.len()),
                k <= outputs@.len(),
            decreases outputs@.len() - k,
        {
            push_ref(&mut no, outputs[k], Ghost(pad.len()));
            k = k + 1;
        }
        inputs = ni;
        outputs = no;
    }
    let mut marks = new_marks(pad.arena.len());
    let ins = normalize_in(pad, &inputs, &mut marks);
    let outs = normalize_in(pad, &outputs, &mut marks);
    Ok((StackEffect { inputs: ins, outputs: outs }, p3))
}

/// Reads elements up to `--` (or `)` when `closing`), which is consumed.
fn parse_sequence(pad: &mut Scratchpad, tokens: &Vec<Vec<char>>, pos: usize, closing: bool)
    -> (r: Result<(Vec<ElementRef>, usize), Error>)
    requires
        old(pad).wf(),
        pos <= tokens@.len(),
    ensures
        final(pad).wf(),
        old(pad).len() <= final(pad).len(),
        match r {
            Ok((s, q)) => {
                &&& pos < q <= tokens@.len()
                &&& (closing ==> is_close(tokens@[q - 1]@))
                &&& refs_below(s@, final(pad).len())
            },
            Err(e) => e == Error::EndOfInput || e == Error::IncompatibleStackEffects,
        },
        (r matches Ok((_, q)) ==> seq_end(toks_view(tokens@), pos as int, if closing { rparen() } else { dashes() })
            == Ok::<int, Error>(q as int)),
        (r == Err::<(Vec<ElementRef>, usize), Error>(Error::EndOfInput) ==> seq_end(toks_view(tokens@), pos as int, if closing {
            rparen()
        } else {
            dashes()
        }) == Err::<int, Error>(Error::EndOfInput)),
    decreases tokens@.len() - pos, 0nat,
{
    let ghost tv = toks_view(tokens@);
    let ghost term = if closing { rparen() } else { dashes() };
    let mut seq: Vec<ElementRef> = Vec::new();
    let mut q = pos;
    while q < tokens.len()
        invariant
            pad.wf(),
            old(pad).len() <= pad.len(),
            pos <= q <= tokens@.len(),
            refs_below(seq@, pad.len()),
            tv == toks_view(tokens@),
            term == (if closing { rparen() } else { dashes() }),
            seq_end(tv, pos as int, term) == seq_end(tv, q as int, term),
        decreases tokens@.len() - q,
    {
        let token = &tokens[q];
        let ghost q0 = q as int;
        assert(tv[q0] == token@);
        q = q + 1;
        let done = if closing { token_is(token, ')') } else { is_separator_token(token) };
        if done {
            assert(tv[q0] == term);
            return Ok((seq, q));
        }
        assert(tv[q0] != term);
        let element = if q < tokens.len() && token_is(&tokens[q], '(') {
            assert(tv[q0 + 1] == lparen());
            match parse_effect(pad, tokens, q) {
                Ok((se, q2)) => {
                    assert(effect_end(tv, q0 + 1) == Ok::<int, Error>(q2 as int));
                    assert(seq_end(tv, q0, term) == seq_end(tv, q2 as int, term));
                    q = q2;
                    Element::Callable(copy_chars(token.as_slice()), se)
                },
                Err(e) => {
                    assert(e == Error::EndOfInput ==> seq_end(tv, q0, term) == Err::<int, Error>(Error::EndOfInput));
                    return Err(e);
                },
            }
        } else if token.len() >= 2 && token[0] == '.' && token[1] == '.' {
            Element::Ellipsis(suffix_from(token.as_slice(), 2))
        } else {
            Element::Item(copy_chars(token.as_slice()))
        };
        proof {
            if !(q0 + 1 < tv.len() && tv[q0 + 1] == lparen()) {
                assert(q == q0 + 1);
                assert(seq_end(tv, q0, term) == seq_end(tv, q as int, term));
            }
        }
        let ghost len_before = pad.len();
        match pad.update(element) {
            Ok(id) => {
                push_ref(&mut seq, id, Ghost(pad.len()));
            },
            Err(e) => {
                return Err(e);
            },
        }
    }
    Err(Error::EndOfInput)
}

} // verus!
