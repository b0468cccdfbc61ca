//! Stack effects as text, as they are shown to users: simplified, with rows
//! written `..name` and quotations `name(inputs -- outputs)`.
use vstd::prelude::*;
use crate::stack_effect::{EffectNode, StackEffect, SNode, SEffect, simp_count, simplify_count, view_seq, lemma_view_seq};
use crate::text::{append_chars, string_of};

verus! {

/// The text of an element.
pub open spec fn node_text(n: SNode) -> Seq<char>
    decreases n, 0int,
{
    match n {
        SNode::Row(s) => seq!['.', '.'] + s,
        SNode::Item(s) => s,
        SNode::Quot(s, i, o) => {
            let k = simp_count(i, o, 0);
            s + seq!['('] + seq_text(i, k) + seq![' ', '-', '-', ' '] + seq_text(o, k) + seq![')']
        },
    }
}

/// The texts of the elements of `s` from index `from` on, separated by
/// single spaces.
pub open spec fn seq_text(s: Seq<SNode>, from: int) -> Seq<char>
    decreases s, s.len() - from,
{
    if from < 0 || from >= s.len() {
        Seq::empty()
    } else if from == s.len() - 1 {
        node_text(s[from])
    } else {
        node_text(s[from]) + seq![' '] + seq_text(s, from + 1)
    }
}

/// The text of an effect: simplified, then `inputs -- outputs`.
pub open spec fn effect_text(se: SEffect) -> Seq<char> {
    let k = simp_count(se.inputs, se.outputs, 0);
    seq_text(se.inputs, k) + seq![' ', '-', '-', ' '] + seq_text(se.outputs, k)
}

/// Appends the text of an element.
fn node_to_text(n: &EffectNode, out: &mut Vec<char>)
    ensures
        final(out)@ == old(out)@ + node_text(n@),
    decreases n, 0int,
{
    match n {
        EffectNode::Row(s) => {
            out.push('.');
            out.push('.');
            append_chars(out, s.as_slice());
            assert(old(out)@.push('.').push('.') + s@ == old(out)@ + (seq!['.', '.'] + s@));
        },
        EffectNode::Item(s) => {
            append_chars(out, s.as_slice());
        },
        EffectNode::Quotation(s, se) => {
            let k = simplify_count(&se.inputs, &se.outputs);
            append_chars(out, s.as_slice());
            out.push('(');
            nodes_to_text(&se.inputs, k, out);
            out.push(' ');
            out.push('-');
            out.push('-');
            out.push(' ');
            nodes_to_text(&se.outputs, k, out);
            out.push(')');
            let ghost ti = seq_text(view_seq(se.inputs@), k as int);
            let ghost to = seq_text(view_seq(se.outputs@), k as int);
            assert(((((old(out)@ + s@).push('(') + ti).push(' ').push('-').push('-').push(' ') + to).push(')'))
                == old(out)@ + (s@ + seq!['('] + ti + seq![' ', '-', '-', ' '] + to + seq![')']));
        },
    }
}

/// Appends the texts of the elements from index `from` on.
fn nodes_to_text(v: &Vec<EffectNode>, from: usize, out: &mut Vec<char>)
    ensures
        final(out)@ == old(out)@ + seq_text(view_seq(v@), from as int),
    decreases v, v@.len() - from,
{
    proof {
        lemma_view_seq(v@);
    }
    if from >= v.len() {
        assert(old(out)@ + Seq::<char>::empty() == old(out)@);
        return;
    }
    assert(decreases_to!(v => v@));
    assert(decreases_to!(v@ => v@[from as int]));
    node_to_text(&v[from], out);
    if from + 1 < v.len() {
        let ghost mid = out@;
        out.push(' ');
        nodes_to_text(v, from + 1, out);
        assert(mid.push(' ') + seq_text(view_seq(v@), from + 1) == mid + (seq![' '] + seq_text(
            view_seq(v@),
            from + 1,
        )));
    }
}

impl StackEffect {
    /// The effect as text: simplified, then `inputs -- outputs`.
    pub fn to_text(&self) -> (r: String)
        ensures
            r@ == effect_text(self@),
    {
        let k = simplify_count(&self.inputs, &self.outputs);
        let mut out: Vec<char> = Vec::new();
        nodes_to_text(&self.inputs, k, &mut out);
        out.push(' ');
        out.push('-');
        out.push('-');
        out.push(' ');
        nodes_to_text(&self.outputs, k, &mut out);
        string_of(out.as_slice())
    }
}

} // verus!
