//! Stack effects such as `(..a x f(..a x -- ..b) -- ..b)`.
//!
//! An effect lists what a word takes from the stack (its inputs) and what it
//! leaves (its outputs). Elements are plain items (`x`), row variables that
//! stand for any number of items (`..a`), and quotations with an effect of
//! their own (`f(..a -- ..b)`).
use vstd::prelude::*;
use crate::errors::Error;
use crate::text::{chars_of, chars_eq, copy_chars, starts_with, suffix_from};
use crate::parsing::{spec_tokens, tokenize_chars};

verus! {

/// One element of a stack effect.
#[derive(Debug)]
pub enum EffectNode {
    Row(Vec<char>),
    Item(Vec<char>),
    Quotation(Vec<char>, StackEffect),
}

/// What a word takes from the stack and what it leaves there.
#[derive(Debug)]
pub struct StackEffect {
    pub inputs: Vec<EffectNode>,
    pub outputs: Vec<EffectNode>,
}

/// The mathematical value of an effect element.
pub enum SNode {
    Row(Seq<char>),
    Item(Seq<char>),
    Quot(Seq<char>, Seq<SNode>, Seq<SNode>),
}

/// The mathematical value of a stack effect.
pub struct SEffect {
    pub inputs: Seq<SNode>,
    pub outputs: Seq<SNode>,
}

pub open spec fn view_node(n: EffectNode) -> SNode
    decreases n,
{
    match n {
        EffectNode::Row(s) => SNode::Row(s@),
        EffectNode::Item(s) => SNode::Item(s@),
        EffectNode::Quotation(s, se) => SNode::Quot(s@, view_seq(se.inputs@), view_seq(se.outputs@)),
    }
}

pub open spec fn view_seq(s: Seq<EffectNode>) -> Seq<SNode>
    decreases s,
{
    if s.len() == 0 {
        Seq::empty()
    } else {
        view_seq(s.subrange(0, s.len() - 1)).push(view_node(s[s.len() - 1]))
    }
}

pub proof fn lemma_view_seq(s: Seq<EffectNode>)
    ensures
        view_seq(s).len() == s.len(),
        forall|k: int| 0 <= k < s.len() ==> #[trigger] view_seq(s)[k] == view_node(s[k]),
    decreases s.len(),
{
    if s.len() > 0 {
        let t = s.subrange(0, s.len() - 1);
        lemma_view_seq(t);
        assert forall|k: int| 0 <= k < s.len() implies #[trigger] view_seq(s)[k] == view_node(s[k]) by {
            if k < s.len() - 1 {
                assert(t[k] == s[k]);
            }
        }
    }
}

impl View for EffectNode {
    type V = SNode;

    open spec fn view(&self) -> SNode {
        view_node(*self)
    }
}

impl View for StackEffect {
    type V = SEffect;

    open spec fn view(&self) -> SEffect {
        SEffect { inputs: view_seq(self.inputs@), outputs: view_seq(self.outputs@) }
    }
}

/// The name of an element.
pub open spec fn snode_name(n: SNode) -> Seq<char> {
    match n {
        SNode::Row(s) => s,
        SNode::Item(s) => s,
        SNode::Quot(s, _, _) => s,
    }
}

pub open spec fn snode_is_row(n: SNode) -> bool {
    n matches SNode::Row(_)
}

/// The anonymous row variable `.._` that parsing adds when an effect
/// mentions no row at the bottom of the stack.
pub open spec fn anon_row() -> SNode {
    SNode::Row(seq!['_'])
}

/// Adds the anonymous row to both sides unless one side already starts with a
/// row variable.
pub open spec fn with_row(inputs: Seq<SNode>, outputs: Seq<SNode>) -> SEffect {
    if (inputs.len() > 0 && snode_is_row(inputs[0])) || (outputs.len() > 0 && snode_is_row(
        outputs[0],
    )) {
        SEffect { inputs, outputs }
    } else {
        SEffect { inputs: seq![anon_row()] + inputs, outputs: seq![anon_row()] + outputs }
    }
}

pub open spec fn lparen() -> Seq<char> {
    seq!['(']
}

pub open spec fn rparen() -> Seq<char> {
    seq![')']
}

pub open spec fn dashes() -> Seq<char> {
    seq!['-', '-']
}

/// A token that names a row variable, `..name`.
pub open spec fn is_row_token(t: Seq<char>) -> bool {
    t.len() >= 2 && t[0] == '.' && t[1] == '.'
}

/// Parses an effect that starts with `(` at token `pos`; on success, also
/// gives the position after its closing `)`.
pub open spec fn p_effect(toks: Seq<Seq<char>>, pos: int) -> Result<(SEffect, int), Error>
    decreases toks.len() - pos, 0int,
{
    if pos < 0 || pos >= toks.len() {
        Err(Error::EndOfInput)
    } else if toks[pos] != lparen() {
        Err(Error::ExpectedStackEffect)
    } else {
        match p_seq(toks, pos + 1, dashes()) {
            Err(e) => Err(e),
            Ok((ins, p1)) => {
                if p1 <= pos || p1 > toks.len() {
                    Err(Error::EndOfInput)
                } else {
                    match p_seq(toks, p1, rparen()) {
                        Err(e) => Err(e),
                        Ok((outs, p2)) => Ok((with_row(ins, outs), p2)),
                    }
                }
            },
        }
    }
}

/// Parses elements from token `pos` up to the terminator `term`.
pub open spec fn p_seq(toks: Seq<Seq<char>>, pos: int, term: Seq<char>) -> Result<
    (Seq<SNode>, int),
    Error,
>
    decreases toks.len() - pos, 1int,
{
    if pos < 0 || pos >= toks.len() {
        Err(Error::EndOfInput)
    } else if toks[pos] == term {
        Ok((Seq::empty(), pos + 1))
    } else {
        let tok = toks[pos];
        let elem: Result<(SNode, int), Error> = if pos + 1 < toks.len() && toks[pos + 1]
            == lparen() {
            match p_effect(toks, pos + 1) {
                Err(e) => Err(e),
                Ok((se, q)) => Ok((SNode::Quot(tok, se.inputs, se.outputs), q)),
            }
        } else if is_row_token(tok) {
            Ok((SNode::Row(tok.subrange(2, tok.len() as int)), pos + 1))
        } else {
            Ok((SNode::Item(tok), pos + 1))
        };
        match elem {
            Err(e) => Err(e),
            Ok((e, q)) => {
                if q <= pos || q > toks.len() {
                    Err(Error::EndOfInput)
                } else {
                    match p_seq(toks, q, term) {
                        Err(err) => Err(err),
                        Ok((rest, r)) => Ok((seq![e] + rest, r)),
                    }
                }
            },
        }
    }
}

/// The effect that a text denotes.
pub open spec fn spec_parse(s: Seq<char>) -> Result<SEffect, Error> {
    match p_effect(spec_tokens(s), 0) {
        Ok((se, _)) => Ok(se),
        Err(e) => Err(e),
    }
}

pub open spec fn toks_view(toks: Seq<Vec<char>>) -> Seq<Seq<char>> {
    toks.map_values(|t: Vec<char>| t@)
}

/// `-- ` and friends as character vectors.
fn lit(s: &str) -> (r: Vec<char>)
    ensures
        r@ == s@,
{
    chars_of(s)
}

fn tok_eq(toks: &Vec<Vec<char>>, pos: usize, lit_chars: &Vec<char>) -> (r: bool)
    requires
        pos < toks@.len(),
    ensures
        r == (toks@[pos as int]@ == lit_chars@),
{
    chars_eq(toks[pos].as_slice(), lit_chars.as_slice())
}

fn make_row(name: Vec<char>) -> (r: EffectNode)
    ensures
        r@ == SNode::Row(name@),
{
    EffectNode::Row(name)
}

fn make_item(name: Vec<char>) -> (r: EffectNode)
    ensures
        r@ == SNode::Item(name@),
{
    EffectNode::Item(name)
}

fn make_quot(name: Vec<char>, se: StackEffect) -> (r: EffectNode)
    ensures
        r@ == SNode::Quot(name@, se@.inputs, se@.outputs),
{
    EffectNode::Quotation(name, se)
}

/// Prepends an element to a sequence of elements.
fn prepend(e: EffectNode, rest: Vec<EffectNode>) -> (r: Vec<EffectNode>)
    ensures
        view_seq(r@) == seq![e@] + view_seq(rest@),
{
    let mut out: Vec<EffectNode> = Vec::new();
    out.push(e);
    let mut rest = rest;
    let ghost rest0 = rest@;
    let mut tail: Vec<EffectNode> = Vec::new();
    // move the elements of `rest` over, keeping their order
    while rest.len() > 0
        invariant
            rest0 == rest@ + tail@,
        decreases rest@.len(),
    {
        let x = rest.pop().unwrap();
        tail.insert(0, x);
        proof {
            assert(rest0 == rest@ + tail@);
        }
    }
    assert(rest0 == tail@);
    out.append(&mut tail);
    proof {
        lemma_view_seq(out@);
        lemma_view_seq(rest0);
        let s = seq![e@] + view_seq(rest0);
        assert(view_seq(out@) =~= s);
    }
    out
}

/// Whether the element is a row variable.
pub fn node_is_row(n: &EffectNode) -> (r: bool)
    ensures
        r == snode_is_row(n@),
{
    match n {
        EffectNode::Row(_) => true,
        _ => false,
    }
}

fn add_row(inputs: Vec<EffectNode>, outputs: Vec<EffectNode>) -> (r: StackEffect)
    ensures
        r@ == with_row(view_seq(inputs@), view_seq(outputs@)),
{
    proof {
        lemma_view_seq(inputs@);
        lemma_view_seq(outputs@);
    }
    let i0 = inputs.len() > 0 && node_is_row(&inputs[0]);
    let o0 = outputs.len() > 0 && node_is_row(&outputs[0]);
    if i0 || o0 {
        StackEffect { inputs, outputs }
    } else {
        let underscore = lit("_");
        assert(underscore@ == seq!['_']) by {
            reveal_strlit("_");
        }
        let r1 = make_row(copy_chars(underscore.as_slice()));
        let r2 = make_row(underscore);
        let ins = prepend(r1, inputs);
        let outs = prepend(r2, outputs);
        StackEffect { inputs: ins, outputs: outs }
    }
}

/// Parses an effect starting with the `(` at token `pos`.
pub fn parse_effect(toks: &Vec<Vec<char>>, pos: usize) -> (r: Result<(StackEffect, usize), Error>)
    ensures
        match (r, p_effect(toks_view(toks@), pos as int)) {
            (Ok((se, q)), Ok((sse, sq))) => se@ == sse && q == sq && pos < q <= toks@.len(),
            (Err(e), Err(se)) => e == se,
            _ => false,
        },
    decreases toks@.len() - pos, 0int,
{
    let ghost tv = toks_view(toks@);
    assert(tv.len() == toks@.len());
    if pos >= toks.len() {
        return Err(Error::EndOfInput);
    }
    let lp = lit("(");
    assert(lp@ == lparen()) by {
        reveal_strlit("(");
    }
    assert(tv[pos as int] == toks@[pos as int]@);
    if !tok_eq(toks, pos, &lp) {
        return Err(Error::ExpectedStackEffect);
    }
    let dd = lit("--");
    assert(dd@ == dashes()) by {
        reveal_strlit("--");
    }
    let rp = lit(")");
    assert(rp@ == rparen()) by {
        reveal_strlit(")");
    }
    match parse_sequence(toks, pos + 1, &dd) {
        Err(e) => Err(e),
        Ok((ins, p1)) => match parse_sequence(toks, p1, &rp) {
            Err(e) => Err(e),
            Ok((outs, p2)) => {
                let se = add_row(ins, outs);
                Ok((se, p2))
            },
        },
    }
}

/// Parses elements from token `pos` up to the terminator `term`.
pub fn parse_sequence(toks: &Vec<Vec<char>>, pos: usize, term: &Vec<char>) -> (r: Result<
    (Vec<EffectNode>, usize),
    Error,
>)
    ensures
        match (r, p_seq(toks_view(toks@), pos as int, term@)) {
            (Ok((s, q)), Ok((ss, sq))) => view_seq(s@) == ss && q == sq && pos < q <= toks@.len(),
            (Err(e), Err(se)) => e == se,
            _ => false,
        },
    decreases toks@.len() - pos, 1int,
{
    let ghost tv = toks_view(toks@);
    assert(tv.len() == toks@.len());
    if pos >= toks.len() {
        return Err(Error::EndOfInput);
    }
    assert(tv[pos as int] == toks@[pos as int]@);
    if tok_eq(toks, pos, term) {
        proof {
            lemma_view_seq(Seq::<EffectNode>::empty());
        }
        return Ok((Vec::new(), pos + 1));
    }
    let lp = lit("(");
    assert(lp@ == lparen()) by {
        reveal_strlit("(");
    }
    let dots = lit("..");
    assert(dots@ == seq!['.', '.']) by {
        reveal_strlit("..");
    }
    let tok = &toks[pos];
    let elem: EffectNode;
    let q: usize;
    if pos + 1 < toks.len() && tok_eq(toks, pos + 1, &lp) {
        assert(tv[pos + 1] == toks@[pos + 1]@);
        match parse_effect(toks, pos + 1) {
            Err(e) => {
                return Err(e);
            },
            Ok((se, q1)) => {
                elem = make_quot(copy_chars(tok.as_slice()), se);
                q = q1;
            },
        }
    } else if starts_with(tok.as_slice(), dots.as_slice()) {
        assert(is_row_token(tok@)) by {
            assert(tok@.subrange(0, 2) == dots@);
            assert(tok@[0] == tok@.subrange(0, 2)[0]);
            assert(tok@[1] == tok@.subrange(0, 2)[1]);
        }
        elem = make_row(suffix_from(tok.as_slice(), 2));
        q = pos + 1;
    } else {
        assert(!is_row_token(tok@)) by {
            if is_row_token(tok@) {
                assert(tok@.subrange(0, 2) =~= dots@);
            }
        }
        elem = make_item(copy_chars(tok.as_slice()));
        q = pos + 1;
    }
    match parse_sequence(toks, q, term) {
        Err(e) => Err(e),
        Ok((rest, r)) => Ok((prepend(elem, rest), r)),
    }
}

impl StackEffect {
    /// The effect `(..r -- ..r)` that leaves the stack alone.
    pub fn new() -> (r: StackEffect)
        ensures
            r@ == (SEffect { inputs: seq![anon_row()], outputs: seq![anon_row()] }),
    {
        let mut ins: Vec<EffectNode> = Vec::new();
        let mut outs: Vec<EffectNode> = Vec::new();
        let u = lit("_");
        assert(u@ == seq!['_']) by {
            reveal_strlit("_");
        }
        ins.push(make_row(copy_chars(u.as_slice())));
        outs.push(make_row(u));
        proof {
            lemma_view_seq(ins@);
            lemma_view_seq(outs@);
            assert(view_seq(ins@) =~= seq![anon_row()]);
            assert(view_seq(outs@) =~= seq![anon_row()]);
        }
        StackEffect { inputs: ins, outputs: outs }
    }

    /// The effect `( -- varname)` that pushes one item.
    pub fn new_pushing(varname: &str) -> (r: StackEffect)
        ensures
            r@ == (SEffect {
                inputs: seq![anon_row()],
                outputs: seq![anon_row(), SNode::Item(varname@)],
            }),
    {
        let mut se = StackEffect::new();
        let ghost ins0 = se.inputs@;
        let ghost outs0 = se.outputs@;
        se.outputs.push(make_item(chars_of(varname)));
        proof {
            lemma_view_seq(outs0);
            lemma_view_seq(se.outputs@);
            assert(view_seq(outs0)[0] == anon_row());
            assert(se.outputs@[0] == outs0[0]);
            assert(view_seq(se.outputs@) =~= seq![anon_row(), SNode::Item(varname@)]);
        }
        se
    }

    /// The effect `( -- name(...))` that pushes a quotation with the given
    /// effect; the names inside the quotation get `name` as prefix.
    pub fn new_quotation(name: &str, effect: StackEffect) -> (r: StackEffect)
        ensures
            r@.inputs == seq![anon_row()],
            r@.outputs.len() == 2,
            r@.outputs[0] == anon_row(),
            r@.outputs[1] == EffectNode::quoted_effect_spec(name@, effect@),
    {
        let mut se = StackEffect::new();
        let ghost outs0 = se.outputs@;
        let q = EffectNode::quoted_effect(name, effect);
        se.outputs.push(q);
        proof {
            lemma_view_seq(outs0);
            lemma_view_seq(se.outputs@);
            assert(view_seq(outs0)[0] == anon_row());
            assert(se.outputs@[0] == outs0[0]);
        }
        se
    }

    /// The effect `(varname -- varname)` that modifies the top item.
    pub fn new_mod(varname: &str) -> (r: StackEffect)
        ensures
            r@ == (SEffect {
                inputs: seq![anon_row(), SNode::Item(varname@)],
                outputs: seq![anon_row(), SNode::Item(varname@)],
            }),
    {
        let mut se = StackEffect::new();
        let ghost ins0 = se.inputs@;
        let ghost outs0 = se.outputs@;
        let v = chars_of(varname);
        se.inputs.push(make_item(copy_chars(v.as_slice())));
        se.outputs.push(make_item(v));
        proof {
            lemma_view_seq(ins0);
            lemma_view_seq(outs0);
            lemma_view_seq(se.inputs@);
            lemma_view_seq(se.outputs@);
            assert(view_seq(outs0)[0] == anon_row());
            assert(se.outputs@[0] == outs0[0]);
            assert(view_seq(ins0)[0] == anon_row());
            assert(se.inputs@[0] == ins0[0]);
            assert(view_seq(se.inputs@) =~= seq![anon_row(), SNode::Item(varname@)]);
            assert(view_seq(se.outputs@) =~= seq![anon_row(), SNode::Item(varname@)]);
        }
        se
    }

    /// Parses an effect such as `(a b -- b a)`.
    pub fn parse(input: &str) -> (r: Result<StackEffect, Error>)
        ensures
            match (r, spec_parse(input@)) {
                (Ok(se), Ok(sse)) => se@ == sse,
                (Err(e), Err(se)) => e == se,
                _ => false,
            },
    {
        let cs = chars_of(input);
        let toks = tokenize_chars(cs.as_slice());
        assert(toks_view(toks@) == spec_tokens(input@));
        match parse_effect(&toks, 0) {
            Ok((se, _)) => Ok(se),
            Err(e) => Err(e),
        }
    }
}

impl EffectNode {
    pub open spec fn quoted_effect_spec(name: Seq<char>, se: SEffect) -> SNode {
        SNode::Quot(
            name + seq!['!'],
            prefixed_seq(se.inputs, name),
            prefixed_seq(se.outputs, name),
        )
    }
}

/// Puts `prefix` in front of every name, also inside quotations.
pub open spec fn prefixed_node(n: SNode, prefix: Seq<char>) -> SNode
    decreases n,
{
    match n {
        SNode::Row(s) => SNode::Row(prefix + s),
        SNode::Item(s) => SNode::Item(prefix + s),
        SNode::Quot(s, i, o) => SNode::Quot(prefix + s, prefixed_seq(i, prefix), prefixed_seq(o, prefix)),
    }
}

pub open spec fn prefixed_seq(s: Seq<SNode>, prefix: Seq<char>) -> Seq<SNode>
    decreases s,
{
    if s.len() == 0 {
        Seq::empty()
    } else {
        prefixed_seq(s.subrange(0, s.len() - 1), prefix).push(prefixed_node(s[s.len() - 1], prefix))
    }
}

impl EffectNode {
    /// The element `name!(...)` for a quotation with effect `se`, whose
    /// names get `name` as prefix.
    pub fn quoted_effect(name: &str, se: StackEffect) -> (r: EffectNode)
        ensures
            r@ == EffectNode::quoted_effect_spec(name@, se@),
    {
        let bang = lit("!");
        assert(bang@ == seq!['!']) by {
            reveal_strlit("!");
        }
        let p = chars_of(name);
        EffectNode::Quotation(bang, se).prefixed(p.as_slice())
    }

    /// The name of the element.
    pub fn name(&self) -> (r: &Vec<char>)
        ensures
            r@ == snode_name(self@),
    {
        match self {
            EffectNode::Row(n) => n,
            EffectNode::Item(n) => n,
            EffectNode::Quotation(n, _) => n,
        }
    }

    /// Puts `prefix` in front of every name, also inside quotations.
    pub fn prefixed(self, prefix: &[char]) -> (r: EffectNode)
        ensures
            r@ == prefixed_node(self@, prefix@),
        decreases self,
    {
        match self {
            EffectNode::Row(name) => {
                let mut p = copy_chars(prefix);
                crate::text::append_chars(&mut p, name.as_slice());
                EffectNode::Row(p)
            },
            EffectNode::Item(name) => {
                let mut p = copy_chars(prefix);
                crate::text::append_chars(&mut p, name.as_slice());
                EffectNode::Item(p)
            },
            EffectNode::Quotation(name, se) => {
                let mut p = copy_chars(prefix);
                crate::text::append_chars(&mut p, name.as_slice());
                let StackEffect { inputs, outputs } = se;
                let ins = prefixed_vec(inputs, prefix);
                let outs = prefixed_vec(outputs, prefix);
                EffectNode::Quotation(p, StackEffect { inputs: ins, outputs: outs })
            },
        }
    }
}

proof fn lemma_prefixed_seq(s: Seq<SNode>, prefix: Seq<char>)
    ensures
        prefixed_seq(s, prefix).len() == s.len(),
        forall|k: int| 0 <= k < s.len() ==> #[trigger] prefixed_seq(s, prefix)[k] == prefixed_node(s[k], prefix),
    decreases s.len(),
{
    if s.len() > 0 {
        let t = s.subrange(0, s.len() - 1);
        lemma_prefixed_seq(t, prefix);
        assert forall|k: int| 0 <= k < s.len() implies #[trigger] prefixed_seq(s, prefix)[k] == prefixed_node(s[k], prefix) by {
            if k < s.len() - 1 {
                assert(t[k] == s[k]);
            }
        }
    }
}

/// Puts `prefix` in front of every name of every element.
fn prefixed_vec(vin: Vec<EffectNode>, prefix: &[char]) -> (r: Vec<EffectNode>)
    ensures
        view_seq(r@) == prefixed_seq(view_seq(vin@), prefix@),
    decreases vin,
{
    let ghost v0 = vin@;
    let mut v = vin;
    let mut rev: Vec<EffectNode> = Vec::new();
    proof {
        lemma_view_seq(v0);
    }
    while v.len() > 0
        invariant
            vin@ == v0,
            v@ == v0.subrange(0, v@.len() as int),
            v@.len() <= v0.len(),
            rev@.len() == v0.len() - v@.len(),
            forall|k: int| 0 <= k < rev@.len() ==> #[trigger] view_node(rev@[k]) == prefixed_node(
                view_node(v0[v0.len() - 1 - k]),
                prefix@,
            ),
        decreases v@.len(),
    {
        let ghost k = v@.len() - 1;
        let x = v.pop().unwrap();
        assert(x == v0[k]);
        assert(vin@ == v0);
        assert(0 <= k < vin@.len());
        assert(decreases_to!(vin => vin@));
        assert(decreases_to!(vin@ => vin@[k]));
        assert(decreases_to!(vin => x));
        let y = x.prefixed(prefix);
        rev.push(y);
    }
    let mut out: Vec<EffectNode> = Vec::new();
    let ghost rev0 = rev@;
    while rev.len() > 0
        invariant
            rev@ == rev0.subrange(0, rev@.len() as int),
            out@.len() == rev0.len() - rev@.len(),
            rev0.len() == v0.len(),
            forall|k: int| 0 <= k < rev0.len() ==> #[trigger] view_node(rev0[k]) == prefixed_node(
                view_node(v0[v0.len() - 1 - k]),
                prefix@,
            ),
            forall|k: int| 0 <= k < out@.len() ==> #[trigger] view_node(out@[k]) == prefixed_node(
                view_node(v0[k]),
                prefix@,
            ),
        decreases rev@.len(),
    {
        let ghost j = rev@.len() - 1;
        let y = rev.pop().unwrap();
        assert(y == rev0[j]);
        out.push(y);
        assert(view_node(out@[out@.len() - 1]) == prefixed_node(view_node(v0[v0.len() - 1 - j]), prefix@));
    }
    proof {
        lemma_view_seq(out@);
        lemma_prefixed_seq(view_seq(v0), prefix@);
        assert(view_seq(out@) =~= prefixed_seq(view_seq(v0), prefix@));
    }
    out
}


/// Two elements are the same variable: same kind and same name.
pub open spec fn same_node(a: SNode, b: SNode) -> bool {
    match (a, b) {
        (SNode::Row(x), SNode::Row(y)) => x == y,
        (SNode::Item(x), SNode::Item(y)) => x == y,
        (SNode::Quot(x, _, _), SNode::Quot(y, _, _)) => x == y,
        _ => false,
    }
}

/// Some element of `s` from index `from` on is the same variable as `a`.
pub open spec fn any_same(a: SNode, s: Seq<SNode>, from: int) -> bool {
    exists|k: int| from <= k < s.len() && same_node(a, #[trigger] s[k])
}

/// How many leading elements simplification drops: it drops a common first
/// variable of inputs and outputs as long as the outputs do not use it again.
pub open spec fn simp_count(ins: Seq<SNode>, outs: Seq<SNode>, k: int) -> int
    decreases ins.len() - k,
{
    if k < 0 || k >= ins.len() || k >= outs.len() || !same_node(ins[k], outs[k]) || any_same(
        ins[k],
        outs,
        k + 1,
    ) {
        k
    } else {
        simp_count(ins, outs, k + 1)
    }
}

/// The effect without the leading variables that pass through unchanged.
pub open spec fn spec_simplified(se: SEffect) -> SEffect {
    let k = simp_count(se.inputs, se.outputs, 0);
    SEffect {
        inputs: se.inputs.subrange(k, se.inputs.len() as int),
        outputs: se.outputs.subrange(k, se.outputs.len() as int),
    }
}

/// The position that a name gets when names are numbered in order of first
/// appearance, and the updated list of names.
pub open spec fn pos_of(names: Seq<Seq<char>>, n: Seq<char>) -> (int, Seq<Seq<char>>) {
    if exists|k: int| 0 <= k < names.len() && names[k] == n {
        (choose|k: int| 0 <= k < names.len() && names[k] == n && forall|j: int| 0 <= j < k ==> names[j] != n, names)
    } else {
        (names.len() as int, names.push(n))
    }
}

/// Compares `sa[ia..]` with `sb[ib..]` element by element: variables must
/// appear in the same pattern and matching elements must be equivalent.
pub open spec fn pattern_from(
    sa: Seq<SNode>,
    ia: int,
    sb: Seq<SNode>,
    ib: int,
    pa: Seq<Seq<char>>,
    pb: Seq<Seq<char>>,
) -> (bool, Seq<Seq<char>>, Seq<Seq<char>>)
    decreases sa, sa.len() - ia,
{
    if ia < 0 || ib < 0 || sa.len() - ia != sb.len() - ib {
        (false, pa, pb)
    } else if ia >= sa.len() {
        (true, pa, pb)
    } else {
        let (i, pa2) = pos_of(pa, snode_name(sa[ia]));
        let (j, pb2) = pos_of(pb, snode_name(sb[ib]));
        if i != j || !node_equiv(sa[ia], sb[ib]) {
            (false, pa2, pb2)
        } else {
            pattern_from(sa, ia + 1, sb, ib + 1, pa2, pb2)
        }
    }
}

/// Equivalence of elements: rows match rows, items match items, and
/// quotations match quotations with equivalent effects.
pub open spec fn node_equiv(a: SNode, b: SNode) -> bool
    decreases a, 0int,
{
    match a {
        SNode::Row(_) => b is Row,
        SNode::Item(_) => b is Item,
        SNode::Quot(_, ia, oa) => match b {
            SNode::Quot(_, ib, ob) => {
                let ka = simp_count(ia, oa, 0);
                let kb = simp_count(ib, ob, 0);
                let r = pattern_from(ia, ka, ib, kb, Seq::empty(), Seq::empty());
                r.0 && pattern_from(oa, ka, ob, kb, r.1, r.2).0
            },
            _ => false,
        },
    }
}

/// Two quotations are equivalent exactly when their effects are equivalent
/// as whole effects, inputs and outputs taken together; rows only match
/// rows and values only values.
pub proof fn law_quotation_equiv(n: Seq<char>, ia: Seq<SNode>, oa: Seq<SNode>, m: Seq<char>, ib: Seq<SNode>, ob: Seq<SNode>, x: SNode, y: SNode)
    ensures
        node_equiv(SNode::Quot(n, ia, oa), SNode::Quot(m, ib, ob)) == effect_equiv(
            SEffect { inputs: ia, outputs: oa },
            SEffect { inputs: ib, outputs: ob },
        ),
        node_equiv(x, y) ==> (x is Row <==> y is Row) && (x is Item <==> y is Item) && (x is Quot <==> y is Quot),
{
}

/// Equivalence of effects: after simplification, the two effects use their
/// variables in the same pattern (up to renaming).
pub open spec fn effect_equiv(a: SEffect, b: SEffect) -> bool {
    let ka = simp_count(a.inputs, a.outputs, 0);
    let kb = simp_count(b.inputs, b.outputs, 0);
    let r = pattern_from(a.inputs, ka, b.inputs, kb, Seq::empty(), Seq::empty());
    r.0 && pattern_from(a.outputs, ka, b.outputs, kb, r.1, r.2).0
}

/// Whether two elements are the same variable.
pub fn nodes_same(a: &EffectNode, b: &EffectNode) -> (r: bool)
    ensures
        r == same_node(a@, b@),
{
    match (a, b) {
        (EffectNode::Row(x), EffectNode::Row(y)) => chars_eq(x.as_slice(), y.as_slice()),
        (EffectNode::Item(x), EffectNode::Item(y)) => chars_eq(x.as_slice(), y.as_slice()),
        (EffectNode::Quotation(x, _), EffectNode::Quotation(y, _)) => chars_eq(x.as_slice(), y.as_slice()),
        _ => false,
    }
}

/// How many leading elements `simplified` drops.
pub fn simplify_count(ins: &Vec<EffectNode>, outs: &Vec<EffectNode>) -> (r: usize)
    ensures
        r == simp_count(view_seq(ins@), view_seq(outs@), 0),
        r <= ins@.len(),
        r <= outs@.len(),
{
    let ghost si = view_seq(ins@);
    let ghost so = view_seq(outs@);
    proof {
        lemma_view_seq(ins@);
        lemma_view_seq(outs@);
    }
    let mut k: usize = 0;
    while k < ins.len() && k < outs.len()
        invariant
            k <= ins@.len(),
            k <= outs@.len(),
            si == view_seq(ins@),
            so == view_seq(outs@),
            si.len() == ins@.len(),
            so.len() == outs@.len(),
            forall|j: int| 0 <= j < ins@.len() ==> #[trigger] si[j] == view_node(ins@[j]),
            forall|j: int| 0 <= j < outs@.len() ==> #[trigger] so[j] == view_node(outs@[j]),
            simp_count(si, so, 0) == simp_count(si, so, k as int),
        decreases ins@.len() - k,
    {
        if !nodes_same(&ins[k], &outs[k]) {
            assert(!same_node(si[k as int], so[k as int]));
            return k;
        }
        let mut again = false;
        let mut j: usize = k + 1;
        while j < outs.len()
            invariant
                k < j <= outs@.len(),
                k < ins@.len(),
                so.len() == outs@.len(),
                si.len() == ins@.len(),
                forall|m: int| 0 <= m < ins@.len() ==> #[trigger] si[m] == view_node(ins@[m]),
                forall|m: int| 0 <= m < outs@.len() ==> #[trigger] so[m] == view_node(outs@[m]),
                again ==> any_same(si[k as int], so, k + 1),
                !again ==> forall|m: int| k + 1 <= m < j ==> !same_node(si[k as int], #[trigger] so[m]),
            decreases outs@.len() - j,
        {
            if nodes_same(&ins[k], &outs[j]) {
                assert(same_node(si[k as int], so[j as int]));
                again = true;
            }
            j = j + 1;
        }
        if again {
            return k;
        }
        assert(!any_same(si[k as int], so, k + 1));
        k = k + 1;
    }
    k
}

/// The names in order of first appearance, and their positions.
pub fn position_of(names: &mut Vec<Vec<char>>, n: &Vec<char>) -> (r: usize)
    ensures
        (r as int, final(names)@.map_values(|t: Vec<char>| t@)) == pos_of(
            old(names)@.map_values(|t: Vec<char>| t@),
            n@,
        ),
{
    let ghost nv = names@.map_values(|t: Vec<char>| t@);
    let mut k: usize = 0;
    while k < names.len()
        invariant
            k <= names@.len(),
            nv == names@.map_values(|t: Vec<char>| t@),
            forall|j: int| 0 <= j < k ==> nv[j] != n@,
        decreases names@.len() - k,
    {
        if chars_eq(names[k].as_slice(), n.as_slice()) {
            assert(nv[k as int] == n@);
            assert(exists|m: int| 0 <= m < nv.len() && nv[m] == n@);
            let ghost c = choose|m: int| 0 <= m < nv.len() && nv[m] == n@ && forall|j: int| 0 <= j < m ==> nv[j] != n@;
            assert(c == k) by {
                if c < k {
                    assert(nv[c] != n@);
                } else if c > k {
                    assert(nv[k as int] != n@);
                }
            }
            return k;
        }
        k = k + 1;
    }
    names.push(copy_chars(n.as_slice()));
    assert(names@.map_values(|t: Vec<char>| t@) =~= nv.push(n@));
    k
}

/// Compares `sa[ia..]` with `sb[ib..]`.
fn compare_from(
    sa: &Vec<EffectNode>,
    ia: usize,
    sb: &Vec<EffectNode>,
    ib: usize,
    pa: &mut Vec<Vec<char>>,
    pb: &mut Vec<Vec<char>>,
) -> (r: bool)
    requires
        ia <= sa@.len(),
        ib <= sb@.len(),
    ensures
        ({
            let s = pattern_from(
                view_seq(sa@),
                ia as int,
                view_seq(sb@),
                ib as int,
                old(pa)@.map_values(|t: Vec<char>| t@),
                old(pb)@.map_values(|t: Vec<char>| t@),
            );
            r == s.0 && final(pa)@.map_values(|t: Vec<char>| t@) == s.1 && final(pb)@.map_values(
                |t: Vec<char>| t@,
            ) == s.2
        }),
    decreases sa, sa@.len() - ia,
{
    proof {
        lemma_view_seq(sa@);
        lemma_view_seq(sb@);
    }
    if sa.len() - ia != sb.len() - ib {
        return false;
    }
    if ia >= sa.len() {
        return true;
    }
    let i = position_of(pa, sa[ia].name());
    let j = position_of(pb, sb[ib].name());
    assert(view_seq(sa@)[ia as int] == view_node(sa@[ia as int]));
    assert(view_seq(sb@)[ib as int] == view_node(sb@[ib as int]));
    assert(decreases_to!(sa => sa@));
    assert(decreases_to!(sa@ => sa@[ia as int]));
    if i != j || !node_equivalent(&sa[ia], &sb[ib]) {
        return false;
    }
    compare_from(sa, ia + 1, sb, ib + 1, pa, pb)
}

/// Whether two elements are equivalent.
pub fn node_equivalent(a: &EffectNode, b: &EffectNode) -> (r: bool)
    ensures
        r == node_equiv(a@, b@),
    decreases a, 0int,
{
    match a {
        EffectNode::Row(_) => match b {
            EffectNode::Row(_) => true,
            _ => false,
        },
        EffectNode::Item(_) => match b {
            EffectNode::Item(_) => true,
            _ => false,
        },
        EffectNode::Quotation(_, sea) => match b {
            EffectNode::Quotation(_, seb) => {
                let ka = simplify_count(&sea.inputs, &sea.outputs);
                let kb = simplify_count(&seb.inputs, &seb.outputs);
                let mut pa: Vec<Vec<char>> = Vec::new();
                let mut pb: Vec<Vec<char>> = Vec::new();
                assert(pa@.map_values(|t: Vec<char>| t@) =~= Seq::<Seq<char>>::empty());
                assert(pb@.map_values(|t: Vec<char>| t@) =~= Seq::<Seq<char>>::empty());
                if !compare_from(&sea.inputs, ka, &seb.inputs, kb, &mut pa, &mut pb) {
                    return false;
                }
                compare_from(&sea.outputs, ka, &seb.outputs, kb, &mut pa, &mut pb)
            },
            _ => false,
        },
    }
}

impl StackEffect {
    /// Whether two effects are equivalent: after simplification they use
    /// their variables in the same pattern.
    pub fn equivalent(&self, other: &StackEffect) -> (r: bool)
        ensures
            r == effect_equiv(self@, other@),
    {
        let ka = simplify_count(&self.inputs, &self.outputs);
        let kb = simplify_count(&other.inputs, &other.outputs);
        let mut pa: Vec<Vec<char>> = Vec::new();
        let mut pb: Vec<Vec<char>> = Vec::new();
        assert(pa@.map_values(|t: Vec<char>| t@) =~= Seq::<Seq<char>>::empty());
        assert(pb@.map_values(|t: Vec<char>| t@) =~= Seq::<Seq<char>>::empty());
        if !compare_from(&self.inputs, ka, &other.inputs, kb, &mut pa, &mut pb) {
            return false;
        }
        compare_from(&self.outputs, ka, &other.outputs, kb, &mut pa, &mut pb)
    }
}


proof fn lemma_pattern_refl(s: Seq<SNode>, k: int, p: Seq<Seq<char>>)
    requires
        0 <= k <= s.len(),
    ensures
        pattern_from(s, k, s, k, p, p).0,
        pattern_from(s, k, s, k, p, p).1 == pattern_from(s, k, s, k, p, p).2,
    decreases s, s.len() - k,
{
    if k < s.len() {
        lemma_node_refl(s[k]);
        let p2 = pos_of(p, snode_name(s[k])).1;
        lemma_pattern_refl(s, k + 1, p2);
    }
}

proof fn lemma_node_refl(a: SNode)
    ensures
        node_equiv(a, a),
    decreases a, 0int,
{
    if let SNode::Quot(_, ia, oa) = a {
        let ka = simp_count(ia, oa, 0);
        lemma_simp_count_bounds(ia, oa, 0);
        lemma_pattern_refl(ia, ka, Seq::empty());
        let r = pattern_from(ia, ka, ia, ka, Seq::empty(), Seq::empty());
        lemma_pattern_refl(oa, ka, r.1);
    }
}

proof fn lemma_simp_count_bounds(ins: Seq<SNode>, outs: Seq<SNode>, k: int)
    requires
        0 <= k <= ins.len(),
        k <= outs.len(),
    ensures
        k <= simp_count(ins, outs, k) <= ins.len(),
        simp_count(ins, outs, k) <= outs.len(),
    decreases ins.len() - k,
{
    if !(k >= ins.len() || k >= outs.len() || !same_node(ins[k], outs[k]) || any_same(ins[k], outs, k + 1)) {
        lemma_simp_count_bounds(ins, outs, k + 1);
    }
}

proof fn lemma_pattern_sym(
    sa: Seq<SNode>,
    ia: int,
    sb: Seq<SNode>,
    ib: int,
    pa: Seq<Seq<char>>,
    pb: Seq<Seq<char>>,
)
    ensures
        pattern_from(sa, ia, sb, ib, pa, pb).0 == pattern_from(sb, ib, sa, ia, pb, pa).0,
        pattern_from(sa, ia, sb, ib, pa, pb).1 == pattern_from(sb, ib, sa, ia, pb, pa).2,
        pattern_from(sa, ia, sb, ib, pa, pb).2 == pattern_from(sb, ib, sa, ia, pb, pa).1,
    decreases sa, sa.len() - ia,
{
    if ia < 0 || ib < 0 || sa.len() - ia != sb.len() - ib {
    } else if ia >= sa.len() {
    } else {
        lemma_node_sym(sa[ia], sb[ib]);
        let pa2 = pos_of(pa, snode_name(sa[ia])).1;
        let pb2 = pos_of(pb, snode_name(sb[ib])).1;
        lemma_pattern_sym(sa, ia + 1, sb, ib + 1, pa2, pb2);
    }
}

proof fn lemma_node_sym(a: SNode, b: SNode)
    ensures
        node_equiv(a, b) == node_equiv(b, a),
    decreases a, 0int,
{
    if let SNode::Quot(_, ia, oa) = a {
        if let SNode::Quot(_, ib, ob) = b {
            let ka = simp_count(ia, oa, 0);
            let kb = simp_count(ib, ob, 0);
            lemma_pattern_sym(ia, ka, ib, kb, Seq::empty(), Seq::empty());
            let r = pattern_from(ia, ka, ib, kb, Seq::empty(), Seq::empty());
            lemma_pattern_sym(oa, ka, ob, kb, r.1, r.2);
        }
    }
}

/// Every effect is equivalent to itself.
pub proof fn law_equivalence_reflexive(se: SEffect)
    ensures
        effect_equiv(se, se),
{
    let k = simp_count(se.inputs, se.outputs, 0);
    lemma_simp_count_bounds(se.inputs, se.outputs, 0);
    lemma_pattern_refl(se.inputs, k, Seq::empty());
    let r = pattern_from(se.inputs, k, se.inputs, k, Seq::empty(), Seq::empty());
    lemma_pattern_refl(se.outputs, k, r.1);
}

/// Equivalence of effects does not depend on the order of the two effects.
pub proof fn law_equivalence_symmetric(a: SEffect, b: SEffect)
    ensures
        effect_equiv(a, b) == effect_equiv(b, a),
{
    let ka = simp_count(a.inputs, a.outputs, 0);
    let kb = simp_count(b.inputs, b.outputs, 0);
    lemma_pattern_sym(a.inputs, ka, b.inputs, kb, Seq::empty(), Seq::empty());
    let r = pattern_from(a.inputs, ka, b.inputs, kb, Seq::empty(), Seq::empty());
    lemma_pattern_sym(a.outputs, ka, b.outputs, kb, r.1, r.2);
}


/// The list of names after numbering those of `s` from `i` on.
pub open spec fn names_fold(p: Seq<Seq<char>>, s: Seq<SNode>, i: int) -> Seq<Seq<char>>
    decreases s.len() - i,
{
    if i < 0 || i >= s.len() {
        p
    } else {
        names_fold(pos_of(p, snode_name(s[i])).1, s, i + 1)
    }
}

/// When two sequences match, each side's list of names depends on that
/// side alone.
proof fn lemma_pattern_lists(sa: Seq<SNode>, ia: int, sb: Seq<SNode>, ib: int, pa: Seq<Seq<char>>, pb: Seq<Seq<char>>)
    requires
        pattern_from(sa, ia, sb, ib, pa, pb).0,
    ensures
        pattern_from(sa, ia, sb, ib, pa, pb).1 == names_fold(pa, sa, ia),
        pattern_from(sa, ia, sb, ib, pa, pb).2 == names_fold(pb, sb, ib),
    decreases sa, sa.len() - ia,
{
    if ia >= sa.len() {
    } else {
        let pa2 = pos_of(pa, snode_name(sa[ia])).1;
        let pb2 = pos_of(pb, snode_name(sb[ib])).1;
        lemma_pattern_lists(sa, ia + 1, sb, ib + 1, pa2, pb2);
    }
}

/// Matching sequences is transitive when the middle sequence starts from
/// the same list of names on both sides.
proof fn lemma_pattern_trans(
    sa: Seq<SNode>,
    ia: int,
    sb: Seq<SNode>,
    ib: int,
    sc: Seq<SNode>,
    ic: int,
    pa: Seq<Seq<char>>,
    pb: Seq<Seq<char>>,
    pc: Seq<Seq<char>>,
)
    requires
        pattern_from(sa, ia, sb, ib, pa, pb).0,
        pattern_from(sb, ib, sc, ic, pb, pc).0,
    ensures
        pattern_from(sa, ia, sc, ic, pa, pc).0,
    decreases sa, sa.len() - ia,
{
    if ia >= sa.len() {
    } else {
        lemma_node_trans(sa[ia], sb[ib], sc[ic]);
        let pa2 = pos_of(pa, snode_name(sa[ia])).1;
        let pb2 = pos_of(pb, snode_name(sb[ib])).1;
        let pc2 = pos_of(pc, snode_name(sc[ic])).1;
        lemma_pattern_trans(sa, ia + 1, sb, ib + 1, sc, ic + 1, pa2, pb2, pc2);
    }
}

/// Equivalence of elements is transitive.
proof fn lemma_node_trans(a: SNode, b: SNode, c: SNode)
    requires
        node_equiv(a, b),
        node_equiv(b, c),
    ensures
        node_equiv(a, c),
    decreases a, 0int,
{
    if let SNode::Quot(_, ia, oa) = a {
        if let SNode::Quot(_, ib, ob) = b {
            if let SNode::Quot(_, ic, oc) = c {
                let ka = simp_count(ia, oa, 0);
                let kb = simp_count(ib, ob, 0);
                let kc = simp_count(ic, oc, 0);
                let rab = pattern_from(ia, ka, ib, kb, Seq::empty(), Seq::empty());
                let rbc = pattern_from(ib, kb, ic, kc, Seq::empty(), Seq::empty());
                lemma_pattern_trans(ia, ka, ib, kb, ic, kc, Seq::empty(), Seq::empty(), Seq::empty());
                let rac = pattern_from(ia, ka, ic, kc, Seq::empty(), Seq::empty());
                lemma_pattern_lists(ia, ka, ib, kb, Seq::empty(), Seq::empty());
                lemma_pattern_lists(ib, kb, ic, kc, Seq::empty(), Seq::empty());
                lemma_pattern_lists(ia, ka, ic, kc, Seq::empty(), Seq::empty());
                lemma_pattern_trans(oa, ka, ob, kb, oc, kc, rab.1, rab.2, rbc.2);
            }
        }
    }
}

/// Equivalence of effects is transitive.
pub proof fn law_equivalence_transitive(a: SEffect, b: SEffect, c: SEffect)
    requires
        effect_equiv(a, b),
        effect_equiv(b, c),
    ensures
        effect_equiv(a, c),
{
    let ka = simp_count(a.inputs, a.outputs, 0);
    let kb = simp_count(b.inputs, b.outputs, 0);
    let kc = simp_count(c.inputs, c.outputs, 0);
    let rab = pattern_from(a.inputs, ka, b.inputs, kb, Seq::empty(), Seq::empty());
    let rbc = pattern_from(b.inputs, kb, c.inputs, kc, Seq::empty(), Seq::empty());
    lemma_pattern_trans(a.inputs, ka, b.inputs, kb, c.inputs, kc, Seq::empty(), Seq::empty(), Seq::empty());
    lemma_pattern_lists(a.inputs, ka, b.inputs, kb, Seq::empty(), Seq::empty());
    lemma_pattern_lists(b.inputs, kb, c.inputs, kc, Seq::empty(), Seq::empty());
    lemma_pattern_lists(a.inputs, ka, c.inputs, kc, Seq::empty(), Seq::empty());
    lemma_pattern_trans(a.outputs, ka, b.outputs, kb, c.outputs, kc, rab.1, rab.2, rbc.2);
}

/// Where `simp_count` stops, nothing more can be dropped.
proof fn lemma_simp_count_stops(ins: Seq<SNode>, outs: Seq<SNode>, k: int)
    requires
        0 <= k <= ins.len(),
        k <= outs.len(),
    ensures
        ({
            let m = simp_count(ins, outs, k);
            m >= ins.len() || m >= outs.len() || !same_node(ins[m], outs[m]) || any_same(ins[m], outs, m + 1)
        }),
    decreases ins.len() - k,
{
    if !(k >= ins.len() || k >= outs.len() || !same_node(ins[k], outs[k]) || any_same(ins[k], outs, k + 1)) {
        lemma_simp_count_stops(ins, outs, k + 1);
    }
}

/// Simplifying a simplified effect changes nothing.
pub proof fn law_simplified_idempotent(se: SEffect)
    ensures
        spec_simplified(spec_simplified(se)) == spec_simplified(se),
{
    let k = simp_count(se.inputs, se.outputs, 0);
    lemma_simp_count_bounds(se.inputs, se.outputs, 0);
    lemma_simp_count_stops(se.inputs, se.outputs, 0);
    let t = spec_simplified(se);
    let ins = t.inputs;
    let outs = t.outputs;
    if !(0 >= ins.len() || 0 >= outs.len()) {
        assert(ins[0] == se.inputs[k]);
        assert(outs[0] == se.outputs[k]);
        if same_node(ins[0], outs[0]) && !any_same(ins[0], outs, 1) {
            assert(any_same(se.inputs[k], se.outputs, k + 1));
            let j = choose|j: int| k + 1 <= j < se.outputs.len() && same_node(se.inputs[k], #[trigger] se.outputs[j]);
            assert(outs[j - k] == se.outputs[j]);
            assert(false);
        }
    }
    assert(simp_count(ins, outs, 0) == 0);
    assert(spec_simplified(t).inputs =~= ins);
    assert(spec_simplified(t).outputs =~= outs);
}

/// A copy of an element.
pub fn clone_node(n: &EffectNode) -> (r: EffectNode)
    ensures
        r@ == n@,
    decreases n,
{
    match n {
        EffectNode::Row(s) => {
            let c = copy_chars(s.as_slice());
            assert(c@ == s@);
            EffectNode::Row(c)
        },
        EffectNode::Item(s) => {
            let c = copy_chars(s.as_slice());
            assert(c@ == s@);
            EffectNode::Item(c)
        },
        EffectNode::Quotation(s, se) => {
            let ins = clone_nodes(&se.inputs, 0);
            let outs = clone_nodes(&se.outputs, 0);
            proof {
                lemma_view_seq(se.inputs@);
                lemma_view_seq(se.outputs@);
                assert(view_seq(se.inputs@).subrange(0, se.inputs@.len() as int) =~= view_seq(se.inputs@));
                assert(view_seq(se.outputs@).subrange(0, se.outputs@.len() as int) =~= view_seq(se.outputs@));
            }
            EffectNode::Quotation(copy_chars(s.as_slice()), StackEffect { inputs: ins, outputs: outs })
        },
    }
}

/// A copy of the elements of `v` from index `from` on.
pub fn clone_nodes(v: &Vec<EffectNode>, from: usize) -> (r: Vec<EffectNode>)
    requires
        from <= v@.len(),
    ensures
        view_seq(r@) == view_seq(v@).subrange(from as int, v@.len() as int),
    decreases v,
{
    let mut out: Vec<EffectNode> = Vec::new();
    let mut i: usize = from;
    proof {
        lemma_view_seq(v@);
    }
    while i < v.len()
        invariant
            from <= i <= v@.len(),
            out@.len() == i - from,
            forall|k: int| 0 <= k < out@.len() ==> #[trigger] view_node(out@[k]) == view_node(v@[from + k]),
        decreases v@.len() - i,
    {
        assert(decreases_to!(v => v@));
        assert(decreases_to!(v@ => v@[i as int]));
        let c = clone_node(&v[i]);
        out.push(c);
        i = i + 1;
    }
    proof {
        lemma_view_seq(out@);
        assert(view_seq(out@) =~= view_seq(v@).subrange(from as int, v@.len() as int));
    }
    out
}

impl StackEffect {
    /// A copy of the effect.
    pub fn duplicate(&self) -> (r: StackEffect)
        ensures
            r@ == self@,
    {
        let ins = clone_nodes(&self.inputs, 0);
        let outs = clone_nodes(&self.outputs, 0);
        proof {
            lemma_view_seq(self.inputs@);
            lemma_view_seq(self.outputs@);
            assert(view_seq(self.inputs@).subrange(0, self.inputs@.len() as int) =~= view_seq(self.inputs@));
            assert(view_seq(self.outputs@).subrange(0, self.outputs@.len() as int) =~= view_seq(self.outputs@));
        }
        StackEffect { inputs: ins, outputs: outs }
    }

    /// The effect without the leading variables that pass through unchanged.
    pub fn simplified(&self) -> (r: StackEffect)
        ensures
            r@ == spec_simplified(self@),
    {
        let k = simplify_count(&self.inputs, &self.outputs);
        let ins = clone_nodes(&self.inputs, k);
        let outs = clone_nodes(&self.outputs, k);
        proof {
            lemma_view_seq(self.inputs@);
            lemma_view_seq(self.outputs@);
        }
        StackEffect { inputs: ins, outputs: outs }
    }
}


/// Values that give a stack effect: an effect itself, or its text.
pub trait IntoStackEffect: Sized {
    /// The stack effect, or why there is none.
    fn try_into_stack_effect(self) -> Result<StackEffect, Error>;
}

impl IntoStackEffect for StackEffect {
    /// The effect itself.
    fn try_into_stack_effect(self) -> (r: Result<StackEffect, Error>)
        ensures
            r matches Ok(se) && se@ == self@,
    {
        Ok(self)
    }
}

impl IntoStackEffect for &str {
    /// The effect the text reads as.
    fn try_into_stack_effect(self) -> (r: Result<StackEffect, Error>)
        ensures
            match (r, spec_parse(self@)) {
                (Ok(se), Ok(sse)) => se@ == sse,
                (Err(e), Err(se)) => e == se,
                _ => false,
            },
    {
        StackEffect::parse(self)
    }
}

impl IntoStackEffect for String {
    /// The effect the text reads as.
    fn try_into_stack_effect(self) -> (r: Result<StackEffect, Error>)
        ensures
            match (r, spec_parse(self@)) {
                (Ok(se), Ok(sse)) => se@ == sse,
                (Err(e), Err(se)) => e == se,
                _ => false,
            },
    {
        StackEffect::parse(self.as_str())
    }
}

} // verus!
