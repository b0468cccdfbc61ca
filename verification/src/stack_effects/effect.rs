//! Effects: building, reading, simplifying, comparing and chaining them.
use vstd::prelude::*;
use crate::errors::Error;
use crate::text::{chars_of, copy_chars};
use crate::parsing::tokenize_chars;
use super::element::{Element, ElementRef, EView, StackEffect, copy_refs, no_chars};
use super::scratchpad::{Scratchpad, refs_below, view_below, count_none, extends, lemma_fill, lemma_extends_count};
use super::sequence::{normalize_in, new_marks, flatten, no_marks, shape_kept, lemma_flatten_stable, push_ref};
use super::parser::{parse_effect, effect_end};
use crate::stack_effect::{spec_parse, toks_view, lparen, SEffect};
use crate::parsing::spec_tokens;
use super::astack::AbstractStack;

verus! {

/// The effect with common leading elements dropped from both sides, as
/// long as the element does not occur again among the outputs.
pub open spec fn spec_simplified(ins: Seq<ElementRef>, outs: Seq<ElementRef>) -> (Seq<ElementRef>, Seq<ElementRef>)
    decreases ins.len(),
{
    if ins.len() == 0 || outs.len() == 0 {
        (ins, outs)
    } else if ins[0] != outs[0] {
        (ins, outs)
    } else if outs.drop_first().contains(ins[0]) {
        (ins, outs)
    } else {
        spec_simplified(ins.drop_first(), outs.drop_first())
    }
}

/// Whether `x` occurs in `s` from position `from` on.
fn occurs_from(s: &Vec<ElementRef>, from: usize, x: ElementRef) -> (r: bool)
    requires
        from <= s@.len(),
    ensures
        r == s@.skip(from as int).contains(x),
{
    let mut i = from;
    while i < s.len()
        invariant
            from <= i <= s@.len(),
            forall|j: int| from <= j < i ==> s@[j] != x,
        decreases s@.len() - i,
    {
        if s[i].0 == x.0 {
            assert(s@.skip(from as int)[i - from] == x);
            return true;
        }
        i = i + 1;
    }
    proof {
        if s@.skip(from as int).contains(x) {
            let j = choose|j: int| 0 <= j < s@.skip(from as int).len() && s@.skip(from as int)[j] == x;
            assert(s@[j + from] == x);
        }
    }
    false
}

impl StackEffect {
    /// An effect with the given sides.
    pub fn new(inputs: Vec<ElementRef>, outputs: Vec<ElementRef>) -> (r: StackEffect)
        ensures
            r.inputs@ == inputs@,
            r.outputs@ == outputs@,
    {
        StackEffect { inputs, outputs }
    }

    /// `( .. -- .. varname )`: pushes a value; the elements are made in
    /// `pad`.
    pub fn new_pushing(pad: &mut Scratchpad, varname: &str) -> (r: StackEffect)
        requires
            old(pad).wf(),
        ensures
            final(pad).wf(),
            final(pad).views() == old(pad).views().push(EView::Ellipsis(Seq::empty())).push(EView::Item(varname@)),
            final(pad).elements@ == old(pad).elements@,
            r.inputs@ == seq![ElementRef(old(pad).len() as usize)],
            r.outputs@ == seq![ElementRef(old(pad).len() as usize), ElementRef((old(pad).len() + 1) as usize)],
    {
        let row = pad.add_element(Element::Ellipsis(no_chars()));
        let x = pad.add_element(Element::Item(chars_of(varname)));
        let mut inputs: Vec<ElementRef> = Vec::new();
        inputs.push(row);
        let mut outputs: Vec<ElementRef> = Vec::new();
        outputs.push(row);
        outputs.push(x);
        StackEffect::new(inputs, outputs)
    }

    /// `( .. -- .. varname(se) )`: pushes a callable with effect `se`.
    pub fn new_quoted(pad: &mut Scratchpad, varname: &str, se: StackEffect) -> (r: StackEffect)
        requires
            old(pad).wf(),
            refs_below(se.inputs@, old(pad).len()),
            refs_below(se.outputs@, old(pad).len()),
        ensures
            final(pad).wf(),
            final(pad).views() == old(pad).views().push(EView::Ellipsis(Seq::empty()))
                .push(EView::Callable(varname@, se.inputs@, se.outputs@)),
            final(pad).elements@ == old(pad).elements@,
            r.inputs@ == seq![ElementRef(old(pad).len() as usize)],
            r.outputs@ == seq![ElementRef(old(pad).len() as usize), ElementRef((old(pad).len() + 1) as usize)],
    {
        let row = pad.add_element(Element::Ellipsis(no_chars()));
        let x = pad.add_element(Element::Callable(chars_of(varname), se));
        let mut inputs: Vec<ElementRef> = Vec::new();
        inputs.push(row);
        let mut outputs: Vec<ElementRef> = Vec::new();
        outputs.push(row);
        outputs.push(x);
        StackEffect::new(inputs, outputs)
    }

    /// `( .. varname -- .. varname' )`: replaces a value by a changed one.
    pub fn new_mod(pad: &mut Scratchpad, varname: &str) -> (r: StackEffect)
        requires
            old(pad).wf(),
        ensures
            final(pad).wf(),
            final(pad).views() == old(pad).views().push(EView::Ellipsis(Seq::empty()))
                .push(EView::Item(varname@)).push(EView::Item(varname@.push('\''))),
            final(pad).elements@ == old(pad).elements@,
            r.inputs@ == seq![ElementRef(old(pad).len() as usize), ElementRef((old(pad).len() + 1) as usize)],
            r.outputs@ == seq![ElementRef(old(pad).len() as usize), ElementRef((old(pad).len() + 2) as usize)],
    {
        let row = pad.add_element(Element::Ellipsis(no_chars()));
        let a = pad.add_element(Element::Item(chars_of(varname)));
        let mut changed = chars_of(varname);
        changed.push('\'');
        let b = pad.add_element(Element::Item(changed));
        let mut inputs: Vec<ElementRef> = Vec::new();
        inputs.push(row);
        inputs.push(a);
        let mut outputs: Vec<ElementRef> = Vec::new();
        outputs.push(row);
        outputs.push(b);
        StackEffect::new(inputs, outputs)
    }

    /// Reads an effect such as `(a b -- b a)` into a new scratchpad.
    pub fn parse(input: &str) -> (r: Result<(Scratchpad, StackEffect), Error>)
        ensures
            match r {
                Ok((pad, se)) => {
                    &&& pad.wf()
                    &&& refs_below(se.inputs@, pad.len())
                    &&& refs_below(se.outputs@, pad.len())
                },
                Err(e) => e == Error::EndOfInput || e == Error::IncompatibleStackEffects,
            },
            spec_tokens(input@).len() > 0 && spec_tokens(input@)[0] == lparen() ==> {
                &&& (r is Ok ==> spec_parse(input@) is Ok)
                &&& (r == Err::<(Scratchpad, StackEffect), Error>(Error::EndOfInput) ==> spec_parse(input@)
                    == Err::<SEffect, Error>(Error::EndOfInput))
            },
    {
        let chars = chars_of(input);
        let tokens = tokenize_chars(chars.as_slice());
        assert(toks_view(tokens@) == spec_tokens(input@));
        let mut pad = Scratchpad::new();
        match parse_effect(&mut pad, &tokens, 0) {
            Ok((se, _)) => Ok((pad, se)),
            Err(e) => Err(e),
        }
    }

    /// The effect of running this effect (in `pad`) and then `other` (in
    /// `other_pad`), in a new scratchpad.
    pub fn chain(&self, pad: &Scratchpad, other: &StackEffect, other_pad: &Scratchpad)
        -> (r: Result<(Scratchpad, StackEffect), Error>)
        requires
            pad.wf(),
            other_pad.wf(),
            refs_below(self.inputs@, pad.len()),
            refs_below(self.outputs@, pad.len()),
            refs_below(other.inputs@, other_pad.len()),
            refs_below(other.outputs@, other_pad.len()),
        ensures
            match r {
                Ok((p, se)) => {
                    &&& p.wf()
                    &&& refs_below(se.inputs@, p.len())
                    &&& refs_below(se.outputs@, p.len())
                },
                Err(_) => true,
            },
            self.inputs@.len() == 0 && other.inputs@.len() == 0 ==> r is Ok,
    {
        let mut astack = AbstractStack::new();
        match astack.apply_effect(self, pad) {
            Ok(()) => {},
            Err(e) => {
                return Err(e);
            },
        }
        match astack.apply_effect(other, other_pad) {
            Ok(()) => {},
            Err(e) => {
                return Err(e);
            },
        }
        Ok(astack.into_effect())
    }

    /// The effect without the leading elements that pass through
    /// untouched (see `spec_simplified`).
    pub fn simplified(&self) -> (r: StackEffect)
        ensures
            (r.inputs@, r.outputs@) == spec_simplified(self.inputs@, self.outputs@),
    {
        let ins = &self.inputs;
        let outs = &self.outputs;
        let mut k: usize = 0;
        assert(ins@.skip(0) =~= ins@);
        assert(outs@.skip(0) =~= outs@);
        while k < ins.len() && k < outs.len() && ins[k].0 == outs[k].0 && !occurs_from(outs, k + 1, ins[k])
            invariant
                k <= ins@.len(),
                k <= outs@.len(),
                spec_simplified(ins@, outs@) == spec_simplified(ins@.skip(k as int), outs@.skip(k as int)),
            decreases ins@.len() - k,
        {
            assert(ins@.skip(k as int)[0] == ins@[k as int]);
            assert(outs@.skip(k as int)[0] == outs@[k as int]);
            assert(outs@.skip(k as int).drop_first() =~= outs@.skip(k + 1));
            assert(ins@.skip(k as int).drop_first() =~= ins@.skip(k + 1));
            k = k + 1;
        }
        proof {
            let a = ins@.skip(k as int);
            let b = outs@.skip(k as int);
            if a.len() > 0 && b.len() > 0 {
                assert(a[0] == ins@[k as int]);
                assert(b[0] == outs@[k as int]);
                assert(b.drop_first() =~= outs@.skip(k + 1));
            }
            assert(ins@.skip(0) =~= ins@);
            assert(outs@.skip(0) =~= outs@);
        }
        let mut ri: Vec<ElementRef> = Vec::new();
        let mut i = k;
        while i < ins.len()
            invariant
                k <= i <= ins@.len(),
                ri@ == ins@.subrange(k as int, i as int),
            decreases ins@.len() - i,
        {
            ri.push(ins[i]);
            assert(ins@.subrange(k as int, i + 1) == ins@.subrange(k as int, i as int).push(ins@[i as int]));
            i = i + 1;
        }
        let mut ro: Vec<ElementRef> = Vec::new();
        let mut i = k;
        while i < outs.len()
            invariant
                k <= i <= outs@.len(),
                ro@ == outs@.subrange(k as int, i as int),
            decreases outs@.len() - i,
        {
            ro.push(outs[i]);
            assert(outs@.subrange(k as int, i + 1) == outs@.subrange(k as int, i as int).push(outs@[i as int]));
            i = i + 1;
        }
        assert(ri@ =~= ins@.skip(k as int));
        assert(ro@ =~= outs@.skip(k as int));
        StackEffect::new(ri, ro)
    }

    /// The effect with both sides flattened (see `normalize_in`); the
    /// effects of the callables in `pad` are flattened in place.
    pub fn normalized(&self, pad: &mut Scratchpad) -> (r: StackEffect)
        requires
            old(pad).wf(),
            refs_below(self.inputs@, old(pad).len()),
            refs_below(self.outputs@, old(pad).len()),
        ensures
            final(pad).wf(),
            final(pad).len() == old(pad).len(),
            final(pad).elements@ == old(pad).elements@,
            shape_kept(old(pad).views(), final(pad).views()),
            r.inputs@ == flatten(old(pad).views(), self.inputs@, no_marks(old(pad).len())),
            r.outputs@ == flatten(old(pad).views(), self.outputs@, no_marks(old(pad).len())),
            refs_below(r.inputs@, final(pad).len()),
            refs_below(r.outputs@, final(pad).len()),
    {
        let ghost v0 = pad.views();
        let mut marks = new_marks(pad.arena.len());
        let ins = normalize_in(pad, &self.inputs, &mut marks);
        let ghost v1 = pad.views();
        let outs = normalize_in(pad, &self.outputs, &mut marks);
        proof {
            lemma_flatten_stable(v0, v1, self.outputs@, no_marks(v0.len()));
            assert forall|i: int| 0 <= i < v0.len() implies super::sequence::kept(#[trigger] v0[i], pad.views()[i]) by {
                assert(super::sequence::kept(v0[i], v1[i]));
            }
        }
        StackEffect::new(ins, outs)
    }

    /// A copy of the effect of `src`, with every element it reaches, in
    /// `dst`; the copies are not registered.
    pub fn recursive_deepcopy(&self, src: &Scratchpad, dst: &mut Scratchpad) -> (r: StackEffect)
        requires
            old(dst).wf(),
            src.wf(),
            refs_below(self.inputs@, src.len()),
            refs_below(self.outputs@, src.len()),
        ensures
            final(dst).wf(),
            final(dst).views().subrange(0, old(dst).len() as int) == old(dst).views(),
            old(dst).len() <= final(dst).len(),
            final(dst).elements@ == old(dst).elements@,
            refs_below(r.inputs@, final(dst).len()),
            refs_below(r.outputs@, final(dst).len()),
            r.inputs@.len() == self.inputs@.len(),
            r.outputs@.len() == self.outputs@.len(),
    {
        dst.deepcopy_effect(src, self)
    }
}


/// Whether two elements are of the same kind.
pub open spec fn same_kind(a: EView, b: EView) -> bool {
    match (a, b) {
        (EView::Ellipsis(_), EView::Ellipsis(_)) => true,
        (EView::Item(_), EView::Item(_)) => true,
        (EView::Callable(_, _, _), EView::Callable(_, _, _)) => true,
        (EView::Sequence(_), EView::Sequence(_)) => true,
        _ => false,
    }
}

/// Every entry of a correspondence relates elements of the same kind.
pub open spec fn kinds_ok(va: Seq<EView>, vb: Seq<EView>, m: Seq<Option<usize>>) -> bool {
    forall|i: int| 0 <= i < m.len() && i < va.len() && (#[trigger] m[i]) is Some ==> m[i]->Some_0 < vb.len()
        && same_kind(va[i], vb[m[i]->Some_0 as int])
}

/// Two sides of the same length whose elements are pairwise of the same
/// kind.
pub open spec fn sides_same_kind(va: Seq<EView>, vb: Seq<EView>, s: Seq<ElementRef>, t: Seq<ElementRef>) -> bool {
    &&& s.len() == t.len()
    &&& forall|i: int| 0 <= i < s.len() ==> same_kind(va[(#[trigger] s[i]).0 as int], vb[t[i].0 as int])
}

/// Every element referred to is a row or a value.
pub open spec fn plain_refs(v: Seq<EView>, s: Seq<ElementRef>) -> bool {
    forall|i: int| 0 <= i < s.len() ==> (v[(#[trigger] s[i]).0 as int] is Ellipsis || v[s[i].0 as int] is Item)
}

/// The same element at two places of one sequence stands at the same two
/// places of the other, and the other way round.
pub open spec fn one_to_one(p: Seq<ElementRef>, q: Seq<ElementRef>) -> bool {
    &&& p.len() == q.len()
    &&& forall|i: int, j: int| #![trigger p[i], p[j]] #![trigger q[i], q[j]] 0 <= i < p.len() && 0 <= j < p.len() ==> ((p[i] == p[j]) == (q[i] == q[j]))
}

/// The correspondence pairs exactly the elements at the same places of `p`
/// and `q`, in both directions.
pub open spec fn maps_exact(mab: Seq<Option<usize>>, mba: Seq<Option<usize>>, p: Seq<ElementRef>, q: Seq<ElementRef>) -> bool {
    &&& p.len() == q.len()
    &&& forall|k: int| 0 <= k < p.len() ==> (#[trigger] p[k]).0 < mab.len() && q[k].0 < mba.len()
        && mab[p[k].0 as int] == Some(q[k].0) && mba[q[k].0 as int] == Some(p[k].0)
    &&& forall|x: int| 0 <= x < mab.len() && (#[trigger] mab[x]) is Some ==> exists|k: int| 0 <= k < p.len() && (#[trigger] p[k]).0 == x
    &&& forall|y: int| 0 <= y < mba.len() && (#[trigger] mba[y]) is Some ==> exists|k: int| 0 <= k < q.len() && (#[trigger] q[k]).0 == y
}

/// An exact correspondence is one to one.
proof fn lemma_exact_one_to_one(mab: Seq<Option<usize>>, mba: Seq<Option<usize>>, p: Seq<ElementRef>, q: Seq<ElementRef>)
    requires
        maps_exact(mab, mba, p, q),
    ensures
        one_to_one(p, q),
{
    assert forall|i: int, j: int| 0 <= i < p.len() && 0 <= j < p.len() implies ((p[i] == p[j]) == (q[i] == q[j])) by {
        assert(mab[p[i].0 as int] == Some(q[i].0));
        assert(mab[p[j].0 as int] == Some(q[j].0));
        assert(mba[q[i].0 as int] == Some(p[i].0));
        assert(mba[q[j].0 as int] == Some(p[j].0));
    }
}

/// A prefix of a one-to-one pairing is one to one.
proof fn lemma_one_to_one_prefix(p: Seq<ElementRef>, q: Seq<ElementRef>, n: int)
    requires
        one_to_one(p, q),
        0 <= n <= p.len(),
    ensures
        one_to_one(p.take(n), q.take(n)),
{
    assert forall|i: int, j: int| 0 <= i < n && 0 <= j < n implies ((p.take(n)[i] == p.take(n)[j]) == (q.take(n)[i] == q.take(n)[j])) by {
        assert(p.take(n)[i] == p[i] && p.take(n)[j] == p[j]);
        assert(q.take(n)[i] == q[i] && q.take(n)[j] == q[j]);
        assert((p[i] == p[j]) == (q[i] == q[j]));
    }
}

/// One step of matching two rows or values: it succeeds exactly when the
/// pair keeps the correspondence one to one and the two are of a kind,
/// and then the correspondence pairs exactly one more place.
proof fn lemma_exact_step(m0a: Seq<Option<usize>>, m0b: Seq<Option<usize>>, m1a: Seq<Option<usize>>, m1b: Seq<Option<usize>>,
    p: Seq<ElementRef>, q: Seq<ElementRef>, x: ElementRef, y: ElementRef, va: Seq<EView>, vb: Seq<EView>, ok: bool)
    requires
        maps_exact(m0a, m0b, p, q),
        x.0 < m0a.len(),
        y.0 < m0b.len(),
        m0a.len() == va.len(),
        m0b.len() == vb.len(),
        va[x.0 as int] is Ellipsis || va[x.0 as int] is Item,
        vb[y.0 as int] is Ellipsis || vb[y.0 as int] is Item,
        m0a[x.0 as int] matches Some(y2) ==> ok == (y2 == y.0) && m1a == m0a && m1b == m0b,
        m0a[x.0 as int] is None && m0b[y.0 as int] is Some ==> !ok,
        m0a[x.0 as int] is None && m0b[y.0 as int] is None ==> {
            &&& !same_kind(va[x.0 as int], vb[y.0 as int]) ==> !ok
            &&& (va[x.0 as int] is Item && vb[y.0 as int] is Item || va[x.0 as int] is Ellipsis && vb[y.0 as int] is Ellipsis) ==> ok
                && m1a == m0a.update(x.0 as int, Some(y.0))
                && m1b == m0b.update(y.0 as int, Some(x.0))
        },
    ensures
        ok ==> maps_exact(m1a, m1b, p.push(x), q.push(y)),
        same_kind(va[x.0 as int], vb[y.0 as int]) && one_to_one(p.push(x), q.push(y)) ==> ok,
{
    let pp = p.push(x);
    let qq = q.push(y);
    let n = p.len() as int;
    assert(pp[n] == x && qq[n] == y);
    assert forall|k: int| 0 <= k < n implies pp[k] == p[k] && qq[k] == q[k] by {}
    match m0a[x.0 as int] {
        Some(y2) => {
            let k = choose|k: int| 0 <= k < p.len() && (#[trigger] p[k]).0 == x.0;
            assert(p[k] == x);
            assert(m0a[p[k].0 as int] == Some(q[k].0));
            assert(y2 == q[k].0);
            if one_to_one(pp, qq) {
                assert(pp[k] == pp[n]);
                assert(qq[k] == qq[n]);
            }
            if ok {
                assert(q[k] == y);
                assert(m0b[q[k].0 as int] == Some(p[k].0));
                assert forall|j: int| 0 <= j < pp.len() implies (#[trigger] pp[j]).0 < m1a.len() && qq[j].0 < m1b.len()
                    && m1a[pp[j].0 as int] == Some(qq[j].0) && m1b[qq[j].0 as int] == Some(pp[j].0) by {
                    if j < n {
                        assert(pp[j] == p[j]);
                    }
                }
                assert forall|xx: int| 0 <= xx < m1a.len() && (#[trigger] m1a[xx]) is Some implies exists|kk: int| 0 <= kk < pp.len() && (#[trigger] pp[kk]).0 == xx by {
                    let kk = choose|kk: int| 0 <= kk < p.len() && (#[trigger] p[kk]).0 == xx;
                    assert(pp[kk] == p[kk]);
                }
                assert forall|yy: int| 0 <= yy < m1b.len() && (#[trigger] m1b[yy]) is Some implies exists|kk: int| 0 <= kk < qq.len() && (#[trigger] qq[kk]).0 == yy by {
                    let kk = choose|kk: int| 0 <= kk < q.len() && (#[trigger] q[kk]).0 == yy;
                    assert(qq[kk] == q[kk]);
                }
            }
        },
        None => {
            if m0b[y.0 as int] is Some {
                let k = choose|k: int| 0 <= k < q.len() && (#[trigger] q[k]).0 == y.0;
                assert(q[k] == y);
                assert(m0a[p[k].0 as int] == Some(q[k].0));
                if one_to_one(pp, qq) {
                    assert(qq[k] == qq[n]);
                    assert(pp[k] == pp[n]);
                    assert(p[k] == x);
                }
            } else {
                if ok {
                    assert forall|j: int| 0 <= j < pp.len() implies (#[trigger] pp[j]).0 < m1a.len() && qq[j].0 < m1b.len()
                        && m1a[pp[j].0 as int] == Some(qq[j].0) && m1b[qq[j].0 as int] == Some(pp[j].0) by {
                        if j < n {
                            assert(pp[j] == p[j] && qq[j] == q[j]);
                            assert(m0a[p[j].0 as int] == Some(q[j].0));
                            assert(p[j].0 != x.0);
                            assert(m0b[q[j].0 as int] == Some(p[j].0));
                            assert(q[j].0 != y.0);
                        }
                    }
                    assert forall|xx: int| 0 <= xx < m1a.len() && (#[trigger] m1a[xx]) is Some implies exists|kk: int| 0 <= kk < pp.len() && (#[trigger] pp[kk]).0 == xx by {
                        if xx == x.0 {
                            assert(pp[n].0 == xx);
                        } else {
                            assert(m0a[xx] is Some);
                            let kk = choose|kk: int| 0 <= kk < p.len() && (#[trigger] p[kk]).0 == xx;
                            assert(pp[kk] == p[kk]);
                        }
                    }
                    assert forall|yy: int| 0 <= yy < m1b.len() && (#[trigger] m1b[yy]) is Some implies exists|kk: int| 0 <= kk < qq.len() && (#[trigger] qq[kk]).0 == yy by {
                        if yy == y.0 {
                            assert(qq[n].0 == yy);
                        } else {
                            assert(m0b[yy] is Some);
                            let kk = choose|kk: int| 0 <= kk < q.len() && (#[trigger] q[kk]).0 == yy;
                            assert(qq[kk] == q[kk]);
                        }
                    }
                }
            }
        },
    }
}

/// Every entry of a correspondence maps an element to itself.
pub open spec fn identity_map(m: Seq<Option<usize>>) -> bool {
    forall|i: int| 0 <= i < m.len() && (#[trigger] m[i]) is Some ==> m[i]->Some_0 == i
}

/// Whether elements `x` of `pa` and `y` of `pb` correspond: of the same
/// kind, with corresponding effects or contents, every element
/// corresponding to one element only. `mab` and `mba` hold the
/// correspondence found so far, in both directions.
fn equiv_element(pa: &Scratchpad, pb: &Scratchpad, x: ElementRef, y: ElementRef,
    mab: &mut Vec<Option<usize>>, mba: &mut Vec<Option<usize>>) -> (r: bool)
    requires
        pa.wf(),
        pb.wf(),
        x.0 < pa.len(),
        y.0 < pb.len(),
        old(mab)@.len() == pa.len(),
        old(mba)@.len() == pb.len(),
    ensures
        final(mab)@.len() == pa.len(),
        final(mba)@.len() == pb.len(),
        extends(old(mab)@, final(mab)@),
        (pa.views() == pb.views() && x == y && old(mab)@ == old(mba)@ && identity_map(old(mab)@)) ==>
            (r && final(mab)@ == final(mba)@ && identity_map(final(mab)@)),
        old(mab)@[x.0 as int] matches Some(y2) ==> r == (y2 == y.0) && final(mab)@ == old(mab)@ && final(mba)@ == old(mba)@,
        old(mab)@[x.0 as int] is None && old(mba)@[y.0 as int] is Some ==> !r,
        kinds_ok(pa.views(), pb.views(), old(mab)@) && r ==> kinds_ok(pa.views(), pb.views(), final(mab)@)
            && same_kind(pa.views()[x.0 as int], pb.views()[y.0 as int]),
        old(mab)@[x.0 as int] is None && old(mba)@[y.0 as int] is None ==> {
            &&& !same_kind(pa.views()[x.0 as int], pb.views()[y.0 as int]) ==> !r
            &&& (pa.views()[x.0 as int] is Item && pb.views()[y.0 as int] is Item
                || pa.views()[x.0 as int] is Ellipsis && pb.views()[y.0 as int] is Ellipsis) ==> r
                && final(mab)@ == old(mab)@.update(x.0 as int, Some(y.0))
                && final(mba)@ == old(mba)@.update(y.0 as int, Some(x.0))
        },
    decreases count_none(old(mab)@), 0nat,
{
    match mab[x.0] {
        Some(y2) => {
            return y2 == y.0;
        },
        None => {},
    }
    if mba[y.0].is_some() {
        return false;
    }
    let ghost m0 = mab@;
    proof {
        lemma_fill(mab@, x.0 as int, y.0);
    }
    mab.set(x.0, Some(y.0));
    mba.set(y.0, Some(x.0));
    assert(extends(m0, mab@));
    let ea = pa.get(x);
    let eb = pb.get(y);
    assert(view_below(pa.views()[x.0 as int], pa.len()));
    assert(view_below(pb.views()[y.0 as int], pb.len()));
    let ghost m1 = mab@;
    let ghost sk = same_kind(pa.views()[x.0 as int], pb.views()[y.0 as int]);
    assert(sk && kinds_ok(pa.views(), pb.views(), m0) ==> kinds_ok(pa.views(), pb.views(), m1));
    let r = match (ea, eb) {
        (Element::Ellipsis(_), Element::Ellipsis(_)) => true,
        (Element::Item(_), Element::Item(_)) => true,
        (Element::Callable(_, sa), Element::Callable(_, sb)) => {
            let ok = equiv_seq(pa, pb, &sa.inputs, &sb.inputs, mab, mba, Ghost(Seq::empty()), Ghost(Seq::empty()));
            if ok {
                proof {
                    lemma_extends_count(m1, mab@);
                }
                let ghost m2 = mab@;
                let ok2 = equiv_seq(pa, pb, &sa.outputs, &sb.outputs, mab, mba, Ghost(Seq::empty()), Ghost(Seq::empty()));
                proof {
                    assert forall|i: int| 0 <= i < m1.len() && (#[trigger] m1[i]) is Some implies mab@[i] == m1[i] by {
                        assert(m2[i] == m1[i]);
                    }
                }
                ok2
            } else {
                false
            }
        },
        (Element::Sequence(sa), Element::Sequence(sb)) => equiv_seq(pa, pb, sa, sb, mab, mba, Ghost(Seq::empty()), Ghost(Seq::empty())),
        _ => false,
    };
    proof {
        assert forall|i: int| 0 <= i < m0.len() && (#[trigger] m0[i]) is Some implies mab@[i] == m0[i] by {
            assert(m1[i] == m0[i]);
        }
    }
    r
}

/// Whether two sequences correspond element by element (see
/// `equiv_element`).
fn equiv_seq(pa: &Scratchpad, pb: &Scratchpad, s: &Vec<ElementRef>, t: &Vec<ElementRef>,
    mab: &mut Vec<Option<usize>>, mba: &mut Vec<Option<usize>>, Ghost(p): Ghost<Seq<ElementRef>>, Ghost(q): Ghost<Seq<ElementRef>>) -> (r: bool)
    requires
        pa.wf(),
        pb.wf(),
        refs_below(s@, pa.len()),
        refs_below(t@, pb.len()),
        old(mab)@.len() == pa.len(),
        old(mba)@.len() == pb.len(),
    ensures
        final(mab)@.len() == pa.len(),
        final(mba)@.len() == pb.len(),
        extends(old(mab)@, final(mab)@),
        (pa.views() == pb.views() && s@ == t@ && old(mab)@ == old(mba)@ && identity_map(old(mab)@)) ==>
            (r && final(mab)@ == final(mba)@ && identity_map(final(mab)@)),
        s@.len() != t@.len() ==> !r,
        s@.len() == 0 && t@.len() == 0 ==> r && final(mab)@ == old(mab)@ && final(mba)@ == old(mba)@,
        kinds_ok(pa.views(), pb.views(), old(mab)@) && r ==> kinds_ok(pa.views(), pb.views(), final(mab)@)
            && sides_same_kind(pa.views(), pb.views(), s@, t@),
        maps_exact(old(mab)@, old(mba)@, p, q) && plain_refs(pa.views(), s@) && plain_refs(pb.views(), t@) ==> {
            &&& (r ==> maps_exact(final(mab)@, final(mba)@, p + s@, q + t@))
            &&& (sides_same_kind(pa.views(), pb.views(), s@, t@) && one_to_one(p + s@, q + t@) ==> r)
        },
    decreases count_none(old(mab)@), 1nat,
{
    if s.len() != t.len() {
        return false;
    }
    let ghost same = pa.views() == pb.views() && s@ == t@ && mab@ == mba@ && identity_map(mab@);
    let ghost ex = maps_exact(mab@, mba@, p, q) && plain_refs(pa.views(), s@) && plain_refs(pb.views(), t@);
    let ghost goal = sides_same_kind(pa.views(), pb.views(), s@, t@) && one_to_one(p + s@, q + t@);
    proof {
        if ex {
            assert(p + s@.take(0) =~= p);
            assert(q + t@.take(0) =~= q);
        }
    }
    let mut i: usize = 0;
    while i < s.len()
        invariant
            ex == (maps_exact(old(mab)@, old(mba)@, p, q) && plain_refs(pa.views(), s@) && plain_refs(pb.views(), t@)),
            goal == (sides_same_kind(pa.views(), pb.views(), s@, t@) && one_to_one(p + s@, q + t@)),
            ex ==> maps_exact(mab@, mba@, p + s@.take(i as int), q + t@.take(i as int)),
            pa.wf(),
            pb.wf(),
            refs_below(s@, pa.len()),
            refs_below(t@, pb.len()),
            s@.len() == t@.len(),
            i <= s@.len(),
            mab@.len() == pa.len(),
            mba@.len() == pb.len(),
            extends(old(mab)@, mab@),
            count_none(mab@) <= count_none(old(mab)@),
            same == (pa.views() == pb.views() && s@ == t@ && old(mab)@ == old(mba)@ && identity_map(old(mab)@)),
            same ==> (mab@ == mba@ && identity_map(mab@)),
            s@.len() == 0 ==> mab@ == old(mab)@ && mba@ == old(mba)@,
            kinds_ok(pa.views(), pb.views(), old(mab)@) ==> kinds_ok(pa.views(), pb.views(), mab@)
                && forall|j: int| 0 <= j < i ==> same_kind(pa.views()[(#[trigger] s@[j]).0 as int], pb.views()[t@[j].0 as int]),
        decreases s@.len() - i,
    {
        let ghost m_before = mab@;
        let ghost mb_before = mba@;
        let ok = equiv_element(pa, pb, s[i], t[i], mab, mba);
        proof {
            if ex {
                let pi = p + s@.take(i as int);
                let qi = q + t@.take(i as int);
                assert(pa.views().len() == pa.len());
                assert(pb.views().len() == pb.len());
                assert(pa.views()[s@[i as int].0 as int] is Ellipsis || pa.views()[s@[i as int].0 as int] is Item);
                assert(pb.views()[t@[i as int].0 as int] is Ellipsis || pb.views()[t@[i as int].0 as int] is Item);
                lemma_exact_step(m_before, mb_before, mab@, mba@, pi, qi, s@[i as int], t@[i as int], pa.views(), pb.views(), ok);
                assert(pi.push(s@[i as int]) =~= p + s@.take(i + 1));
                assert(qi.push(t@[i as int]) =~= q + t@.take(i + 1));
                if goal {
                    lemma_one_to_one_prefix(p + s@, q + t@, p.len() + i + 1);
                    assert((p + s@).take(p.len() + i + 1) =~= p + s@.take(i + 1));
                    assert((q + t@).take(q.len() + i + 1) =~= q + t@.take(i + 1));
                    assert(same_kind(pa.views()[s@[i as int].0 as int], pb.views()[t@[i as int].0 as int]));
                }
            }
            lemma_extends_count(m_before, mab@);
            assert forall|j: int| 0 <= j < old(mab)@.len() && (#[trigger] old(mab)@[j]) is Some implies mab@[j] == old(mab)@[j] by {
                assert(m_before[j] == old(mab)@[j]);
            }
        }
        if !ok {
            return false;
        }
        i = i + 1;
    }
    proof {
        if ex {
            assert(s@.take(s@.len() as int) =~= s@);
            assert(t@.take(t@.len() as int) =~= t@);
        }
    }
    true
}

impl StackEffect {
    /// Whether this effect (in `pad`) and `other` (in `other_pad`) are the
    /// same up to the names of their elements: their sides correspond
    /// element by element, rows to rows, values to values, callables to
    /// callables with corresponding effects, each element to one element
    /// only.
    pub fn is_equivalent(&self, pad: &Scratchpad, other: &StackEffect, other_pad: &Scratchpad) -> (r: bool)
        requires
            pad.wf(),
            other_pad.wf(),
            refs_below(self.inputs@, pad.len()),
            refs_below(self.outputs@, pad.len()),
            refs_below(other.inputs@, other_pad.len()),
            refs_below(other.outputs@, other_pad.len()),
        ensures
            (pad.views() == other_pad.views() && self.inputs@ == other.inputs@ && self.outputs@ == other.outputs@) ==> r,
            self.inputs@.len() != other.inputs@.len() || self.outputs@.len() != other.outputs@.len() ==> !r,
            self.inputs@.len() == 0 && other.inputs@.len() == 0 && self.outputs@.len() == 0 && other.outputs@.len() == 0 ==> r,
            r ==> sides_same_kind(pad.views(), other_pad.views(), self.inputs@, other.inputs@)
                && sides_same_kind(pad.views(), other_pad.views(), self.outputs@, other.outputs@),
            plain_refs(pad.views(), self.inputs@ + self.outputs@) && plain_refs(other_pad.views(), other.inputs@ + other.outputs@)
                ==> (r <==> (sides_same_kind(pad.views(), other_pad.views(), self.inputs@, other.inputs@) && sides_same_kind(
                pad.views(),
                other_pad.views(),
                self.outputs@,
                other.outputs@,
            ) && one_to_one(self.inputs@ + self.outputs@, other.inputs@ + other.outputs@))),
    {
        let mut mab: Vec<Option<usize>> = Vec::new();
        let mut i: usize = 0;
        while i < pad.arena.len()
            invariant
                i <= pad.len(),
                mab@.len() == i,
                forall|j: int| 0 <= j < i ==> (#[trigger] mab@[j]) is None,
            decreases pad.len() - i,
        {
            mab.push(None);
            i = i + 1;
        }
        let mut mba: Vec<Option<usize>> = Vec::new();
        let mut i: usize = 0;
        while i < other_pad.arena.len()
            invariant
                i <= other_pad.len(),
                mba@.len() == i,
                forall|j: int| 0 <= j < i ==> (#[trigger] mba@[j]) is None,
            decreases other_pad.len() - i,
        {
            mba.push(None);
            i = i + 1;
        }
        proof {
            if pad.views() == other_pad.views() {
                assert(pad.len() == pad.views().len());
                assert(other_pad.len() == other_pad.views().len());
                assert(mab@ =~= mba@);
            }
        }
        assert(kinds_ok(pad.views(), other_pad.views(), mab@));
        assert(maps_exact(mab@, mba@, Seq::empty(), Seq::empty()));
        self.is_recursive_equivalent(pad, other, other_pad, &mut mab, &mut mba)
    }

    /// `is_equivalent`, with the correspondence found so far given and
    /// extended.
    pub fn is_recursive_equivalent(&self, pad: &Scratchpad, other: &StackEffect, other_pad: &Scratchpad,
        mab: &mut Vec<Option<usize>>, mba: &mut Vec<Option<usize>>) -> (r: bool)
        requires
            pad.wf(),
            other_pad.wf(),
            refs_below(self.inputs@, pad.len()),
            refs_below(self.outputs@, pad.len()),
            refs_below(other.inputs@, other_pad.len()),
            refs_below(other.outputs@, other_pad.len()),
            old(mab)@.len() == pad.len(),
            old(mba)@.len() == other_pad.len(),
        ensures
            final(mab)@.len() == pad.len(),
            final(mba)@.len() == other_pad.len(),
            extends(old(mab)@, final(mab)@),
            (pad.views() == other_pad.views() && self.inputs@ == other.inputs@ && self.outputs@ == other.outputs@
                && old(mab)@ == old(mba)@ && identity_map(old(mab)@)) ==>
                (r && final(mab)@ == final(mba)@ && identity_map(final(mab)@)),
            self.inputs@.len() != other.inputs@.len() || self.outputs@.len() != other.outputs@.len() ==> !r,
            self.inputs@.len() == 0 && other.inputs@.len() == 0 && self.outputs@.len() == 0 && other.outputs@.len() == 0 ==> r,
            kinds_ok(pad.views(), other_pad.views(), old(mab)@) && r ==> sides_same_kind(pad.views(), other_pad.views(), self.inputs@, other.inputs@)
                && sides_same_kind(pad.views(), other_pad.views(), self.outputs@, other.outputs@),
            maps_exact(old(mab)@, old(mba)@, Seq::empty(), Seq::empty()) && plain_refs(pad.views(), self.inputs@ + self.outputs@)
                && plain_refs(other_pad.views(), other.inputs@ + other.outputs@) ==> (r <==> (sides_same_kind(
                pad.views(),
                other_pad.views(),
                self.inputs@,
                other.inputs@,
            ) && sides_same_kind(pad.views(), other_pad.views(), self.outputs@, other.outputs@) && one_to_one(
                self.inputs@ + self.outputs@,
                other.inputs@ + other.outputs@,
            ))),
    {
        let ghost m0 = mab@;
        let ghost ex = maps_exact(mab@, mba@, Seq::empty(), Seq::empty()) && plain_refs(pad.views(), self.inputs@ + self.outputs@)
            && plain_refs(other_pad.views(), other.inputs@ + other.outputs@);
        let ghost ins = self.inputs@;
        let ghost outs = self.outputs@;
        let ghost oins = other.inputs@;
        let ghost oouts = other.outputs@;
        proof {
            if ex {
                assert forall|i: int| 0 <= i < ins.len() implies (pad.views()[(#[trigger] ins[i]).0 as int] is Ellipsis
                    || pad.views()[ins[i].0 as int] is Item) by {
                    assert((ins + outs)[i] == ins[i]);
                }
                assert forall|i: int| 0 <= i < outs.len() implies (pad.views()[(#[trigger] outs[i]).0 as int] is Ellipsis
                    || pad.views()[outs[i].0 as int] is Item) by {
                    assert((ins + outs)[ins.len() + i] == outs[i]);
                }
                assert forall|i: int| 0 <= i < oins.len() implies (other_pad.views()[(#[trigger] oins[i]).0 as int] is Ellipsis
                    || other_pad.views()[oins[i].0 as int] is Item) by {
                    assert((oins + oouts)[i] == oins[i]);
                }
                assert forall|i: int| 0 <= i < oouts.len() implies (other_pad.views()[(#[trigger] oouts[i]).0 as int] is Ellipsis
                    || other_pad.views()[oouts[i].0 as int] is Item) by {
                    assert((oins + oouts)[oins.len() + i] == oouts[i]);
                }
            }
        }
        assert(Seq::<ElementRef>::empty() + ins =~= ins);
        assert(Seq::<ElementRef>::empty() + oins =~= oins);
        assert(ex ==> kinds_ok(pad.views(), other_pad.views(), m0)) by {
            if ex {
                assert forall|i: int| 0 <= i < m0.len() && i < pad.views().len() && (#[trigger] m0[i]) is Some implies false by {
                    let k = choose|k: int| 0 <= k < Seq::<ElementRef>::empty().len() && (#[trigger] Seq::<ElementRef>::empty()[k]).0 == i;
                }
            }
        }
        assert(one_to_one(ins + outs, oins + oouts) && ins.len() == oins.len() ==> one_to_one(ins, oins)) by {
            if one_to_one(ins + outs, oins + oouts) && ins.len() == oins.len() {
                lemma_one_to_one_prefix(ins + outs, oins + oouts, ins.len() as int);
                assert((ins + outs).take(ins.len() as int) =~= ins);
                assert((oins + oouts).take(oins.len() as int) =~= oins);
            }
        }
        let a = equiv_seq(pad, other_pad, &self.inputs, &other.inputs, mab, mba, Ghost(Seq::empty()), Ghost(Seq::empty()));
        if !a {
            return false;
        }
        let ghost m1 = mab@;
        assert(ex ==> maps_exact(m1, mba@, ins, oins));
        let b = equiv_seq(pad, other_pad, &self.outputs, &other.outputs, mab, mba, Ghost(self.inputs@), Ghost(other.inputs@));
        proof {
            assert forall|i: int| 0 <= i < m0.len() && (#[trigger] m0[i]) is Some implies mab@[i] == m0[i] by {
                assert(m1[i] == m0[i]);
            }
            if ex && b {
                lemma_exact_one_to_one(mab@, mba@, ins + outs, oins + oouts);
            }
        }
        b
    }
}

} // verus!
