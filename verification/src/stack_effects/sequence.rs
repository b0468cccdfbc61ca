//! Sequences of elements: flattening the sequences that elements have been
//! found to stand for.
use vstd::prelude::*;
use crate::text::copy_chars;
use super::element::{Element, ElementRef, EView, StackEffect, copy_refs, no_chars};
use super::scratchpad::{Scratchpad, refs_below, view_below};

verus! {

/// How many positions are not marked.
pub open spec fn unmarked(p: Seq<bool>) -> nat
    decreases p.len(),
{
    if p.len() == 0 {
        0
    } else {
        unmarked(p.drop_last()) + if p.last() { 0nat } else { 1nat }
    }
}

/// Marking an unmarked position leaves one fewer unmarked.
pub proof fn lemma_mark(p: Seq<bool>, i: int)
    requires
        0 <= i < p.len(),
        !p[i],
    ensures
        unmarked(p.update(i, true)) + 1 == unmarked(p),
    decreases p.len(),
{
    if i == p.len() - 1 {
        assert(p.update(i, true).drop_last() =~= p.drop_last());
    } else {
        lemma_mark(p.drop_last(), i);
        assert(p.update(i, true).drop_last() =~= p.drop_last().update(i, true));
    }
}

/// No position marked.
pub open spec fn no_marks(n: nat) -> Seq<bool> {
    Seq::new(n, |i: int| false)
}

/// `b` is what `a` may become while sequences are flattened: rows, values
/// and sequences stay as they are, a callable keeps its name.
pub open spec fn kept(a: EView, b: EView) -> bool {
    match (a, b) {
        (EView::Ellipsis(x), EView::Ellipsis(y)) => x == y,
        (EView::Item(x), EView::Item(y)) => x == y,
        (EView::Callable(x, _, _), EView::Callable(y, _, _)) => x == y,
        (EView::Sequence(x), EView::Sequence(y)) => x == y,
        _ => false,
    }
}

/// Every element of `v1` is kept in `v2`.
pub open spec fn shape_kept(v1: Seq<EView>, v2: Seq<EView>) -> bool {
    &&& v1.len() == v2.len()
    &&& forall|i: int| 0 <= i < v1.len() ==> kept(#[trigger] v1[i], v2[i])
}

/// The elements of `s`, with each sequence element replaced by its own
/// flattened contents; an element already being flattened (marked in
/// `path`) is left as it is.
pub open spec fn flatten(v: Seq<EView>, s: Seq<ElementRef>, path: Seq<bool>) -> Seq<ElementRef>
    decreases unmarked(path), s.len(),
{
    if s.len() == 0 {
        Seq::empty()
    } else {
        flatten(v, s.drop_last(), path) + flatten_one(v, s.last(), path)
    }
}

/// One element, flattened.
pub open spec fn flatten_one(v: Seq<EView>, x: ElementRef, path: Seq<bool>) -> Seq<ElementRef>
    decreases unmarked(path), 0nat,
{
    let i = x.0 as int;
    if 0 <= i < path.len() && i < v.len() && !path[i] {
        match v[i] {
            EView::Sequence(s) => {
                proof {
                    lemma_mark(path, i);
                }
                flatten(v, s, path.update(i, true))
            },
            _ => seq![x],
        }
    } else {
        seq![x]
    }
}

/// Flattening reads only the sequences, so it gives the same on a store
/// that kept them.
pub proof fn lemma_flatten_stable(v1: Seq<EView>, v2: Seq<EView>, s: Seq<ElementRef>, path: Seq<bool>)
    requires
        shape_kept(v1, v2),
    ensures
        flatten(v1, s, path) == flatten(v2, s, path),
    decreases unmarked(path), s.len(),
{
    if s.len() > 0 {
        lemma_flatten_stable(v1, v2, s.drop_last(), path);
        lemma_flatten_one_stable(v1, v2, s.last(), path);
    }
}

/// Flattening one element gives the same on a store that kept the
/// sequences.
pub proof fn lemma_flatten_one_stable(v1: Seq<EView>, v2: Seq<EView>, x: ElementRef, path: Seq<bool>)
    requires
        shape_kept(v1, v2),
    ensures
        flatten_one(v1, x, path) == flatten_one(v2, x, path),
    decreases unmarked(path), 0nat,
{
    let i = x.0 as int;
    if 0 <= i < path.len() && i < v1.len() && !path[i] {
        assert(kept(v1[i], v2[i]));
        match v1[i] {
            EView::Sequence(s) => {
                lemma_mark(path, i);
                lemma_flatten_stable(v1, v2, s, path.update(i, true));
            },
            _ => {},
        }
    }
}

/// Flattening keeps references in range.
pub proof fn lemma_flatten_below(v: Seq<EView>, s: Seq<ElementRef>, path: Seq<bool>, n: nat)
    requires
        refs_below(s, n),
        v.len() == n,
        forall|i: int| 0 <= i < v.len() ==> super::scratchpad::view_below(#[trigger] v[i], n),
    ensures
        refs_below(flatten(v, s, path), n),
    decreases unmarked(path), s.len(),
{
    if s.len() > 0 {
        lemma_flatten_below(v, s.drop_last(), path, n);
        let x = s.last();
        let i = x.0 as int;
        if 0 <= i < path.len() && i < v.len() && !path[i] {
            match v[i] {
                EView::Sequence(t) => {
                    assert(super::scratchpad::view_below(v[i], n));
                    lemma_mark(path, i);
                    lemma_flatten_below(v, t, path.update(i, true), n);
                },
                _ => {},
            }
        }
        let a = flatten(v, s.drop_last(), path);
        let b = flatten_one(v, x, path);
        assert(flatten(v, s, path) == a + b);
        assert forall|j: int| 0 <= j < (a + b).len() implies (#[trigger] (a + b)[j]).0 < n by {
            if j < a.len() {
                assert((a + b)[j] == a[j]);
            } else {
                assert((a + b)[j] == b[j - a.len()]);
            }
        }
    }
}

/// Appends references.
pub fn extend_refs(out: &mut Vec<ElementRef>, more: &Vec<ElementRef>)
    ensures
        final(out)@ == old(out)@ + more@,
{
    let mut i: usize = 0;
    while i < more.len()
        invariant
            i <= more@.len(),
            out@ == old(out)@ + more@.subrange(0, i as int),
        decreases more@.len() - i,
    {
        out.push(more[i]);
        assert(more@.subrange(0, i + 1) == more@.subrange(0, i as int).push(more@[i as int]));
        i = i + 1;
    }
    assert(more@.subrange(0, more@.len() as int) == more@);
}

/// Appends a reference, keeping all of them below `n`.
pub fn push_ref(v: &mut Vec<ElementRef>, x: ElementRef, Ghost(n): Ghost<nat>)
    requires
        refs_below(old(v)@, n),
        x.0 < n,
    ensures
        final(v)@ == old(v)@.push(x),
        refs_below(final(v)@, n),
{
    v.push(x);
    assert forall|i: int| 0 <= i < v@.len() implies (#[trigger] v@[i]).0 < n by {
        if i < old(v)@.len() {
            assert(v@[i] == old(v)@[i]);
        }
    }
}

/// A fresh list of marks, none set.
pub fn new_marks(n: usize) -> (r: Vec<bool>)
    ensures
        r@ == no_marks(n as nat),
{
    let mut r: Vec<bool> = Vec::new();
    let mut i: usize = 0;
    while i < n
        invariant
            i <= n,
            r@ == no_marks(i as nat),
        decreases n - i,
    {
        r.push(false);
        assert(r@ =~= no_marks((i + 1) as nat));
        i = i + 1;
    }
    r
}

/// Flattens `seq`, and with it the effects of the callables it holds,
/// which are rewritten in place. Elements marked in `path` are being
/// flattened further up and are left as they are.
pub fn normalize_in(pad: &mut Scratchpad, seq: &Vec<ElementRef>, path: &mut Vec<bool>) -> (r: Vec<ElementRef>)
    requires
        old(pad).wf(),
        refs_below(seq@, old(pad).len()),
        old(path)@.len() == old(pad).len(),
    ensures
        final(pad).wf(),
        final(path)@ == old(path)@,
        final(pad).len() == old(pad).len(),
        shape_kept(old(pad).views(), final(pad).views()),
        final(pad).elements@ == old(pad).elements@,
        refs_below(r@, final(pad).len()),
        r@ == flatten(old(pad).views(), seq@, old(path)@),
    decreases unmarked(old(path)@),
{
    let ghost v0 = pad.views();
    let ghost p0 = path@;
    let mut out: Vec<ElementRef> = Vec::new();
    let mut k: usize = 0;
    assert(seq@.subrange(0, 0) =~= Seq::<ElementRef>::empty());
    while k < seq.len()
        invariant
            v0 == old(pad).views(),
            p0 == old(path)@,
            pad.wf(),
            path@ == p0,
            p0.len() == v0.len(),
            pad.len() == old(pad).len(),
            shape_kept(v0, pad.views()),
            pad.elements@ == old(pad).elements@,
            k <= seq@.len(),
            refs_below(seq@, pad.len()),
            refs_below(out@, pad.len()),
            out@ == flatten(v0, seq@.subrange(0, k as int), p0),
        decreases seq@.len() - k,
    {
        let x = seq[k];
        let ghost i = x.0 as int;
        assert(seq@.subrange(0, k + 1).drop_last() =~= seq@.subrange(0, k as int));
        assert(seq@.subrange(0, k + 1).last() == x);
        assert(kept(v0[i], pad.views()[i]));
        assert(flatten(v0, seq@.subrange(0, k + 1), p0)
            == flatten(v0, seq@.subrange(0, k as int), p0) + flatten_one(v0, x, p0));
        if path[x.0] {
            out.push(x);
        } else {
            let e = pad.get(x);
            match e {
                Element::Callable(name, se) => {
                    let nm = copy_chars(name.as_slice());
                    let ins = copy_refs(&se.inputs);
                    let outs = copy_refs(&se.outputs);
                    proof {
                        assert(super::scratchpad::view_below(pad.views()[i], pad.len()));
                        lemma_mark(path@, i);
                    }
                    path.set(x.0, true);
                    let ni = normalize_in(pad, &ins, path);
                    let no = normalize_in(pad, &outs, path);
                    path.set(x.0, false);
                    assert(path@ =~= p0);
                    let ghost before = pad.views();
                    pad.set(x, Element::Callable(nm, StackEffect { inputs: ni, outputs: no }));
                    proof {
                        assert forall|j: int| 0 <= j < v0.len() implies kept(#[trigger] v0[j], pad.views()[j]) by {
                            assert(kept(v0[j], before[j]));
                        }
                    }
                    proof {
                        assert(v0[i] is Callable);
                        assert(flatten_one(v0, x, p0) == seq![x]);
                    }
                    out.push(x);
                },
                Element::Sequence(s) => {
                    let s2 = copy_refs(s);
                    let ghost cur = pad.views();
                    proof {
                        assert(super::scratchpad::view_below(pad.views()[i], pad.len()));
                        lemma_mark(path@, i);
                    }
                    path.set(x.0, true);
                    let sub = normalize_in(pad, &s2, path);
                    path.set(x.0, false);
                    assert(path@ =~= p0);
                    proof {
                        lemma_flatten_stable(v0, cur, s2@, p0.update(i, true));
                        assert forall|j: int| 0 <= j < v0.len() implies kept(#[trigger] v0[j], pad.views()[j]) by {
                            assert(kept(v0[j], cur[j]));
                        }
                    }
                    proof {
                        let sv = v0[i];
                        match sv {
                            EView::Sequence(t) => {
                                assert(t == s2@);
                                assert(flatten_one(v0, x, p0) == flatten(v0, t, p0.update(i, true)));
                            },
                            _ => { assert(false); },
                        }
                    }
                    let ghost old_out = out@;
                    extend_refs(&mut out, &sub);
                    proof {
                        assert forall|j: int| 0 <= j < out@.len() implies (#[trigger] out@[j]).0 < pad.len() by {
                            if j < old_out.len() {
                                assert(out@[j] == old_out[j]);
                            } else {
                                assert(out@[j] == sub@[j - old_out.len()]);
                            }
                        }
                    }
                },
                _ => {
                    assert(!(v0[i] is Sequence));
                    assert(flatten_one(v0, x, p0) == seq![x]);
                    out.push(x);
                },
            }
        }
        k = k + 1;
    }
    assert(seq@.subrange(0, seq@.len() as int) =~= seq@);
    out
}


/// What `x` stands for through sequences of one element, stopping at an
/// element already passed (marked in `path`).
pub open spec fn follow(v: Seq<EView>, x: ElementRef, path: Seq<bool>) -> ElementRef
    decreases unmarked(path),
{
    let i = x.0 as int;
    if 0 <= i < path.len() && i < v.len() && !path[i] {
        match v[i] {
            EView::Sequence(s) => {
                if s.len() == 1 {
                    proof {
                        lemma_mark(path, i);
                    }
                    follow(v, s[0], path.update(i, true))
                } else {
                    x
                }
            },
            _ => x,
        }
    } else {
        x
    }
}

/// Flattens `seq` (see `normalize_in`), starting with nothing marked.
pub fn normalized_sequence(pad: &mut Scratchpad, seq: &Vec<ElementRef>) -> (r: Vec<ElementRef>)
    requires
        old(pad).wf(),
        refs_below(seq@, old(pad).len()),
    ensures
        final(pad).wf(),
        final(pad).len() == old(pad).len(),
        shape_kept(old(pad).views(), final(pad).views()),
        final(pad).elements@ == old(pad).elements@,
        refs_below(r@, final(pad).len()),
        r@ == flatten(old(pad).views(), seq@, no_marks(old(pad).len())),
{
    let mut marks = new_marks(pad.arena.len());
    normalize_in(pad, seq, &mut marks)
}

impl ElementRef {
    /// A new element in `pad`, not registered.
    pub fn new(pad: &mut Scratchpad, el: Element) -> (r: ElementRef)
        requires
            old(pad).wf(),
            view_below(el@, old(pad).len() + 1),
        ensures
            final(pad).wf(),
            r.0 == old(pad).len(),
            final(pad).views() == old(pad).views().push(el@),
            final(pad).elements@ == old(pad).elements@,
    {
        pad.add_element(el)
    }

    /// A new row without a name in `pad`, not registered.
    pub fn anonymous_ellipsis(pad: &mut Scratchpad) -> (r: ElementRef)
        requires
            old(pad).wf(),
        ensures
            final(pad).wf(),
            r.0 == old(pad).len(),
            final(pad).views() == old(pad).views().push(EView::Ellipsis(Seq::empty())),
            final(pad).elements@ == old(pad).elements@,
    {
        pad.add_element(Element::Ellipsis(no_chars()))
    }

    /// The element referred to.
    pub fn borrow<'a>(&self, pad: &'a Scratchpad) -> (r: &'a Element)
        requires
            self.0 < pad.len(),
        ensures
            r@ == pad.views()[self.0 as int],
    {
        pad.get(*self)
    }

    /// What the element stands for through sequences of one element.
    pub fn flattened(self, pad: &Scratchpad) -> (r: ElementRef)
        requires
            pad.wf(),
            self.0 < pad.len(),
        ensures
            r == follow(pad.views(), self, no_marks(pad.len())),
            r.0 < pad.len(),
    {
        let mut path = new_marks(pad.arena.len());
        let mut x = self;
        assert(follow(pad.views(), self, no_marks(pad.len())) == follow(pad.views(), x, path@));
        loop
            invariant
                pad.wf(),
                x.0 < pad.len(),
                path@.len() == pad.len(),
                follow(pad.views(), self, no_marks(pad.len())) == follow(pad.views(), x, path@),
            decreases unmarked(path@),
        {
            if path[x.0] {
                return x;
            }
            let e = pad.get(x);
            assert(view_below(pad.views()[x.0 as int], pad.len()));
            match e {
                Element::Sequence(s) => {
                    if s.len() == 1 {
                        proof {
                            lemma_mark(path@, x.0 as int);
                        }
                        path.set(x.0, true);
                        x = s[0];
                    } else {
                        return x;
                    }
                },
                _ => {
                    return x;
                },
            }
        }
    }

    /// Puts `new_content` in place of the element and returns what it held;
    /// a sequence holding just the element itself is not put in.
    pub fn substitute(&self, pad: &mut Scratchpad, new_content: Element) -> (r: Element)
        requires
            old(pad).wf(),
            self.0 < old(pad).len(),
            view_below(new_content@, old(pad).len()),
        ensures
            final(pad).wf(),
            final(pad).elements@ == old(pad).elements@,
            new_content@ == EView::Sequence(seq![*self]) ==> r@ == new_content@ && final(pad).views() == old(pad).views(),
            new_content@ != EView::Sequence(seq![*self]) ==> r@ == old(pad).views()[self.0 as int]
                && final(pad).views() == old(pad).views().update(self.0 as int, new_content@),
    {
        let holds_self = match &new_content {
            Element::Sequence(s) => s.len() == 1 && s[0].0 == self.0,
            _ => false,
        };
        if holds_self {
            proof {
                match new_content@ {
                    EView::Sequence(s) => {
                        assert(s =~= seq![*self]);
                    },
                    _ => {},
                }
            }
            return new_content;
        }
        proof {
            if new_content@ == EView::Sequence(seq![*self]) {
                match &new_content {
                    Element::Sequence(s) => {
                        assert(s@ == seq![*self]);
                        assert(s@.len() == 1 && s@[0] == *self);
                    },
                    _ => {},
                }
            }
        }
        let old_el = pad.get(*self).copy();
        pad.set(*self, new_content);
        old_el
    }

    /// A copy in `dst` of the element of `src`, with every element it
    /// reaches.
    pub fn recursive_deepcopy(&self, src: &Scratchpad, dst: &mut Scratchpad) -> (r: ElementRef)
        requires
            src.wf(),
            old(dst).wf(),
            self.0 < src.len(),
        ensures
            final(dst).wf(),
            final(dst).views().subrange(0, old(dst).len() as int) == old(dst).views(),
            old(dst).len() <= r.0 < final(dst).len(),
            final(dst).elements@ == old(dst).elements@,
    {
        let mut one: Vec<ElementRef> = Vec::new();
        one.push(*self);
        let mut none: Vec<ElementRef> = Vec::new();
        let se = StackEffect { inputs: one, outputs: none };
        assert(refs_below(se.inputs@, src.len()));
        assert(refs_below(se.outputs@, src.len()));
        let c = dst.deepcopy_effect(src, &se);
        assert(c.inputs@.len() == 1);
        c.inputs[0]
    }
}

impl Element {
    /// A sequence flattened (see `normalize_in`); other elements as they
    /// are.
    pub fn flattened(self, pad: &mut Scratchpad) -> (r: Element)
        requires
            old(pad).wf(),
            view_below(self@, old(pad).len()),
        ensures
            final(pad).wf(),
            final(pad).len() == old(pad).len(),
            final(pad).elements@ == old(pad).elements@,
            match self@ {
                EView::Sequence(s) => r@ == EView::Sequence(flatten(old(pad).views(), s, no_marks(old(pad).len()))),
                _ => r@ == self@ && final(pad).views() == old(pad).views(),
            },
    {
        match self {
            Element::Sequence(s) => Element::Sequence(normalized_sequence(pad, &s)),
            other => other,
        }
    }
}

} // verus!
