//! The abstract stack: effects are run on it one after the other, and
//! what it took and what it holds make the effect of the whole run.
use vstd::prelude::*;
use crate::errors::Error;
use super::element::{Element, ElementRef, EView, StackEffect, copy_refs, no_chars};
use super::scratchpad::{Scratchpad, refs_below, lower, upper};
use super::sequence::{normalize_in, new_marks, push_ref, flatten, no_marks, shape_kept, kept, lemma_flatten_stable};

verus! {

/// How many nested steps one unification may take.
pub const UNIFY_FUEL: u64 = 1000;

/// An abstract stack: the elements it took from below (`inputs`) and the
/// ones it holds (`outputs`), bottom first, in a scratchpad of its own.
#[derive(Debug, Clone)]
pub struct AbstractStack {
    pub scratchpad: Scratchpad,
    pub inputs: Vec<ElementRef>,
    pub outputs: Vec<ElementRef>,
}

impl AbstractStack {
    /// Every reference points into the scratchpad.
    pub open spec fn wf(self) -> bool {
        &&& self.scratchpad.wf()
        &&& refs_below(self.inputs@, self.scratchpad.len())
        &&& refs_below(self.outputs@, self.scratchpad.len())
    }

    /// The stack that took nothing: a single anonymous row, both taken and
    /// held.
    pub fn new() -> (r: AbstractStack)
        ensures
            r.wf(),
            r.scratchpad.views() == seq![EView::Ellipsis(Seq::empty())],
            r.scratchpad.elements@ == seq![ElementRef(0)],
            r.inputs@ == seq![ElementRef(0)],
            r.outputs@ == seq![ElementRef(0)],
    {
        let mut scratchpad = Scratchpad::new();
        let r = scratchpad.insert(Element::Ellipsis(no_chars()));
        let mut inputs: Vec<ElementRef> = Vec::new();
        push_ref(&mut inputs, r, Ghost(scratchpad.len()));
        let mut outputs: Vec<ElementRef> = Vec::new();
        push_ref(&mut outputs, r, Ghost(scratchpad.len()));
        assert(scratchpad.views() =~= seq![EView::Ellipsis(Seq::empty())]);
        AbstractStack { scratchpad, inputs, outputs }
    }

    /// Puts an element on top.
    pub fn push(&mut self, elem: ElementRef)
        requires
            old(self).wf(),
            elem.0 < old(self).scratchpad.len(),
        ensures
            final(self).wf(),
            final(self).scratchpad == old(self).scratchpad,
            final(self).inputs@ == old(self).inputs@,
            final(self).outputs@ == old(self).outputs@.push(elem),
    {
        push_ref(&mut self.outputs, elem, Ghost(self.scratchpad.len()));
    }

    /// Takes the element `elem` of an effect's inputs off the stack. A row
    /// takes everything held; a row on top stays there and `elem` is taken
    /// from below it, becoming the second thing the stack took; otherwise
    /// the top is unified with `elem`.
    pub fn pop(&mut self, elem: ElementRef) -> (r: Result<ElementRef, Error>)
        requires
            old(self).wf(),
            elem.0 < old(self).scratchpad.len(),
        ensures
            final(self).wf(),
            final(self).scratchpad.len() == old(self).scratchpad.len(),
            old(self).scratchpad.views()[elem.0 as int] is Ellipsis ==> {
                &&& r == Ok::<ElementRef, Error>(elem)
                &&& final(self).outputs@ == Seq::<ElementRef>::empty()
                &&& final(self).inputs@ == old(self).inputs@
                &&& (old(self).outputs@ != seq![elem] ==>
                    final(self).scratchpad.views() == old(self).scratchpad.views().update(elem.0 as int, EView::Sequence(old(self).outputs@)))
            },
            !(old(self).scratchpad.views()[elem.0 as int] is Ellipsis) && old(self).outputs@.len() == 0 ==>
                r == Err::<ElementRef, Error>(Error::StackUnderflow),
            !(old(self).scratchpad.views()[elem.0 as int] is Ellipsis) && old(self).outputs@.len() > 0
                && old(self).scratchpad.views()[old(self).outputs@.last().0 as int] is Ellipsis ==> {
                &&& (old(self).inputs@.len() > 0 ==> r == Ok::<ElementRef, Error>(elem)
                    && final(self).inputs@ == old(self).inputs@.insert(1, elem)
                    && final(self).outputs@ == old(self).outputs@
                    && final(self).scratchpad == old(self).scratchpad)
                &&& (old(self).inputs@.len() == 0 ==> r == Err::<ElementRef, Error>(Error::StackUnderflow))
            },
            !(old(self).scratchpad.views()[elem.0 as int] is Ellipsis) && old(self).outputs@.len() > 0
                && !(old(self).scratchpad.views()[old(self).outputs@.last().0 as int] is Ellipsis) ==> {
                let x = old(self).outputs@.last();
                &&& final(self).outputs@ == old(self).outputs@.drop_last()
                &&& final(self).inputs@ == old(self).inputs@
                &&& (r is Ok ==> r == Ok::<ElementRef, Error>(lower(old(self).scratchpad.views(), x, elem))
                    && final(self).scratchpad.views()[lower(old(self).scratchpad.views(), x, elem).0 as int]
                        == EView::Sequence(seq![upper(old(self).scratchpad.views(), x, elem)]))
            },
    {
        if self.scratchpad.get(elem).is_ellipsis() {
            let taken = copy_refs(&self.outputs);
            self.outputs = Vec::new();
            if !(taken.len() == 1 && taken[0].0 == elem.0) {
                self.scratchpad.set(elem, Element::Sequence(taken));
            } else {
                assert(old(self).outputs@ =~= seq![elem]);
            }
            return Ok(elem);
        }
        match self.outputs.pop() {
            None => Err(Error::StackUnderflow),
            Some(x) => {
                assert(x == old(self).outputs@.last());
                if self.scratchpad.get(x).is_ellipsis() {
                    if self.inputs.len() == 0 {
                        return Err(Error::StackUnderflow);
                    }
                    self.outputs.push(x);
                    assert(self.outputs@ =~= old(self).outputs@);
                    let ghost i0 = self.inputs@;
                    self.inputs.insert(1, elem);
                    proof {
                        assert forall|i: int| 0 <= i < self.inputs@.len() implies (#[trigger] self.inputs@[i]).0 < self.scratchpad.len() by {
                            if i < 1 {
                                assert(self.inputs@[i] == i0[i]);
                            } else if i > 1 {
                                assert(self.inputs@[i] == i0[i - 1]);
                            }
                        }
                    }
                    Ok(elem)
                } else {
                    proof {
                        assert forall|i: int| 0 <= i < self.outputs@.len() implies (#[trigger] self.outputs@[i]).0 < self.scratchpad.len() by {
                            assert(self.outputs@[i] == old(self).outputs@[i]);
                        }
                    }
                    self.scratchpad.substitute(x, elem, UNIFY_FUEL)
                }
            },
        }
    }

    /// Runs the effect `se` of `src` on the stack: a copy of it is made in
    /// the stack's scratchpad, its inputs are taken off the top (the last
    /// first) and its outputs put on. Rows that the stack took and holds in
    /// the same place, other than the bottom one, are then dropped.
    pub fn apply_effect(&mut self, se: &StackEffect, src: &Scratchpad) -> (r: Result<(), Error>)
        requires
            old(self).wf(),
            src.wf(),
            refs_below(se.inputs@, src.len()),
            refs_below(se.outputs@, src.len()),
        ensures
            final(self).wf(),
            se.inputs@.len() == 0 ==> r is Ok,
    {
        let copied = self.scratchpad.copy_effect(src, se);
        let mut k = copied.inputs.len();
        while k > 0
            invariant
                se.inputs@.len() == 0 ==> k == 0,
                self.wf(),
                k <= copied.inputs@.len(),
                refs_below(copied.inputs@, self.scratchpad.len()),
                refs_below(copied.outputs@, self.scratchpad.len()),
            decreases k,
        {
            k = k - 1;
            match self.pop(copied.inputs[k]) {
                Ok(_) => {},
                Err(e) => {
                    return Err(e);
                },
            }
        }
        let mut k: usize = 0;
        while k < copied.outputs.len()
            invariant
                self.wf(),
                k <= copied.outputs@.len(),
                refs_below(copied.outputs@, self.scratchpad.len()),
            decreases copied.outputs@.len() - k,
        {
            self.push(copied.outputs[k]);
            k = k + 1;
        }
        self.normalize_sides();
        // drop rows that pass through untouched, but for the bottom one
        let mut ins: Vec<ElementRef> = Vec::new();
        let mut outs: Vec<ElementRef> = Vec::new();
        let mut k: usize = 0;
        let mut matching = true;
        let ghost n = self.scratchpad.len();
        while k < self.inputs.len() && k < self.outputs.len()
            invariant
                self.wf(),
                k <= self.inputs@.len(),
                k <= self.outputs@.len(),
                refs_below(ins@, self.scratchpad.len()),
                refs_below(outs@, self.scratchpad.len()),
            decreases self.inputs@.len() - k,
        {
            let i = self.inputs[k];
            let o = self.outputs[k];
            if i.0 != o.0 {
                matching = false;
            }
            if matching && k > 0 && self.scratchpad.get(i).is_ellipsis() {
                let a = self.scratchpad.add_element(Element::Sequence(Vec::new()));
                let b = self.scratchpad.add_element(Element::Sequence(Vec::new()));
                push_ref(&mut ins, a, Ghost(self.scratchpad.len()));
                push_ref(&mut outs, b, Ghost(self.scratchpad.len()));
            } else {
                push_ref(&mut ins, i, Ghost(self.scratchpad.len()));
                push_ref(&mut outs, o, Ghost(self.scratchpad.len()));
            }
            k = k + 1;
        }
        let mut j = k;
        while j < self.inputs.len()
            invariant
                self.wf(),
                j <= self.inputs@.len(),
                refs_below(ins@, self.scratchpad.len()),
            decreases self.inputs@.len() - j,
        {
            push_ref(&mut ins, self.inputs[j], Ghost(self.scratchpad.len()));
            j = j + 1;
        }
        let mut j = k;
        while j < self.outputs.len()
            invariant
                self.wf(),
                j <= self.outputs@.len(),
                refs_below(outs@, self.scratchpad.len()),
            decreases self.outputs@.len() - j,
        {
            push_ref(&mut outs, self.outputs[j], Ghost(self.scratchpad.len()));
            j = j + 1;
        }
        self.inputs = ins;
        self.outputs = outs;
        self.normalize_sides();
        Ok(())
    }

    /// Flattens both sides.
    fn normalize_sides(&mut self)
        requires
            old(self).wf(),
        ensures
            final(self).wf(),
            final(self).scratchpad.len() == old(self).scratchpad.len(),
            shape_kept(old(self).scratchpad.views(), final(self).scratchpad.views()),
            final(self).inputs@ == flatten(old(self).scratchpad.views(), old(self).inputs@, no_marks(old(self).scratchpad.len())),
            final(self).outputs@ == flatten(old(self).scratchpad.views(), old(self).outputs@, no_marks(old(self).scratchpad.len())),
    {
        let ghost v0 = self.scratchpad.views();
        let mut marks = new_marks(self.scratchpad.arena.len());
        let ins = normalize_in(&mut self.scratchpad, &self.inputs, &mut marks);
        let ghost v1 = self.scratchpad.views();
        let mut marks = new_marks(self.scratchpad.arena.len());
        let outs = normalize_in(&mut self.scratchpad, &self.outputs, &mut marks);
        proof {
            lemma_flatten_stable(v0, v1, old(self).outputs@, no_marks(old(self).scratchpad.len()));
            let v2 = self.scratchpad.views();
            assert forall|i: int| 0 <= i < v0.len() implies #[trigger] kept(v0[i], v2[i]) by {
                assert(kept(v0[i], v1[i]));
                assert(kept(v1[i], v2[i]));
            }
        }
        self.inputs = ins;
        self.outputs = outs;
    }

    /// The effect of everything run on the stack: what it took and what it
    /// holds, flattened, with the scratchpad they live in.
    pub fn into_effect(self) -> (r: (Scratchpad, StackEffect))
        requires
            self.wf(),
        ensures
            r.0.wf(),
            refs_below(r.1.inputs@, r.0.len()),
            refs_below(r.1.outputs@, r.0.len()),
            r.0.len() == self.scratchpad.len(),
            r.0.elements@ == self.scratchpad.elements@,
            shape_kept(self.scratchpad.views(), r.0.views()),
            r.1.inputs@ == flatten(self.scratchpad.views(), self.inputs@, no_marks(self.scratchpad.len())),
            r.1.outputs@ == flatten(self.scratchpad.views(), self.outputs@, no_marks(self.scratchpad.len())),
    {
        let mut pad = self.scratchpad;
        let se = StackEffect { inputs: self.inputs, outputs: self.outputs };
        let r = se.normalized(&mut pad);
        (pad, r)
    }
}

} // verus!
