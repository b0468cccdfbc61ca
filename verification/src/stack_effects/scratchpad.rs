//! The scratchpad: the store that the elements of effects live in, with a
//! registry of the elements that names are looked up in.
use vstd::prelude::*;
use crate::errors::Error;
use crate::text::{chars_eq, copy_chars};
use super::element::{Element, ElementRef, EView, StackEffect, spec_name, spec_less_specific, copy_refs};
use super::sequence::{normalize_in, new_marks, flatten, no_marks, shape_kept, kept, lemma_flatten_stable};

verus! {

/// Every reference in `s` points below `n`.
pub open spec fn refs_below(s: Seq<ElementRef>, n: nat) -> bool {
    forall|i: int| 0 <= i < s.len() ==> (#[trigger] s[i]).0 < n
}

/// Every reference held by an element points below `n`.
pub open spec fn view_below(e: EView, n: nat) -> bool {
    match e {
        EView::Callable(_, i, o) => refs_below(i, n) && refs_below(o, n),
        EView::Sequence(s) => refs_below(s, n),
        _ => true,
    }
}

/// What becomes of an element `a` when `b` is merged into it: the more
/// specific of the two, or nothing when they cannot be merged.
pub open spec fn merged(a: EView, b: EView) -> Option<EView> {
    match (a, b) {
        (_, EView::Ellipsis(_)) => Some(a),
        (EView::Ellipsis(_), _) => Some(b),
        (_, EView::Item(_)) => Some(a),
        (EView::Item(_), _) => Some(b),
        _ => None,
    }
}

/// The store of elements. `arena` holds them, indexed by `ElementRef`;
/// `elements` lists, in order of registration, those that names are looked
/// up in.
#[derive(Debug, Clone)]
pub struct Scratchpad {
    pub arena: Vec<Element>,
    pub elements: Vec<ElementRef>,
}

/// Whether the `k`-th registered element is the first one named `name`.
pub open spec fn is_first_named(v: Seq<EView>, regs: Seq<ElementRef>, name: Option<Seq<char>>, k: int) -> bool {
    &&& 0 <= k < regs.len()
    &&& spec_name(v[regs[k].0 as int]) == name
    &&& forall|j: int| 0 <= j < k ==> spec_name(v[(#[trigger] regs[j]).0 as int]) != name
}

/// Whether no registered element is named `name`.
pub open spec fn none_named(v: Seq<EView>, regs: Seq<ElementRef>, name: Option<Seq<char>>) -> bool {
    forall|j: int| 0 <= j < regs.len() ==> spec_name(v[(#[trigger] regs[j]).0 as int]) != name
}

impl Scratchpad {
    /// The elements, as views.
    pub open spec fn views(self) -> Seq<EView> {
        self.arena@.map_values(|e: Element| e@)
    }

    /// The number of elements.
    pub open spec fn len(self) -> nat {
        self.arena@.len()
    }

    /// Every reference in the scratchpad points to one of its elements.
    pub open spec fn wf(self) -> bool {
        &&& forall|i: int| 0 <= i < self.views().len() ==> view_below(#[trigger] self.views()[i], self.len())
        &&& refs_below(self.elements@, self.len())
    }

    /// An empty scratchpad.
    pub fn new() -> (r: Scratchpad)
        ensures
            r.wf(),
            r.views() == Seq::<EView>::empty(),
            r.elements@ == Seq::<ElementRef>::empty(),
    {
        let r = Scratchpad { arena: Vec::new(), elements: Vec::new() };
        assert(r.views() =~= Seq::<EView>::empty());
        r
    }

    /// The element that `r` refers to.
    pub fn get(&self, r: ElementRef) -> (e: &Element)
        requires
            r.0 < self.len(),
        ensures
            e@ == self.views()[r.0 as int],
    {
        &self.arena[r.0]
    }

    /// Adds an element without registering it.
    pub fn add_element(&mut self, e: Element) -> (r: ElementRef)
        requires
            old(self).wf(),
            view_below(e@, old(self).len() + 1),
        ensures
            final(self).wf(),
            r.0 == old(self).len(),
            final(self).views() == old(self).views().push(e@),
            final(self).elements@ == old(self).elements@,
            final(self).len() == old(self).len() + 1,
    {
        let ghost e_view = e@;
        let n = self.arena.len();
        self.arena.push(e);
        assert(self.views() =~= old(self).views().push(e_view));
        proof {
            let v = self.views();
            assert forall|i: int| 0 <= i < v.len() implies view_below(#[trigger] v[i], self.len()) by {
                if i < n as int {
                    assert(view_below(old(self).views()[i], old(self).len()));
                }
            }
        }
        ElementRef(n)
    }

    /// Replaces the element that `r` refers to.
    pub fn set(&mut self, r: ElementRef, e: Element)
        requires
            old(self).wf(),
            r.0 < old(self).len(),
            view_below(e@, old(self).len()),
        ensures
            final(self).wf(),
            final(self).views() == old(self).views().update(r.0 as int, e@),
            final(self).elements@ == old(self).elements@,
            final(self).len() == old(self).len(),
    {
        let ghost e_view = e@;
        self.arena.set(r.0, e);
        assert(self.views() =~= old(self).views().update(r.0 as int, e_view));
        proof {
            let v = self.views();
            assert forall|i: int| 0 <= i < v.len() implies view_below(#[trigger] v[i], self.len()) by {
                if i != r.0 as int {
                    assert(view_below(old(self).views()[i], old(self).len()));
                }
            }
        }
    }

    /// Adds an element and registers it.
    pub fn insert(&mut self, new_node: Element) -> (r: ElementRef)
        requires
            old(self).wf(),
            view_below(new_node@, old(self).len() + 1),
        ensures
            final(self).wf(),
            r.0 == old(self).len(),
            final(self).len() == old(self).len() + 1,
            final(self).views() == old(self).views().push(new_node@),
            final(self).elements@ == old(self).elements@.push(r),
    {
        let r = self.add_element(new_node);
        self.elements.push(r);
        proof {
            assert(self.views().len() == self.len());
            assert(old(self).views().len() == old(self).len());
            assert forall|i: int| 0 <= i < self.elements@.len() implies (#[trigger] self.elements@[i]).0 < self.len() by {
                if i < old(self).elements@.len() {
                    assert(old(self).elements@[i] == self.elements@[i]);
                }
            }
        }
        r
    }

    /// Registers an element that is already in the scratchpad.
    pub fn insert_existing(&mut self, node: ElementRef)
        requires
            old(self).wf(),
            node.0 < old(self).len(),
        ensures
            final(self).wf(),
            final(self).views() == old(self).views(),
            final(self).elements@ == old(self).elements@.push(node),
    {
        self.elements.push(node);
        proof {
            assert(self.views() == old(self).views());
            assert(self.len() == old(self).len());
            assert forall|i: int| 0 <= i < self.elements@.len() implies (#[trigger] self.elements@[i]).0 < self.len() by {
                if i < old(self).elements@.len() {
                    assert(old(self).elements@[i] == self.elements@[i]);
                }
            }
        }
    }

    /// The position among the registered elements of the first one whose
    /// name is `name`.
    fn position_named(&self, name: Option<&Vec<char>>) -> (r: Option<usize>)
        requires
            self.wf(),
        ensures
            match r {
                Some(k) => is_first_named(self.views(), self.elements@, match name { Some(n) => Some(n@), None => None }, k as int),
                None => none_named(self.views(), self.elements@, match name { Some(n) => Some(n@), None => None }),
            },
    {
        let ghost want: Option<Seq<char>> = match name { Some(n) => Some(n@), None => None };
        let mut k: usize = 0;
        while k < self.elements.len()
            invariant
                self.wf(),
                k <= self.elements@.len(),
                want == (match name { Some(n) => Some(n@), None => None::<Seq<char>> }),
                forall|j: int| 0 <= j < k ==> spec_name(self.views()[(#[trigger] self.elements@[j]).0 as int]) != want,
            decreases self.elements@.len() - k,
        {
            let x = self.elements[k];
            let e = self.get(x);
            let same = match (e.name(), name) {
                (Some(a), Some(b)) => chars_eq(a.as_slice(), b.as_slice()),
                (None, None) => true,
                _ => false,
            };
            if same {
                return Some(k);
            }
            k = k + 1;
        }
        None
    }

    /// Merges a named element into the first registered element of the
    /// same name, which keeps the more specific of the two, or registers it
    /// as a new element when there is none. Two callables of one name, two
    /// sequences, or a callable and a sequence cannot be merged.
    pub fn update(&mut self, new_node: Element) -> (r: Result<ElementRef, Error>)
        requires
            old(self).wf(),
            view_below(new_node@, old(self).len()),
        ensures
            final(self).wf(),
            old(self).len() <= final(self).len(),
            r is Ok ==> r->Ok_0.0 < final(self).len(),
            r is Err ==> r == Err::<ElementRef, Error>(Error::IncompatibleStackEffects),
            none_named(old(self).views(), old(self).elements@, spec_name(new_node@)) ==> {
                &&& r == Ok::<ElementRef, Error>(ElementRef(old(self).len() as usize))
                &&& final(self).views() == old(self).views().push(new_node@)
                &&& final(self).elements@ == old(self).elements@.push(ElementRef(old(self).len() as usize))
            },
            forall|k: int| is_first_named(old(self).views(), old(self).elements@, spec_name(new_node@), k) ==> {
                let x = old(self).elements@[k];
                &&& final(self).elements@ == old(self).elements@
                &&& match merged(old(self).views()[x.0 as int], new_node@) {
                    Some(m) => r == Ok::<ElementRef, Error>(x) && final(self).views() == old(self).views().update(x.0 as int, m),
                    None => r == Err::<ElementRef, Error>(Error::IncompatibleStackEffects) && final(self).views() == old(self).views(),
                }
            },
    {
        let pos = self.position_named(new_node.name());
        match pos {
            None => Ok(self.insert(new_node)),
            Some(k) => {
                let x = self.elements[k];
                proof {
                    let v = old(self).views();
                    let regs = old(self).elements@;
                    assert forall|k2: int| is_first_named(v, regs, spec_name(new_node@), k2) implies k2 == k as int by {
                        if k2 < k as int {
                            assert(spec_name(v[regs[k2].0 as int]) != spec_name(new_node@));
                        } else if k2 > k as int {
                            assert(spec_name(v[regs[k as int].0 as int]) != spec_name(new_node@));
                        }
                    }
                }
                let mut e = self.get(x).copy();
                let same_kind = match (&e, &new_node) {
                    (Element::Callable(_, _), Element::Callable(_, _)) => true,
                    (Element::Sequence(_), Element::Sequence(_)) => true,
                    _ => false,
                };
                if same_kind {
                    return Err(Error::IncompatibleStackEffects);
                }
                let res = e.replace_if_more_specific(new_node);
                match res {
                    Ok(_) => {
                        self.set(x, e);
                        Ok(x)
                    },
                    Err(err) => Err(err),
                }
            },
        }
    }

    /// The first registered element named `name`.
    pub fn find_by_name(&self, name: &[char]) -> (r: Option<ElementRef>)
        requires
            self.wf(),
        ensures
            match r {
                Some(x) => exists|k: int| is_first_named(self.views(), self.elements@, Some(name@), k) && self.elements@[k] == x,
                None => none_named(self.views(), self.elements@, Some(name@)),
            },
    {
        let mut k: usize = 0;
        while k < self.elements.len()
            invariant
                self.wf(),
                k <= self.elements@.len(),
                forall|j: int| 0 <= j < k ==> spec_name(self.views()[(#[trigger] self.elements@[j]).0 as int]) != Some(name@),
            decreases self.elements@.len() - k,
        {
            let x = self.elements[k];
            let e = self.get(x);
            match e.name() {
                Some(a) => {
                    if chars_eq(a.as_slice(), name) {
                        assert(is_first_named(self.views(), self.elements@, Some(name@), k as int));
                        return Some(x);
                    }
                },
                None => {},
            }
            k = k + 1;
        }
        None
    }
}


/// How many elements are not yet copied.
pub open spec fn count_none(m: Seq<Option<usize>>) -> nat
    decreases m.len(),
{
    if m.len() == 0 {
        0
    } else {
        count_none(m.drop_last()) + if m.last() is Some { 0nat } else { 1nat }
    }
}

/// `m2` keeps every entry of `m1`.
pub open spec fn extends(m1: Seq<Option<usize>>, m2: Seq<Option<usize>>) -> bool {
    &&& m1.len() == m2.len()
    &&& forall|i: int| 0 <= i < m1.len() && (#[trigger] m1[i]) is Some ==> m2[i] == m1[i]
}

/// Filling an empty entry leaves one fewer empty.
pub proof fn lemma_fill(m: Seq<Option<usize>>, i: int, v: usize)
    requires
        0 <= i < m.len(),
        m[i] is None,
    ensures
        count_none(m.update(i, Some(v))) + 1 == count_none(m),
    decreases m.len(),
{
    if i == m.len() - 1 {
        assert(m.update(i, Some(v)).drop_last() =~= m.drop_last());
    } else {
        lemma_fill(m.drop_last(), i, v);
        assert(m.update(i, Some(v)).drop_last() =~= m.drop_last().update(i, Some(v)));
    }
}

/// Extending never adds empty entries.
pub proof fn lemma_extends_count(m1: Seq<Option<usize>>, m2: Seq<Option<usize>>)
    requires
        extends(m1, m2),
    ensures
        count_none(m2) <= count_none(m1),
    decreases m1.len(),
{
    if m1.len() > 0 {
        let a = m1.drop_last();
        let b = m2.drop_last();
        assert forall|i: int| 0 <= i < a.len() && (#[trigger] a[i]) is Some implies b[i] == a[i] by {
            assert(m1[i] is Some);
        }
        lemma_extends_count(a, b);
        if m1.last() is Some {
            assert(m1[m1.len() - 1] is Some);
        }
    }
}

/// What a copy keeps: entries of `m` point into `dst` at or above `n0`,
/// and `dst` below `n0` is as it was.
pub open spec fn copy_ok(m: Seq<Option<usize>>, dst: Scratchpad, n0: nat, before: Seq<EView>) -> bool {
    &&& dst.wf()
    &&& n0 <= dst.len()
    &&& before.len() == n0
    &&& dst.views().subrange(0, n0 as int) == before
    &&& forall|i: int| 0 <= i < m.len() && (#[trigger] m[i]) is Some ==> n0 <= m[i]->Some_0 < dst.len()
}

impl Scratchpad {
    /// Copies the element `x` of `src` into this scratchpad, and with it
    /// every element it refers to; `map` records the copy of each element of
    /// `src` copied so far, so that shared and recursive elements are copied
    /// once.
    fn copy_element(&mut self, src: &Scratchpad, x: ElementRef, map: &mut Vec<Option<usize>>,
        Ghost(n0): Ghost<nat>, Ghost(before): Ghost<Seq<EView>>) -> (r: ElementRef)
        requires
            src.wf(),
            x.0 < src.len(),
            old(map)@.len() == src.len(),
            copy_ok(old(map)@, *old(self), n0, before),
        ensures
            copy_ok(final(map)@, *final(self), n0, before),
            extends(old(map)@, final(map)@),
            final(map)@[x.0 as int] == Some(r.0),
            r.0 < final(self).len(),
            old(self).len() <= final(self).len(),
            final(self).elements@ == old(self).elements@,
        decreases count_none(old(map)@), 0nat,
    {
        match map[x.0] {
            Some(j) => {
                return ElementRef(j);
            },
            None => {},
        }
        let ghost m0 = map@;
        let y = self.add_element(Element::Sequence(Vec::new()));
        proof {
            lemma_fill(map@, x.0 as int, y.0);
            assert(self.views().subrange(0, n0 as int) =~= old(self).views().subrange(0, n0 as int));
        }
        map.set(x.0, Some(y.0));
        proof {
            assert forall|i: int| 0 <= i < map@.len() && (#[trigger] m0[i]) is Some implies map@[i] == m0[i] by {}
        }
        let e = src.get(x);
        assert(view_below(src.views()[x.0 as int], src.len()));
        let new_el = match e {
            Element::Ellipsis(n) => Element::Ellipsis(copy_chars(n.as_slice())),
            Element::Item(n) => Element::Item(copy_chars(n.as_slice())),
            Element::Callable(n, se) => {
                assert(map@[x.0 as int] == Some(y.0));
                let ghost m1 = map@;
                let ins = self.copy_refs_from(src, &se.inputs, map, Ghost(n0), Ghost(before));
                let ghost m2 = map@;
                proof {
                    lemma_extends_count(m1, m2);
                }
                let outs = self.copy_refs_from(src, &se.outputs, map, Ghost(n0), Ghost(before));
                proof {
                    assert forall|i: int| 0 <= i < ins@.len() implies (#[trigger] ins@[i]).0 < self.len() by {}
                    assert forall|i: int| 0 <= i < m1.len() && (#[trigger] m1[i]) is Some implies map@[i] == m1[i] by {
                        assert(m2[i] == m1[i]);
                    }
                    assert(m1[x.0 as int] is Some);
                }
                Element::Callable(copy_chars(n.as_slice()), StackEffect { inputs: ins, outputs: outs })
            },
            Element::Sequence(s) => {
                let ghost m1 = map@;
                let items = self.copy_refs_from(src, s, map, Ghost(n0), Ghost(before));
                assert(m1[x.0 as int] is Some);
                Element::Sequence(items)
            },
        };
        proof {
            assert(map@[x.0 as int] == Some(y.0));
        }
        let ghost pre_set = self.views();
        self.set(y, new_el);
        proof {
            assert(self.views().subrange(0, n0 as int) =~= pre_set.subrange(0, n0 as int));
            assert forall|i: int| 0 <= i < m0.len() && (#[trigger] m0[i]) is Some implies map@[i] == m0[i] by {
                assert(i != x.0 as int);
            }
        }
        y
    }

    /// Copies the elements of `src` that `s` refers to (see
    /// `copy_element`) and returns the references to the copies.
    fn copy_refs_from(&mut self, src: &Scratchpad, s: &Vec<ElementRef>, map: &mut Vec<Option<usize>>,
        Ghost(n0): Ghost<nat>, Ghost(before): Ghost<Seq<EView>>) -> (r: Vec<ElementRef>)
        requires
            src.wf(),
            refs_below(s@, src.len()),
            old(map)@.len() == src.len(),
            copy_ok(old(map)@, *old(self), n0, before),
        ensures
            copy_ok(final(map)@, *final(self), n0, before),
            extends(old(map)@, final(map)@),
            refs_below(r@, final(self).len()),
            r@.len() == s@.len(),
            forall|i: int| 0 <= i < s@.len() ==> final(map)@[(#[trigger] s@[i]).0 as int] == Some(r@[i].0),
            old(self).len() <= final(self).len(),
            final(self).elements@ == old(self).elements@,
        decreases count_none(old(map)@), 1nat,
    {
        let mut out: Vec<ElementRef> = Vec::new();
        let mut k: usize = 0;
        while k < s.len()
            invariant
                src.wf(),
                refs_below(s@, src.len()),
                map@.len() == src.len(),
                copy_ok(map@, *self, n0, before),
                extends(old(map)@, map@),
                count_none(map@) <= count_none(old(map)@),
                k <= s@.len(),
                out@.len() == k,
                refs_below(out@, self.len()),
                forall|i: int| 0 <= i < k ==> map@[(#[trigger] s@[i]).0 as int] == Some(out@[i].0),
                old(self).len() <= self.len(),
                self.elements@ == old(self).elements@,
            decreases s@.len() - k,
        {
            let ghost m_before = map@;
            let ghost len_before = self.len();
            let c = self.copy_element(src, s[k], map, Ghost(n0), Ghost(before));
            proof {
                lemma_extends_count(m_before, map@);
                assert forall|i: int| 0 <= i < old(map)@.len() && (#[trigger] old(map)@[i]) is Some implies map@[i] == old(map)@[i] by {
                    assert(m_before[i] == old(map)@[i]);
                }
                assert forall|i: int| 0 <= i < k implies map@[(#[trigger] s@[i]).0 as int] == Some(out@[i].0) by {
                    assert(m_before[s@[i].0 as int] is Some);
                }
            }
            let ghost out_before = out@;
            out.push(c);
            proof {
                assert forall|i: int| 0 <= i < out@.len() implies (#[trigger] out@[i]).0 < self.len() by {
                    if i < k {
                        assert(out@[i] == out_before[i]);
                    }
                }
                assert forall|i: int| 0 <= i < k + 1 implies map@[(#[trigger] s@[i]).0 as int] == Some(out@[i].0) by {
                    if i < k {
                        assert(out@[i] == out_before[i]);
                    }
                }
            }
            k = k + 1;
        }
        out
    }

    /// Copies an effect of `src`, with every element it reaches, into this
    /// scratchpad; shared elements stay shared and recursive ones recursive.
    pub fn deepcopy_effect(&mut self, src: &Scratchpad, se: &StackEffect) -> (r: StackEffect)
        requires
            old(self).wf(),
            src.wf(),
            refs_below(se.inputs@, src.len()),
            refs_below(se.outputs@, src.len()),
        ensures
            final(self).wf(),
            final(self).views().subrange(0, old(self).len() as int) == old(self).views(),
            old(self).len() <= final(self).len(),
            final(self).elements@ == old(self).elements@,
            refs_below(r.inputs@, final(self).len()),
            refs_below(r.outputs@, final(self).len()),
            r.inputs@.len() == se.inputs@.len(),
            r.outputs@.len() == se.outputs@.len(),
            forall|i: int| 0 <= i < r.inputs@.len() ==> old(self).len() <= (#[trigger] r.inputs@[i]).0,
            forall|i: int| 0 <= i < r.outputs@.len() ==> old(self).len() <= (#[trigger] r.outputs@[i]).0,
    {
        let ghost n0 = self.len();
        let ghost before = self.views();
        let mut map: Vec<Option<usize>> = Vec::new();
        let mut i: usize = 0;
        while i < src.arena.len()
            invariant
                i <= src.len(),
                map@.len() == i,
                forall|j: int| 0 <= j < i ==> (#[trigger] map@[j]) is None,
            decreases src.len() - i,
        {
            map.push(None);
            i = i + 1;
        }
        assert(self.views().subrange(0, n0 as int) =~= before);
        let inputs = self.copy_refs_from(src, &se.inputs, &mut map, Ghost(n0), Ghost(before));
        let ghost m1 = map@;
        proof {
            assert forall|i: int| 0 <= i < inputs@.len() implies n0 <= (#[trigger] inputs@[i]).0 by {
                assert(m1[se.inputs@[i].0 as int] is Some);
            }
        }
        let outputs = self.copy_refs_from(src, &se.outputs, &mut map, Ghost(n0), Ghost(before));
        proof {
            assert forall|i: int| 0 <= i < outputs@.len() implies n0 <= (#[trigger] outputs@[i]).0 by {
                assert(map@[se.outputs@[i].0 as int] is Some);
            }
        }
        StackEffect { inputs, outputs }
    }

    /// Copies an effect of `src` as `deepcopy_effect` does, and registers
    /// the copies.
    pub fn copy_effect(&mut self, src: &Scratchpad, se: &StackEffect) -> (r: StackEffect)
        requires
            old(self).wf(),
            src.wf(),
            refs_below(se.inputs@, src.len()),
            refs_below(se.outputs@, src.len()),
        ensures
            final(self).wf(),
            final(self).views().subrange(0, old(self).len() as int) == old(self).views(),
            old(self).len() <= final(self).len(),
            refs_below(r.inputs@, final(self).len()),
            refs_below(r.outputs@, final(self).len()),
            r.inputs@.len() == se.inputs@.len(),
            r.outputs@.len() == se.outputs@.len(),
    {
        let n0 = self.arena.len();
        let r = self.deepcopy_effect(src, se);
        let ghost mid = self.views();
        let mut j = n0;
        while j < self.arena.len()
            invariant
                self.wf(),
                self.views() == mid,
                n0 <= j <= self.len(),
                mid.subrange(0, n0 as int) == old(self).views(),
                refs_below(r.inputs@, self.len()),
                refs_below(r.outputs@, self.len()),
            decreases self.len() - j,
        {
            self.insert_existing(ElementRef(j));
            j = j + 1;
        }
        r
    }
}

/// Of two elements being unified, the one that is replaced: the less
/// specific one, or `a` when neither is less specific.
pub open spec fn lower(v: Seq<EView>, a: ElementRef, b: ElementRef) -> ElementRef {
    if spec_less_specific(v[b.0 as int], v[a.0 as int]) == Ok::<bool, Error>(true) { b } else { a }
}

/// Of two elements being unified, the one that takes the other's place.
pub open spec fn upper(v: Seq<EView>, a: ElementRef, b: ElementRef) -> ElementRef {
    if spec_less_specific(v[b.0 as int], v[a.0 as int]) == Ok::<bool, Error>(true) { a } else { b }
}

/// One of the two is a row or a value, so no effects have to be unified.
pub open spec fn simple_pair(x: EView, y: EView) -> bool {
    x is Ellipsis || x is Item || y is Ellipsis || y is Item
}

impl Scratchpad {
    /// Unifies two elements: the more specific one takes the place of the
    /// other, which becomes a sequence holding it. Two callables have their
    /// effects unified first. Each nested step uses one unit of `fuel`; when
    /// it runs out, or an element would be unified with itself, the
    /// unification does not settle.
    pub fn substitute(&mut self, a: ElementRef, b: ElementRef, fuel: u64) -> (r: Result<ElementRef, Error>)
        requires
            old(self).wf(),
            a.0 < old(self).len(),
            b.0 < old(self).len(),
        ensures
            final(self).wf(),
            final(self).len() == old(self).len(),
            final(self).elements@ == old(self).elements@,
            r is Ok ==> r == Ok::<ElementRef, Error>(lower(old(self).views(), a, b))
                && final(self).views()[lower(old(self).views(), a, b).0 as int]
                    == EView::Sequence(seq![upper(old(self).views(), a, b)]),
            fuel > 0 && a != b && simple_pair(old(self).views()[a.0 as int], old(self).views()[b.0 as int]) ==> r is Ok
                && final(self).views() == old(self).views().update(
                    lower(old(self).views(), a, b).0 as int,
                    EView::Sequence(seq![upper(old(self).views(), a, b)]),
                ),
            fuel == 0 || a == b ==> r == Err::<ElementRef, Error>(Error::InfiniteSubstitution) && final(self).views() == old(self).views(),
        decreases fuel,
    {
        if fuel == 0 {
            return Err(Error::InfiniteSubstitution);
        }
        if a.0 == b.0 {
            return Err(Error::InfiniteSubstitution);
        }
        let less = match self.get(b).is_less_specific(self.get(a)) {
            Ok(l) => l,
            Err(e) => {
                return Err(e);
            },
        };
        let (lo, hi) = if less { (b, a) } else { (a, b) };
        let ghost v0 = self.views();
        assert(lo == lower(v0, a, b) && hi == upper(v0, a, b));
        let pair = match (self.get(lo), self.get(hi)) {
            (Element::Callable(na, sa), Element::Callable(nb, sb)) => {
                Some((copy_chars(na.as_slice()), sa.copy(), copy_chars(nb.as_slice()), sb.copy()))
            },
            (Element::Sequence(_), Element::Sequence(_)) => {
                return Err(Error::IncompatibleStackEffects);
            },
            _ => None,
        };
        match pair {
            Some((na, sa, nb, sb)) => {
                proof {
                    assert(view_below(self.views()[lo.0 as int], self.len()));
                    assert(view_below(self.views()[hi.0 as int], self.len()));
                }
                let mut marks = new_marks(self.arena.len());
                let ai = normalize_in(self, &sa.inputs, &mut marks);
                let ao = normalize_in(self, &sa.outputs, &mut marks);
                let bi = normalize_in(self, &sb.inputs, &mut marks);
                let bo = normalize_in(self, &sb.outputs, &mut marks);
                let ai2 = copy_refs(&ai);
                let ao2 = copy_refs(&ao);
                let bi2 = copy_refs(&bi);
                let bo2 = copy_refs(&bo);
                self.set(lo, Element::Callable(na, StackEffect { inputs: ai2, outputs: ao2 }));
                self.set(hi, Element::Callable(nb, StackEffect { inputs: bi2, outputs: bo2 }));
                match self.substitute_sequences(&ai, &bi, fuel - 1) {
                    Ok(()) => {},
                    Err(e) => {
                        return Err(e);
                    },
                }
                match self.substitute_sequences(&ao, &bo, fuel - 1) {
                    Ok(()) => {},
                    Err(e) => {
                        return Err(e);
                    },
                }
            },
            None => {},
        }
        let mut holder: Vec<ElementRef> = Vec::new();
        holder.push(hi);
        self.set(lo, Element::Sequence(holder));
        Ok(lo)
    }

    /// Lets the row `x` stand for the sequence `flat`. A row cannot stand
    /// for a sequence that holds it and more.
    pub fn bind_row(&mut self, x: ElementRef, flat: Vec<ElementRef>) -> (r: Result<(), Error>)
        requires
            old(self).wf(),
            x.0 < old(self).len(),
            refs_below(flat@, old(self).len()),
        ensures
            final(self).wf(),
            final(self).len() == old(self).len(),
            final(self).elements@ == old(self).elements@,
            flat@ == seq![x] ==> r is Ok && final(self).views() == old(self).views(),
            flat@ != seq![x] && flat@.contains(x) ==> r == Err::<(), Error>(Error::InfiniteSubstitution)
                && final(self).views() == old(self).views(),
            !flat@.contains(x) ==> r is Ok && final(self).views() == old(self).views().update(x.0 as int, EView::Sequence(flat@)),
    {
        if flat.len() == 1 && flat[0].0 == x.0 {
            assert(flat@ =~= seq![x]);
            return Ok(());
        }
        assert(flat@ != seq![x]) by {
            if flat@ == seq![x] {
                assert(flat@.len() == 1 && flat@[0] == x);
            }
        }
        let mut i: usize = 0;
        while i < flat.len()
            invariant
                i <= flat@.len(),
                forall|j: int| 0 <= j < i ==> flat@[j] != x,
                flat@ != seq![x],
                *self == *old(self),
                self.wf(),
            decreases flat@.len() - i,
        {
            if flat[i].0 == x.0 {
                assert(flat@[i as int] == x);
                return Err(Error::InfiniteSubstitution);
            }
            i = i + 1;
        }
        self.set(x, Element::Sequence(flat));
        Ok(())
    }

    /// Unifies two sequences from the top: equal top elements are left as
    /// they are, a row on top of one side takes the whole other side, and
    /// any other pair is unified with `substitute`. Both are flattened again
    /// before each step. The sequences must run out together.
    pub fn substitute_sequences(&mut self, a: &Vec<ElementRef>, b: &Vec<ElementRef>, fuel: u64) -> (r: Result<(), Error>)
        requires
            old(self).wf(),
            refs_below(a@, old(self).len()),
            refs_below(b@, old(self).len()),
        ensures
            final(self).wf(),
            final(self).len() == old(self).len(),
            final(self).elements@ == old(self).elements@,
            fuel == 0 ==> r == Err::<(), Error>(Error::InfiniteSubstitution),
            fuel > 0 ==> {
                let fa = flatten(old(self).views(), a@, no_marks(old(self).len()));
                let fb = flatten(old(self).views(), b@, no_marks(old(self).len()));
                &&& fa.len() == 0 && fb.len() == 0 ==> r is Ok
                &&& (fa.len() == 0) != (fb.len() == 0) ==> r == Err::<(), Error>(Error::IncompatibleStackEffects)
            },
        decreases fuel,
    {
        let mut ca = copy_refs(a);
        let mut cb = copy_refs(b);
        let mut f: u64 = fuel;
        let ghost mut first = true;
        proof {
            assert forall|i: int| 0 <= i < self.views().len() implies #[trigger] kept(self.views()[i], self.views()[i]) by {}
        }
        loop
            invariant
                self.wf(),
                self.len() == old(self).len(),
                self.elements@ == old(self).elements@,
                refs_below(ca@, self.len()),
                refs_below(cb@, self.len()),
                f <= fuel,
                first ==> f == fuel && ca@ == a@ && cb@ == b@ && shape_kept(old(self).views(), self.views()),
                !first ==> fuel > 0 && !(flatten(old(self).views(), a@, no_marks(old(self).len())).len() == 0
                    || flatten(old(self).views(), b@, no_marks(old(self).len())).len() == 0),
            decreases f,
        {
            if f == 0 {
                return Err(Error::InfiniteSubstitution);
            }
            f = f - 1;
            let ghost v0 = self.views();
            let mut marks = new_marks(self.arena.len());
            let mut na = normalize_in(self, &ca, &mut marks);
            let ghost v1 = self.views();
            let mut nb = normalize_in(self, &cb, &mut marks);
            proof {
                if first {
                    let m = no_marks(old(self).len());
                    lemma_flatten_stable(old(self).views(), v0, a@, m);
                    lemma_flatten_stable(old(self).views(), v0, b@, m);
                    lemma_flatten_stable(v0, v1, b@, m);
                }
            }
            if na.len() == 0 && nb.len() == 0 {
                return Ok(());
            }
            if na.len() == 0 || nb.len() == 0 {
                return Err(Error::IncompatibleStackEffects);
            }
            let xa = na[na.len() - 1];
            let xb = nb[nb.len() - 1];
            if xa.0 != xb.0 {
                if self.get(xa).is_ellipsis() {
                    let flat = normalize_in(self, &nb, &mut marks);
                    return self.bind_row(xa, flat);
                }
                if self.get(xb).is_ellipsis() {
                    let flat = normalize_in(self, &na, &mut marks);
                    return self.bind_row(xb, flat);
                }
                match self.substitute(xa, xb, f) {
                    Ok(_) => {},
                    Err(e) => {
                        return Err(e);
                    },
                }
            }
            na.pop();
            nb.pop();
            ca = na;
            cb = nb;
            proof {
                first = false;
            }
        }
    }
}

} // verus!
