//! Effects and elements as text, as `a b -- b a` or in the longer form
//! that names the kind of every element.
use vstd::prelude::*;
use crate::text::{append_chars, chars_of, string_of};
use super::element::{Element, ElementRef, StackEffect, EView};
use super::scratchpad::{Scratchpad, refs_below, view_below};
use super::sequence::{unmarked, lemma_mark, new_marks};

verus! {

/// `b` keeps every mark of `a`.
pub open spec fn marks_grow(a: Seq<bool>, b: Seq<bool>) -> bool {
    &&& a.len() == b.len()
    &&& forall|i: int| 0 <= i < a.len() && #[trigger] a[i] ==> b[i]
}

/// The text of a row or a value element, or `None` for the others.
pub open spec fn leaf_text(v: EView, debug: bool) -> Option<Seq<char>> {
    match v {
        EView::Ellipsis(n) => Some(if debug { "Ellipsis(\""@ + n + "\")"@ } else { ".."@ + n }),
        EView::Item(n) => Some(if debug { "Item(\""@ + n + "\")"@ } else { n }),
        _ => None,
    }
}

/// Every element of `s` is a row or a value.
pub open spec fn all_leaves(views: Seq<EView>, s: Seq<ElementRef>) -> bool {
    forall|i: int| 0 <= i < s.len() ==> leaf_text(views[(#[trigger] s[i]).0 as int], false) is Some
}

/// The separator of a list of elements.
pub open spec fn list_sep(commas: bool) -> Seq<char> {
    if commas { ", "@ } else { " "@ }
}

/// The texts of elements that are rows or values, separated.
pub open spec fn leaves_text(views: Seq<EView>, s: Seq<ElementRef>, debug: bool, commas: bool) -> Seq<char>
    decreases s.len(),
{
    if s.len() == 0 {
        Seq::empty()
    } else if s.len() == 1 {
        leaf_text(views[s[0].0 as int], debug)->Some_0
    } else {
        leaves_text(views, s.subrange(0, s.len() - 1), debug, commas) + list_sep(commas) + leaf_text(
            views[s[s.len() - 1].0 as int],
            debug,
        )->Some_0
    }
}

/// The text of an effect whose sides, as shown, are made of rows and
/// values: the simplified sides around ` -- `, or in the longer form
/// `StackEffect(inputs -- outputs)` with the sides as they are.
pub open spec fn leaf_effect_text(views: Seq<EView>, ins: Seq<ElementRef>, outs: Seq<ElementRef>, debug: bool) -> Option<Seq<char>> {
    let (a, b) = if debug { (ins, outs) } else { super::effect::spec_simplified(ins, outs) };
    if all_leaves(views, a) && all_leaves(views, b) {
        Some(if debug {
            "StackEffect("@ + leaves_text(views, a, true, true) + " -- "@ + leaves_text(views, b, true, true) + ")"@
        } else {
            leaves_text(views, a, false, false) + " -- "@ + leaves_text(views, b, false, false)
        })
    } else {
        None
    }
}

/// Adding marks never adds unmarked positions.
pub proof fn lemma_marks_grow(a: Seq<bool>, b: Seq<bool>)
    requires
        marks_grow(a, b),
    ensures
        unmarked(b) <= unmarked(a),
    decreases a.len(),
{
    if a.len() > 0 {
        let x = a.drop_last();
        let y = b.drop_last();
        assert forall|i: int| 0 <= i < x.len() && #[trigger] x[i] implies y[i] by {
            assert(a[i]);
        }
        lemma_marks_grow(x, y);
        if a.last() {
            assert(a[a.len() - 1]);
        }
    }
}

fn push_str(out: &mut Vec<char>, s: &str)
    ensures
        final(out)@ == old(out)@ + s@,
{
    let cs = chars_of(s);
    append_chars(out, cs.as_slice());
}

/// Writes element `x`: a row as `..name`, a value as its name, a callable
/// as `name(effect)` the first time and `name(...)` after, a sequence as
/// its elements. `debug` selects the longer form. Callables already
/// written are marked in `seen`, sequences being written in `path`.
fn write_element(pad: &Scratchpad, x: ElementRef, seen: &mut Vec<bool>, path: &mut Vec<bool>, debug: bool, out: &mut Vec<char>)
    requires
        pad.wf(),
        x.0 < pad.len(),
        old(seen)@.len() == pad.len(),
        old(path)@.len() == pad.len(),
    ensures
        marks_grow(old(seen)@, final(seen)@),
        final(path)@ == old(path)@,
        leaf_text(pad.views()[x.0 as int], debug) matches Some(t) ==> final(out)@ == old(out)@ + t && final(seen)@
            == old(seen)@,
        old(seen)@[x.0 as int] ==> match pad.views()[x.0 as int] {
            EView::Callable(n, _, _) => final(out)@ == old(out)@ + (if debug {
                "Callable(\""@ + n + "\", ...)"@
            } else {
                n + "(...)"@
            }),
            _ => true,
        },
    decreases unmarked(old(seen)@), unmarked(old(path)@), 0nat,
{
    let e = pad.get(x);
    assert(view_below(pad.views()[x.0 as int], pad.len()));
    match e {
        Element::Ellipsis(n) => {
            if debug {
                push_str(out, "Ellipsis(\"");
                append_chars(out, n.as_slice());
                push_str(out, "\")");
            } else {
                push_str(out, "..");
                append_chars(out, n.as_slice());
            }
        },
        Element::Item(n) => {
            if debug {
                push_str(out, "Item(\"");
                append_chars(out, n.as_slice());
                push_str(out, "\")");
            } else {
                append_chars(out, n.as_slice());
            }
        },
        Element::Callable(n, se) => {
            if seen[x.0] {
                if debug {
                    push_str(out, "Callable(\"");
                    append_chars(out, n.as_slice());
                    push_str(out, "\", ...)");
                } else {
                    append_chars(out, n.as_slice());
                    push_str(out, "(...)");
                }
            } else {
                proof {
                    lemma_mark(seen@, x.0 as int);
                }
                let ghost s0 = seen@;
                seen.set(x.0, true);
                if debug {
                    push_str(out, "Callable(");
                    append_chars(out, n.as_slice());
                    push_str(out, ", ");
                } else {
                    append_chars(out, n.as_slice());
                    push_str(out, "(");
                }
                let ghost s1 = seen@;
                write_effect(pad, se, seen, path, debug, out);
                push_str(out, ")");
                proof {
                    assert forall|i: int| 0 <= i < s0.len() && #[trigger] old(seen)@[i] implies seen@[i] by {
                        assert(s1[i]);
                    }
                }
            }
        },
        Element::Sequence(s) => {
            if debug {
                push_str(out, "[");
            }
            if path[x.0] {
                push_str(out, "...");
            } else {
                proof {
                    lemma_mark(path@, x.0 as int);
                }
                path.set(x.0, true);
                write_list(pad, s, seen, path, debug, false, out);
                path.set(x.0, false);
                assert(path@ =~= old(path)@);
            }
            if debug {
                push_str(out, "]");
            }
        },
    }
}

/// Writes the elements of `s`, separated by a space, or by a comma and a
/// space when `commas`.
fn write_list(pad: &Scratchpad, s: &Vec<ElementRef>, seen: &mut Vec<bool>, path: &mut Vec<bool>, debug: bool, commas: bool, out: &mut Vec<char>)
    requires
        pad.wf(),
        refs_below(s@, pad.len()),
        old(seen)@.len() == pad.len(),
        old(path)@.len() == pad.len(),
    ensures
        marks_grow(old(seen)@, final(seen)@),
        final(path)@ == old(path)@,
        all_leaves(pad.views(), s@) ==> final(out)@ == old(out)@ + leaves_text(pad.views(), s@, debug, commas)
            && final(seen)@ == old(seen)@,
    decreases unmarked(old(seen)@), unmarked(old(path)@), 1nat,
{
    let ghost o0 = out@;
    let ghost leaves = all_leaves(pad.views(), s@);
    let mut i: usize = 0;
    assert(o0 + leaves_text(pad.views(), s@.subrange(0, 0), debug, commas) =~= o0);
    while i < s.len()
        invariant
            pad.wf(),
            refs_below(s@, pad.len()),
            seen@.len() == pad.len(),
            path@ == old(path)@,
            old(path)@.len() == pad.len(),
            marks_grow(old(seen)@, seen@),
            unmarked(seen@) <= unmarked(old(seen)@),
            i <= s@.len(),
            leaves == all_leaves(pad.views(), s@),
            leaves ==> out@ == o0 + leaves_text(pad.views(), s@.subrange(0, i as int), debug, commas) && seen@ == old(seen)@,
        decreases s@.len() - i,
    {
        let ghost before = out@;
        if i > 0 {
            if commas {
                push_str(out, ", ");
            } else {
                push_str(out, " ");
            }
        }
        let ghost mid = out@;
        let ghost s0 = seen@;
        write_element(pad, s[i], seen, path, debug, out);
        proof {
            if leaves {
                let sq = s@.subrange(0, i + 1);
                assert(sq.subrange(0, sq.len() - 1) =~= s@.subrange(0, i as int));
                assert(sq[sq.len() - 1] == s@[i as int]);
                assert(leaf_text(pad.views()[s@[i as int].0 as int], false) is Some);
                assert(leaf_text(pad.views()[s@[i as int].0 as int], debug) is Some);
                if i > 0 {
                    assert(mid == before + list_sep(commas));
                } else {
                    assert(sq[0] == s@[0]);
                }
                assert(out@ =~= o0 + leaves_text(pad.views(), s@.subrange(0, i + 1), debug, commas));
            }
        }
        proof {
            lemma_marks_grow(s0, seen@);
            assert forall|j: int| 0 <= j < seen@.len() && #[trigger] old(seen)@[j] implies seen@[j] by {
                assert(s0[j]);
            }
        }
        i = i + 1;
    }
    assert(s@.subrange(0, s@.len() as int) =~= s@);
}

/// Writes an effect: its simplified sides around ` -- `, or in the longer
/// form `StackEffect(inputs -- outputs)` with the sides as they are.
fn write_effect(pad: &Scratchpad, se: &StackEffect, seen: &mut Vec<bool>, path: &mut Vec<bool>, debug: bool, out: &mut Vec<char>)
    requires
        pad.wf(),
        refs_below(se.inputs@, pad.len()),
        refs_below(se.outputs@, pad.len()),
        old(seen)@.len() == pad.len(),
        old(path)@.len() == pad.len(),
    ensures
        marks_grow(old(seen)@, final(seen)@),
        final(path)@ == old(path)@,
        leaf_effect_text(pad.views(), se.inputs@, se.outputs@, debug) matches Some(t) ==> final(out)@ == old(out)@ + t,
    decreases unmarked(old(seen)@), unmarked(old(path)@), 2nat,
{
    let shown = if debug { se.copy() } else { se.simplified() };
    proof {
        assert forall|i: int| 0 <= i < shown.inputs@.len() implies (#[trigger] shown.inputs@[i]).0 < pad.len() by {
            lemma_simplified_within(se.inputs@, se.outputs@, i, true);
        }
        assert forall|i: int| 0 <= i < shown.outputs@.len() implies (#[trigger] shown.outputs@[i]).0 < pad.len() by {
            lemma_simplified_within(se.inputs@, se.outputs@, i, false);
        }
    }
    if debug {
        push_str(out, "StackEffect(");
    }
    write_list(pad, &shown.inputs, seen, path, debug, debug, out);
    let ghost s1 = seen@;
    proof {
        lemma_marks_grow(old(seen)@, s1);
    }
    push_str(out, " -- ");
    write_list(pad, &shown.outputs, seen, path, debug, debug, out);
    proof {
        assert forall|j: int| 0 <= j < seen@.len() && #[trigger] old(seen)@[j] implies seen@[j] by {
            assert(s1[j]);
        }
    }
    if debug {
        push_str(out, ")");
    }
}

/// The sides of the simplified effect are suffixes of the sides.
proof fn lemma_simplified_within(ins: Seq<ElementRef>, outs: Seq<ElementRef>, i: int, left: bool)
    ensures
        ({
            let (a, b) = super::effect::spec_simplified(ins, outs);
            &&& a.len() <= ins.len()
            &&& b.len() <= outs.len()
            &&& a.len() + (outs.len() - b.len()) == ins.len()
            &&& (left && 0 <= i < a.len() ==> a[i] == ins[i + (ins.len() - a.len())])
            &&& (!left && 0 <= i < b.len() ==> b[i] == outs[i + (outs.len() - b.len())])
        }),
    decreases ins.len(),
{
    if ins.len() == 0 || outs.len() == 0 {
    } else if ins[0] != outs[0] {
    } else if outs.drop_first().contains(ins[0]) {
    } else {
        lemma_simplified_within(ins.drop_first(), outs.drop_first(), i, left);
    }
}

impl ElementRef {
    /// The element as text (see `write_element`); callables marked in
    /// `seen` are not written out again, and those written are marked.
    pub fn recursive_display(&self, pad: &Scratchpad, seen: &mut Vec<bool>) -> (r: String)
        requires
            pad.wf(),
            self.0 < pad.len(),
            old(seen)@.len() == pad.len(),
        ensures
            marks_grow(old(seen)@, final(seen)@),
            leaf_text(pad.views()[self.0 as int], false) matches Some(t) ==> r@ == t,
            old(seen)@[self.0 as int] ==> match pad.views()[self.0 as int] {
                EView::Callable(n, _, _) => r@ == n + "(...)"@,
                _ => true,
            },
    {
        let mut path = new_marks(pad.arena.len());
        let mut out: Vec<char> = Vec::new();
        write_element(pad, *self, seen, &mut path, false, &mut out);
        string_of(out.as_slice())
    }

    /// The element as text in the longer form.
    pub fn recursive_dbgstr(&self, pad: &Scratchpad, seen: &mut Vec<bool>) -> (r: String)
        requires
            pad.wf(),
            self.0 < pad.len(),
            old(seen)@.len() == pad.len(),
        ensures
            marks_grow(old(seen)@, final(seen)@),
            leaf_text(pad.views()[self.0 as int], true) matches Some(t) ==> r@ == t,
            old(seen)@[self.0 as int] ==> match pad.views()[self.0 as int] {
                EView::Callable(n, _, _) => r@ == "Callable(\""@ + n + "\", ...)"@,
                _ => true,
            },
    {
        let mut path = new_marks(pad.arena.len());
        let mut out: Vec<char> = Vec::new();
        write_element(pad, *self, seen, &mut path, true, &mut out);
        string_of(out.as_slice())
    }
}

impl StackEffect {
    /// The effect as text, as `..a b -- ..a`; the elements that pass
    /// through untouched are left out.
    pub fn recursive_display(&self, pad: &Scratchpad, seen: &mut Vec<bool>) -> (r: String)
        requires
            pad.wf(),
            refs_below(self.inputs@, pad.len()),
            refs_below(self.outputs@, pad.len()),
            old(seen)@.len() == pad.len(),
        ensures
            marks_grow(old(seen)@, final(seen)@),
            leaf_effect_text(pad.views(), self.inputs@, self.outputs@, false) matches Some(t) ==> r@ == t,
    {
        let mut path = new_marks(pad.arena.len());
        let mut out: Vec<char> = Vec::new();
        write_effect(pad, self, seen, &mut path, false, &mut out);
        string_of(out.as_slice())
    }

    /// The effect as text in the longer form.
    pub fn recursive_dbgstr(&self, pad: &Scratchpad, seen: &mut Vec<bool>) -> (r: String)
        requires
            pad.wf(),
            refs_below(self.inputs@, pad.len()),
            refs_below(self.outputs@, pad.len()),
            old(seen)@.len() == pad.len(),
        ensures
            marks_grow(old(seen)@, final(seen)@),
            leaf_effect_text(pad.views(), self.inputs@, self.outputs@, true) matches Some(t) ==> r@ == t,
    {
        let mut path = new_marks(pad.arena.len());
        let mut out: Vec<char> = Vec::new();
        write_effect(pad, self, seen, &mut path, true, &mut out);
        string_of(out.as_slice())
    }

    /// The effect as text, as `Display` shows it.
    pub fn to_text(&self, pad: &Scratchpad) -> (r: String)
        requires
            pad.wf(),
            refs_below(self.inputs@, pad.len()),
            refs_below(self.outputs@, pad.len()),
        ensures
            leaf_effect_text(pad.views(), self.inputs@, self.outputs@, false) matches Some(t) ==> r@ == t,
    {
        let mut seen = new_marks(pad.arena.len());
        self.recursive_display(pad, &mut seen)
    }
}

} // verus!
