//! Reading an abstract stack back as a stack effect or as text, and chaining
//! two effects through an abstract stack.
use vstd::prelude::*;
use crate::errors::Error;
use crate::stack_effect::{EffectNode, StackEffect, SNode, SEffect, view_seq, lemma_view_seq};
use crate::abstract_stack::{AbstractStack, ItemRef, StackItem, items_ok, item_ok, ids_ok, no_quotations, row_push, open_stack, row_take, item_stack, taken};
use crate::effect_names::{rename_effect, rename_node, lemma_rename_seq, effect_names, map_name, node_names, seq_names, lemma_seq_names_has, lemma_concat_contains};
use crate::effect_names::rename_effects;
use crate::text::{copy_chars, append_chars, string_of};

verus! {

/// The effect element that an item of the arena stands for, following
/// quotations at most `fuel` levels deep.
pub open spec fn item_node(items: Seq<StackItem>, id: ItemRef, fuel: nat) -> Option<SNode>
    decreases fuel, 0int, 0int,
{
    if id >= items.len() {
        None
    } else {
        match items[id as int] {
            StackItem::Row(n) => Some(SNode::Row(n@)),
            StackItem::Item(n) => Some(SNode::Item(n@)),
            StackItem::Quotation(n, a, b) => if fuel == 0 {
                None
            } else {
                match (ids_nodes(items, a.values@, (fuel - 1) as nat), ids_nodes(items, b.values@, (fuel - 1) as nat)) {
                    (Some(x), Some(y)) => Some(SNode::Quot(n@, x, y)),
                    _ => None,
                }
            },
        }
    }
}

/// The effect elements that a sequence of items stands for.
pub open spec fn ids_nodes(items: Seq<StackItem>, s: Seq<ItemRef>, fuel: nat) -> Option<Seq<SNode>>
    decreases fuel, 1int, s.len(),
{
    if s.len() == 0 {
        Some(Seq::empty())
    } else {
        match (ids_nodes(items, s.drop_last(), fuel), item_node(items, s.last(), fuel)) {
            (Some(x), Some(y)) => Some(x.push(y)),
            _ => None,
        }
    }
}

/// The text of an item: `..name` for a row, `name` for an item,
/// `name(inputs -- outputs)` for a quotation.
pub open spec fn item_text(items: Seq<StackItem>, id: ItemRef, fuel: nat) -> Seq<char>
    decreases fuel, 0int, 0int,
{
    if id >= items.len() {
        Seq::empty()
    } else {
        match items[id as int] {
            StackItem::Row(n) => seq!['.', '.'] + n@,
            StackItem::Item(n) => n@,
            StackItem::Quotation(n, a, b) => if fuel == 0 {
                n@ + seq!['(', '.', '.', '.', ')']
            } else {
                n@ + seq!['('] + ids_text(items, a.values@, (fuel - 1) as nat) + seq![' ', '-', '-', ' ']
                    + ids_text(items, b.values@, (fuel - 1) as nat) + seq![')']
            },
        }
    }
}

/// The texts of the items, separated by single spaces.
pub open spec fn ids_text(items: Seq<StackItem>, s: Seq<ItemRef>, fuel: nat) -> Seq<char>
    decreases fuel, 1int, s.len(),
{
    if s.len() == 0 {
        Seq::empty()
    } else if s.len() == 1 {
        item_text(items, s[0], fuel)
    } else {
        ids_text(items, s.drop_last(), fuel) + seq![' '] + item_text(items, s.last(), fuel)
    }
}

/// The effect element of an item.
fn item_to_node(items: &Vec<StackItem>, id: ItemRef, fuel: usize) -> (r: Result<EffectNode, Error>)
    requires
        items_ok(items@),
    ensures
        match item_node(items@, id, fuel as nat) {
            Some(n) => r matches Ok(x) && x@ == n,
            None => r is Err,
        },
    decreases fuel, 0int, 0int,
{
    if id >= items.len() {
        return Err(Error::IncompatibleStackEffects);
    }
    match &items[id] {
        StackItem::Row(n) => Ok(EffectNode::Row(copy_chars(n.as_slice()))),
        StackItem::Item(n) => Ok(EffectNode::Item(copy_chars(n.as_slice()))),
        StackItem::Quotation(n, a, b) => {
            if fuel == 0 {
                return Err(Error::InfiniteSubstitution);
            }
            let ins = ids_to_nodes(items, &a.values, fuel - 1)?;
            let outs = ids_to_nodes(items, &b.values, fuel - 1)?;
            Ok(EffectNode::Quotation(copy_chars(n.as_slice()), StackEffect { inputs: ins, outputs: outs }))
        },
    }
}

/// The effect elements of a sequence of items.
fn ids_to_nodes(items: &Vec<StackItem>, s: &Vec<ItemRef>, fuel: usize) -> (r: Result<Vec<EffectNode>, Error>)
    requires
        items_ok(items@),
    ensures
        match ids_nodes(items@, s@, fuel as nat) {
            Some(ns) => r matches Ok(x) && view_seq(x@) == ns,
            None => r is Err,
        },
    decreases fuel, 1int, s@.len(),
{
    let mut out: Vec<EffectNode> = Vec::new();
    let mut i: usize = 0;
    assert(s@.subrange(0, 0) == Seq::<ItemRef>::empty());
    while i < s.len()
        invariant
            i <= s@.len(),
            items_ok(items@),
            ids_nodes(items@, s@.subrange(0, i as int), fuel as nat) == Some(view_seq(out@)),
        decreases s@.len() - i,
    {
        let ghost pre = s@.subrange(0, i as int);
        let ghost nxt = s@.subrange(0, i + 1);
        assert(nxt.drop_last() == pre);
        assert(nxt.last() == s@[i as int]);
        let x = item_to_node(items, s[i], fuel);
        match x {
            Ok(node) => {
                let ghost before = out@;
                out.push(node);
                proof {
                    assert(out@.subrange(0, out@.len() - 1) == before);
                }
            },
            Err(e) => {
                proof {
                    lemma_ids_nodes_none(items@, s@, i as int + 1, fuel as nat);
                }
                return Err(e);
            },
        }
        i = i + 1;
    }
    assert(s@.subrange(0, s@.len() as int) == s@);
    Ok(out)
}

proof fn lemma_ids_nodes_none(items: Seq<StackItem>, s: Seq<ItemRef>, k: int, fuel: nat)
    requires
        0 <= k <= s.len(),
        ids_nodes(items, s.subrange(0, k), fuel) is None,
    ensures
        ids_nodes(items, s, fuel) is None,
    decreases s.len() - k,
{
    if k < s.len() {
        let t = s.subrange(0, k + 1);
        assert(t.drop_last() == s.subrange(0, k));
        lemma_ids_nodes_none(items, s, k + 1, fuel);
    } else {
        assert(s.subrange(0, k) == s);
    }
}

/// The text of an item.
fn item_to_text(items: &Vec<StackItem>, id: ItemRef, fuel: usize, out: &mut Vec<char>)
    ensures
        final(out)@ == old(out)@ + item_text(items@, id, fuel as nat),
    decreases fuel, 0int, 0int,
{
    if id >= items.len() {
        assert(old(out)@ + Seq::<char>::empty() == old(out)@);
        return;
    }
    match &items[id] {
        StackItem::Row(n) => {
            out.push('.');
            out.push('.');
            append_chars(out, n.as_slice());
            assert(old(out)@.push('.').push('.') + n@ == old(out)@ + (seq!['.', '.'] + n@));
        },
        StackItem::Item(n) => {
            append_chars(out, n.as_slice());
        },
        StackItem::Quotation(n, a, b) => {
            append_chars(out, n.as_slice());
            if fuel == 0 {
                out.push('(');
                out.push('.');
                out.push('.');
                out.push('.');
                out.push(')');
                assert(old(out)@ + n@ + seq!['(', '.', '.', '.', ')'] == old(out)@ + (n@ + seq![
                    '(',
                    '.',
                    '.',
                    '.',
                    ')',
                ]));
                assert((old(out)@ + n@).push('(').push('.').push('.').push('.').push(')') == old(out)@ + n@
                    + seq!['(', '.', '.', '.', ')']);
            } else {
                out.push('(');
                ids_to_text(items, &a.values, fuel - 1, out);
                out.push(' ');
                out.push('-');
                out.push('-');
                out.push(' ');
                ids_to_text(items, &b.values, fuel - 1, out);
                out.push(')');
                let ghost ta = ids_text(items@, a.values@, (fuel - 1) as nat);
                let ghost tb = ids_text(items@, b.values@, (fuel - 1) as nat);
                assert(((((old(out)@ + n@).push('(') + ta).push(' ').push('-').push('-').push(' ') + tb).push(
                    ')',
                )) == old(out)@ + (n@ + seq!['('] + ta + seq![' ', '-', '-', ' '] + tb + seq![')']));
            }
        },
    }
}

/// Items that are no quotations always read back as effect elements.
proof fn lemma_ids_nodes_len(items: Seq<StackItem>, s: Seq<ItemRef>, fuel: nat)
    ensures
        ids_nodes(items, s, fuel) matches Some(x) ==> x.len() == s.len(),
    decreases s.len(),
{
    if s.len() > 0 {
        lemma_ids_nodes_len(items, s.drop_last(), fuel);
    }
}

proof fn lemma_ids_nodes_kinds(items: Seq<StackItem>, s: Seq<ItemRef>, fuel: nat)
    requires
        ids_ok(s, items.len() as int),
        no_quotations(items),
    ensures
        ids_nodes(items, s, fuel) matches Some(x) ==> forall|j: int| 0 <= j < s.len() ==> item_node(items, s[j], fuel) == Some(#[trigger] x[j]),
    decreases s.len(),
{
    if s.len() > 0 {
        lemma_ids_nodes_kinds(items, s.drop_last(), fuel);
        lemma_ids_nodes_len(items, s.drop_last(), fuel);
        match ids_nodes(items, s, fuel) {
            Some(x) => {
                let px = ids_nodes(items, s.drop_last(), fuel)->Some_0;
                let y = item_node(items, s.last(), fuel)->Some_0;
                assert(x == px.push(y));
                assert forall|j: int| 0 <= j < s.len() implies item_node(items, s[j], fuel) == Some(#[trigger] x[j]) by {
                    if j < s.len() - 1 {
                        assert(s.drop_last()[j] == s[j]);
                        assert(x[j] == px[j]);
                    } else {
                        assert(s.last() == s[j]);
                        assert(x[j] == y);
                    }
                }
            },
            None => {},
        }
    }
}

proof fn lemma_ids_nodes_leaves(items: Seq<StackItem>, s: Seq<ItemRef>, fuel: nat)
    requires
        no_quotations(items),
        ids_ok(s, items.len() as int),
    ensures
        ids_nodes(items, s, fuel) is Some,
    decreases s.len(),
{
    if s.len() > 0 {
        assert(s.last() == s[s.len() - 1]);
        assert(s.last() < items.len());
        assert(!(items[s.last() as int] is Quotation));
        assert(item_node(items, s.last(), fuel) is Some);
        assert forall|i: int| 0 <= i < s.drop_last().len() implies #[trigger] s.drop_last()[i] < items.len() by {
            assert(s.drop_last()[i] == s[i]);
        }
        lemma_ids_nodes_leaves(items, s.drop_last(), fuel);
    }
}

/// No element of the sequence is a quotation.
pub open spec fn no_quoted(s: Seq<SNode>) -> bool {
    forall|k: int| 0 <= k < s.len() ==> !(#[trigger] s[k] is Quot)
}

/// The texts of a sequence of items, separated by spaces.
fn ids_to_text(items: &Vec<StackItem>, s: &Vec<ItemRef>, fuel: usize, out: &mut Vec<char>)
    ensures
        final(out)@ == old(out)@ + ids_text(items@, s@, fuel as nat),
    decreases fuel, 1int, s@.len(),
{
    let ghost o0 = out@;
    let mut i: usize = 0;
    assert(s@.subrange(0, 0) == Seq::<ItemRef>::empty());
    assert(o0 + Seq::<char>::empty() == o0);
    while i < s.len()
        invariant
            i <= s@.len(),
            out@ == o0 + ids_text(items@, s@.subrange(0, i as int), fuel as nat),
        decreases s@.len() - i,
    {
        let ghost pre = s@.subrange(0, i as int);
        let ghost nxt = s@.subrange(0, i + 1);
        assert(nxt.drop_last() == pre);
        assert(nxt.last() == s@[i as int]);
        let ghost before = out@;
        if i > 0 {
            out.push(' ');
        }
        item_to_text(items, s[i], fuel, out);
        proof {
            let it = item_text(items@, s@[i as int], fuel as nat);
            if i > 0 {
                assert(out@ == o0 + ids_text(items@, pre, fuel as nat) + seq![' '] + it);
            } else {
                assert(nxt.len() == 1 && nxt[0] == s@[0]);
                assert(out@ == o0 + it);
            }
        }
        i = i + 1;
    }
    assert(s@.subrange(0, s@.len() as int) == s@);
}

impl AbstractStack {
    /// The effect that the abstract stack describes: its inputs and its
    /// outputs as effect elements.
    pub fn into_effect(&self) -> (r: Result<StackEffect, Error>)
        requires
            self.wf(),
        ensures
            match (
                ids_nodes(self.items@, self.inputs.values@, self.items@.len() as nat),
                ids_nodes(self.items@, self.outputs.values@, self.items@.len() as nat),
            ) {
                (Some(a), Some(b)) => r matches Ok(se) && se@.inputs == a && se@.outputs == b,
                _ => r is Err,
            },
            no_quotations(self.items@) ==> r is Ok,
    {
        proof {
            if no_quotations(self.items@) {
                lemma_ids_nodes_leaves(self.items@, self.inputs.values@, self.items@.len() as nat);
                lemma_ids_nodes_leaves(self.items@, self.outputs.values@, self.items@.len() as nat);
            }
        }
        let fuel = self.items.len();
        let inputs = ids_to_nodes(&self.items, &self.inputs.values, fuel)?;
        let outputs = ids_to_nodes(&self.items, &self.outputs.values, fuel)?;
        Ok(StackEffect { inputs, outputs })
    }

    /// The abstract stack as text: `inputs -- outputs`.
    pub fn to_text(&self) -> (r: String)
        ensures
            r@ == ids_text(self.items@, self.inputs.values@, self.items@.len() as nat) + seq![' ', '-', '-', ' ']
                + ids_text(self.items@, self.outputs.values@, self.items@.len() as nat),
    {
        let fuel = self.items.len();
        let mut out: Vec<char> = Vec::new();
        ids_to_text(&self.items, &self.inputs.values, fuel, &mut out);
        out.push(' ');
        out.push('-');
        out.push('-');
        out.push(' ');
        ids_to_text(&self.items, &self.outputs.values, fuel, &mut out);
        string_of(out.as_slice())
    }
}

/// Renaming an effect that takes nothing and leaves no quotation gives one
/// that does the same.
proof fn lemma_renamed_leaves(se: StackEffect, a: StackEffect, m: Seq<(Vec<char>, Vec<char>)>)
    requires
        a@ == rename_effect(se@, crate::effect_names::mapping_view(m)),
        se@.inputs.len() == 0,
        no_quoted(se@.outputs),
    ensures
        a.inputs@.len() == 0,
        forall|j: int| 0 <= j < a.outputs@.len() ==> !(#[trigger] a.outputs@[j] is Quotation),
{
    let mv = crate::effect_names::mapping_view(m);
    lemma_view_seq(a.inputs@);
    lemma_view_seq(a.outputs@);
    lemma_view_seq(se.inputs@);
    lemma_view_seq(se.outputs@);
    lemma_rename_seq(se@.inputs, mv);
    lemma_rename_seq(se@.outputs, mv);
    assert forall|j: int| 0 <= j < a.outputs@.len() implies !(#[trigger] a.outputs@[j] is Quotation) by {
        assert(a@.outputs[j] == crate::stack_effect::view_node(a.outputs@[j]));
        assert(a@.outputs[j] == rename_node(se@.outputs[j], mv));
        assert(!(se@.outputs[j] is Quot));
    }
}

/// Renaming the names of an effect that takes only its row and puts values
/// on it, one name for one name, gives such an effect again.
proof fn lemma_row_push_renamed(e: SEffect, m: Seq<(Seq<char>, Seq<char>)>)
    requires
        row_push(e),
        forall|x: Seq<char>, y: Seq<char>| effect_names(e).contains(x) && effect_names(e).contains(y) && x != y ==> map_name(m, x)
            != map_name(m, y),
    ensures
        row_push(rename_effect(e, m)),
{
    let a = rename_effect(e, m);
    lemma_rename_seq(e.inputs, m);
    lemma_rename_seq(e.outputs, m);
    lemma_concat_contains(seq_names(e.inputs), seq_names(e.outputs));
    lemma_seq_names_has(e.inputs, 0);
    let r = e.inputs[0]->Row_0;
    assert(node_names(e.inputs[0]).contains(r)) by {
        assert(node_names(e.inputs[0])[0] == r);
    }
    assert(effect_names(e).contains(r));
    assert forall|j: int| 1 <= j < a.outputs.len() implies (#[trigger] a.outputs[j]) is Item && a.outputs[j]->Item_0 != a.inputs[0]->Row_0 by {
        let x = e.outputs[j]->Item_0;
        lemma_seq_names_has(e.outputs, j);
        assert(node_names(e.outputs[j])[0] == x);
        assert(effect_names(e).contains(x));
        assert(a.outputs[j] == rename_node(e.outputs[j], m));
    }
}

/// Renaming the names of an effect that only takes values off its row, one
/// name for one name, gives such an effect again.
proof fn lemma_row_take_renamed(e: SEffect, m: Seq<(Seq<char>, Seq<char>)>)
    requires
        row_take(e),
        forall|x: Seq<char>, y: Seq<char>| effect_names(e).contains(x) && effect_names(e).contains(y) && x != y ==> map_name(m, x)
            != map_name(m, y),
    ensures
        row_take(rename_effect(e, m)),
        rename_effect(e, m).inputs.len() == e.inputs.len(),
{
    let a = rename_effect(e, m);
    lemma_rename_seq(e.inputs, m);
    lemma_rename_seq(e.outputs, m);
    lemma_concat_contains(seq_names(e.inputs), seq_names(e.outputs));
    lemma_seq_names_has(e.inputs, 0);
    let r = e.inputs[0]->Row_0;
    assert(node_names(e.inputs[0])[0] == r);
    assert(effect_names(e).contains(r));
    assert(a.outputs =~= seq![a.inputs[0]]);
    assert forall|j: int| 1 <= j < a.inputs.len() implies (#[trigger] a.inputs[j]) is Item && a.inputs[j]->Item_0 != a.inputs[0]->Row_0 by {
        let x = e.inputs[j]->Item_0;
        lemma_seq_names_has(e.inputs, j);
        assert(node_names(e.inputs[j])[0] == x);
        assert(a.inputs[j] == rename_node(e.inputs[j], m));
    }
    assert forall|i: int, j: int| 1 <= i < a.inputs.len() && 1 <= j < a.inputs.len() && i != j implies #[trigger] a.inputs[i]->Item_0
        != #[trigger] a.inputs[j]->Item_0 by {
        lemma_seq_names_has(e.inputs, i);
        lemma_seq_names_has(e.inputs, j);
        assert(node_names(e.inputs[i])[0] == e.inputs[i]->Item_0);
        assert(node_names(e.inputs[j])[0] == e.inputs[j]->Item_0);
        assert(a.inputs[i] == rename_node(e.inputs[i], m));
        assert(a.inputs[j] == rename_node(e.inputs[j], m));
    }
}

/// No value named in one effect is named anywhere in the other.
pub open spec fn items_apart(a: SEffect, b: SEffect) -> bool {
    &&& forall|j: int| 1 <= j < a.outputs.len() ==> !effect_names(b).contains((#[trigger] a.outputs[j])->Item_0)
    &&& forall|j: int| 1 <= j < b.outputs.len() ==> !effect_names(a).contains((#[trigger] b.outputs[j])->Item_0)
}

/// What chaining `a`, then `b`, is known to give as `s`: two effects with
/// no inputs give one with a row in and all the values out; two effects
/// that only push values give one that pushes the values of `a`, then those
/// of `b`; an effect that only pushes, then one that only takes, give one
/// that takes what the pushed values do not cover and leaves what `b` does
/// not take.
pub open spec fn chains_to(a: SEffect, b: SEffect, s: SEffect) -> bool {
    &&& (a.inputs.len() == 0 && b.inputs.len() == 0 && no_quoted(a.outputs) && no_quoted(b.outputs)) ==> (s.inputs.len() == 1
        && s.outputs.len() == 1 + a.outputs.len() + b.outputs.len())
    &&& row_push(a) && row_push(b) ==> (s.inputs == seq![SNode::Row(Seq::empty())]
        && s.outputs.len() == a.outputs.len() + b.outputs.len() - 1
        && s.outputs[0] == SNode::Row(Seq::empty())
        && forall|j: int| 1 <= j < s.outputs.len() ==> (#[trigger] s.outputs[j]) is Item)
    &&& row_push(a) && row_push(b) && items_apart(a, b) ==> s.outputs == seq![SNode::Row(Seq::empty())] + a.outputs.drop_first()
        + b.outputs.drop_first()
    &&& row_push(a) && row_take(b) ==> (s.inputs.len() == 1 + (if b.inputs.len() > a.outputs.len() {
        b.inputs.len() - a.outputs.len()
    } else {
        0
    }) && s.outputs.len() == 1 + (if a.outputs.len() > b.inputs.len() {
        a.outputs.len() - b.inputs.len()
    } else {
        0
    }))
}

impl StackEffect {
    /// The effect of running `self`, then `rhs`: the names of the two
    /// effects are renamed apart, both are applied in turn to an abstract
    /// stack, and the stack is read back as an effect.
    pub fn chain(&self, rhs: &StackEffect) -> (r: Result<StackEffect, Error>)
        ensures
            (self@.inputs.len() == 0 && rhs@.inputs.len() == 0 && no_quoted(self@.outputs) && no_quoted(rhs@.outputs)) ==> (r matches Ok(
                se,
            ) && se@.inputs.len() == 1 && se@.outputs.len() == 1 + self@.outputs.len() + rhs@.outputs.len()),
            row_push(self@) && row_push(rhs@) ==> (r matches Ok(se) && se@.inputs == seq![SNode::Row(Seq::empty())]
                && se@.outputs.len() == self@.outputs.len() + rhs@.outputs.len() - 1
                && se@.outputs[0] == SNode::Row(Seq::empty())
                && forall|j: int| 1 <= j < se@.outputs.len() ==> (#[trigger] se@.outputs[j]) is Item),
            row_push(self@) && row_push(rhs@) && items_apart(self@, rhs@) ==> (r matches Ok(se) && se@.outputs == seq![
                SNode::Row(Seq::empty()),
            ] + self@.outputs.drop_first() + rhs@.outputs.drop_first()),
            row_push(self@) && row_take(rhs@) ==> (r matches Ok(se) && se@.inputs.len() == 1 + (if rhs@.inputs.len() > self@.outputs.len() {
                rhs@.inputs.len() - self@.outputs.len()
            } else {
                0
            }) && se@.outputs.len() == 1 + (if self@.outputs.len() > rhs@.inputs.len() {
                self@.outputs.len() - rhs@.inputs.len()
            } else {
                0
            })),
    {
        let (a, b, ma, mb) = rename_effects(self, rhs);
        let ghost leaves = self@.inputs.len() == 0 && rhs@.inputs.len() == 0 && no_quoted(self@.outputs) && no_quoted(rhs@.outputs);
        proof {
            if leaves {
                lemma_renamed_leaves(*self, a, ma@);
                lemma_renamed_leaves(*rhs, b, mb@);
                lemma_view_seq(a.outputs@);
                lemma_view_seq(b.outputs@);
                lemma_view_seq(self.outputs@);
                lemma_view_seq(rhs.outputs@);
                lemma_rename_seq(self@.outputs, crate::effect_names::mapping_view(ma@));
                lemma_rename_seq(rhs@.outputs, crate::effect_names::mapping_view(mb@));
            }
        }
        let ghost pushes = row_push(self@) && row_push(rhs@);
        proof {
            if pushes {
                lemma_row_push_renamed(self@, crate::effect_names::mapping_view(ma@));
                lemma_row_push_renamed(rhs@, crate::effect_names::mapping_view(mb@));
                lemma_rename_seq(self@.outputs, crate::effect_names::mapping_view(ma@));
                lemma_rename_seq(rhs@.outputs, crate::effect_names::mapping_view(mb@));
            }
        }
        let ghost takes = row_push(self@) && row_take(rhs@);
        proof {
            if takes {
                lemma_row_push_renamed(self@, crate::effect_names::mapping_view(ma@));
                lemma_row_take_renamed(rhs@, crate::effect_names::mapping_view(mb@));
                lemma_rename_seq(self@.outputs, crate::effect_names::mapping_view(ma@));
            }
        }
        let mut astack = AbstractStack::new();
        proof {
            assert(open_stack(astack));
        }
        let ghost s0 = astack;
        astack.apply_effect(&a)?;
        let ghost s1 = astack;
        proof {
            if takes {
                assert(s1.outputs.values@.subrange(0, 1) == s0.outputs.values@);
                assert(s1.outputs.values@[0] == 0usize);
                assert(s1.items@.subrange(0, 1) == s0.items@);
                assert(s1.items@[0] == s0.items@[0]);
                assert forall|j: int| 1 <= j < s1.outputs.values@.len() implies #[trigger] s1.items@[s1.outputs.values@[j] as int] is Item by {
                    let jj = j;
                    assert(s1.outputs.values@[1 + jj - 1] == s1.outputs.values@[j]);
                }
                assert(item_stack(s1));
            }
        }
        astack.apply_effect(&b)?;
        proof {
            lemma_ids_nodes_len(astack.items@, astack.inputs.values@, astack.items@.len() as nat);
            lemma_ids_nodes_len(astack.items@, astack.outputs.values@, astack.items@.len() as nat);
            if takes {
                assert(taken(s1, astack, b@.inputs.len() - 1));
                assert(no_quotations(astack.items@));
                lemma_ids_nodes_leaves(astack.items@, astack.inputs.values@, astack.items@.len() as nat);
                lemma_ids_nodes_leaves(astack.items@, astack.outputs.values@, astack.items@.len() as nat);
                assert(s1.inputs.values@ == seq![0usize]);
                assert(s1.outputs.values@.len() == self@.outputs.len());
            }
            if pushes {
                let it = astack.items@;
                let fuel = it.len() as nat;
                assert(it.subrange(0, 1) == s0.items@) by {
                    assert(it.subrange(0, s1.items@.len() as int) == s1.items@);
                    assert(s1.items@.subrange(0, 1) == s0.items@);
                    assert(it.subrange(0, 1) =~= s1.items@.subrange(0, 1));
                }
                assert(it[0] == s0.items@[0]);
                assert(astack.inputs.values@ == seq![0usize]);
                assert(ids_nodes(it, seq![0usize], fuel) == Some(seq![SNode::Row(Seq::empty())])) by {
                    assert(seq![0usize].drop_last() =~= Seq::<ItemRef>::empty());
                    assert(seq![0usize].last() == 0usize);
                    assert(ids_nodes(it, Seq::<ItemRef>::empty(), fuel) == Some(Seq::<SNode>::empty()));
                    assert(item_node(it, 0usize, fuel) == Some(SNode::Row(Seq::empty()))) by {
                        match it[0] {
                            StackItem::Row(n) => {
                                assert(n@ =~= Seq::<char>::empty());
                            },
                            _ => {},
                        }
                    }
                    assert(Seq::<SNode>::empty().push(SNode::Row(Seq::empty())) =~= seq![SNode::Row(Seq::empty())]);
                }
                let outs = astack.outputs.values@;
                assert(no_quotations(it));
                lemma_ids_nodes_leaves(it, outs, fuel);
                lemma_ids_nodes_kinds(it, outs, fuel);
                assert(outs[0] == 0usize) by {
                    assert(outs.subrange(0, s1.outputs.values@.len() as int) == s1.outputs.values@);
                    assert(s1.outputs.values@.subrange(0, 1) == s0.outputs.values@);
                    assert(outs[0] == s1.outputs.values@[0]);
                }
                assert forall|j: int| 1 <= j < outs.len() implies #[trigger] it[outs[j] as int] is Item by {
                    let n1 = s1.outputs.values@.len() as int;
                    if j < n1 {
                        assert(outs[j] == s1.outputs.values@[j]);
                        let jj = j - 1 + 1;
                        assert(s1.outputs.values@[1 + jj - 1] == s1.outputs.values@[j]);
                        assert(s1.items@[s1.outputs.values@[1 + jj - 1] as int] is Item);
                        assert(it[outs[j] as int] == s1.items@[outs[j] as int]) by {
                            assert(it.subrange(0, s1.items@.len() as int)[outs[j] as int] == it[outs[j] as int]);
                        }
                    } else {
                        let jj = j - n1 + 1;
                        assert(outs[n1 + jj - 1] == outs[j]);
                        assert(it[outs[n1 + jj - 1] as int] is Item);
                    }
                }
                let x = ids_nodes(it, outs, fuel)->Some_0;
                assert(x.len() == outs.len());
                assert(item_node(it, outs[0], fuel) == Some(x[0]));
                assert(item_node(it, 0usize, fuel) == Some(SNode::Row(Seq::empty()))) by {
                    match it[0] {
                        StackItem::Row(n) => {
                            assert(n@ =~= Seq::<char>::empty());
                        },
                        _ => {},
                    }
                }
                assert forall|j: int| 1 <= j < x.len() implies #[trigger] x[j] is Item by {
                    assert(item_node(it, outs[j], fuel) == Some(x[j]));
                    assert(it[outs[j] as int] is Item);
                }
                if items_apart(self@, rhs@) {
                    let ma_v = crate::effect_names::mapping_view(ma@);
                    let mb_v = crate::effect_names::mapping_view(mb@);
                    let na = self@.outputs.len() as int;
                    let want = seq![SNode::Row(Seq::empty())] + self@.outputs.drop_first() + rhs@.outputs.drop_first();
                    lemma_concat_contains(seq_names(self@.inputs), seq_names(self@.outputs));
                    lemma_concat_contains(seq_names(rhs@.inputs), seq_names(rhs@.outputs));
                    assert(s1.outputs.values@.len() == na);
                    assert forall|j: int| 0 <= j < x.len() implies x[j] == #[trigger] want[j] by {
                        assert(item_node(it, outs[j], fuel) == Some(x[j]));
                        if j == 0 {
                        } else if j < na {
                            let y = self@.outputs[j]->Item_0;
                            lemma_seq_names_has(self@.outputs, j);
                            assert(node_names(self@.outputs[j])[0] == y);
                            assert(effect_names(self@).contains(y));
                            assert(!effect_names(rhs@).contains(y));
                            assert(map_name(ma_v, y) == y);
                            assert(a@.outputs[j] == rename_node(self@.outputs[j], ma_v));
                            assert(outs[j] == s1.outputs.values@[j]);
                            assert(s1.outputs.values@[1 + j - 1] == s1.outputs.values@[j]);
                            assert(it[outs[j] as int] == s1.items@[outs[j] as int]) by {
                                assert(it.subrange(0, s1.items@.len() as int)[outs[j] as int] == it[outs[j] as int]);
                            }
                            assert(want[j] == self@.outputs[j]);
                        } else {
                            let jj = j - na + 1;
                            let y = rhs@.outputs[jj]->Item_0;
                            lemma_seq_names_has(rhs@.outputs, jj);
                            assert(node_names(rhs@.outputs[jj])[0] == y);
                            assert(effect_names(rhs@).contains(y));
                            assert(!effect_names(self@).contains(y));
                            assert(map_name(mb_v, y) == y);
                            assert(b@.outputs[jj] == rename_node(rhs@.outputs[jj], mb_v));
                            assert(outs[na + jj - 1] == outs[j]);
                            assert(want[j] == rhs@.outputs[jj]);
                        }
                    }
                    assert(x =~= want);
                }
            }
        }
        astack.into_effect()
    }
}

} // verus!
