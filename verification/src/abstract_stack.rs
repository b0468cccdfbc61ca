//! Chaining stack effects by unification on an abstract stack.
//!
//! The abstract stack starts with one anonymous row variable. Applying an
//! effect pops its inputs and pushes its outputs; whenever a popped element
//! meets a different element on the stack, the more general of the two is
//! substituted by the more specific one everywhere. What remains is the
//! combined effect: the inputs that had to be taken from below the starting
//! stack, and the outputs that are left on it.
//!
//! Items live in an arena (`AbstractStack::items`) and are referred to by
//! their index, which is their identity.
use vstd::prelude::*;
use crate::errors::Error;
use crate::stack_effect::{EffectNode, StackEffect, SEffect, SNode, view_node, lemma_view_seq};
use crate::text::{chars_of, chars_eq, copy_chars, append_chars};

verus! {

/// The identity of an item: its index in the arena.
pub type ItemRef = usize;

/// An element of the abstract stack.
#[derive(Debug)]
pub enum StackItem {
    Row(Vec<char>),
    Item(Vec<char>),
    Quotation(Vec<char>, Sequence, Sequence),
}

/// A sequence of items, bottom first.
#[derive(Debug)]
pub struct Sequence {
    pub values: Vec<ItemRef>,
}

/// What each substituted item has been replaced by.
#[derive(Debug)]
pub struct Substitutions {
    pub subs: Vec<(ItemRef, Sequence)>,
}

/// The abstract stack: the arena of items, the inputs taken so far, the
/// outputs currently on the stack and the substitutions made.
#[derive(Debug)]
pub struct AbstractStack {
    pub items: Vec<StackItem>,
    pub inputs: Sequence,
    pub outputs: Sequence,
    pub subs: Substitutions,
}

/// How two items or sequences relate in generality.
#[derive(Debug, PartialEq, Eq, Structural, Clone, Copy)]
pub enum ItemOrd {
    MoreGeneral,
    Equivalent,
    MoreSpecific,
    Invalid,
}

/// Every identity refers to an item of an arena of `n` items.
pub open spec fn ids_ok(s: Seq<ItemRef>, n: int) -> bool {
    forall|i: int| 0 <= i < s.len() ==> #[trigger] s[i] < n
}

pub open spec fn item_ok(it: StackItem, n: int) -> bool {
    match it {
        StackItem::Quotation(_, a, b) => ids_ok(a.values@, n) && ids_ok(b.values@, n),
        _ => true,
    }
}

/// The arena refers only to its own items.
pub open spec fn items_ok(items: Seq<StackItem>) -> bool {
    forall|i: int| 0 <= i < items.len() ==> #[trigger] item_ok(items[i], items.len() as int)
}

pub open spec fn subs_ok(subs: Seq<(ItemRef, Sequence)>, n: int) -> bool {
    forall|i: int| 0 <= i < subs.len() ==> (#[trigger] subs[i]).0 < n && ids_ok(subs[i].1.values@, n)
}

pub open spec fn pairs_ok(pairs: Seq<(ItemRef, Sequence)>, n: int) -> bool {
    subs_ok(pairs, n)
}

proof fn lemma_ids_grow(s: Seq<ItemRef>, n: int, m: int)
    requires
        ids_ok(s, n),
        n <= m,
    ensures
        ids_ok(s, m),
{
}

proof fn lemma_item_grow(it: StackItem, n: int, m: int)
    requires
        item_ok(it, n),
        n <= m,
    ensures
        item_ok(it, m),
{
}

proof fn lemma_items_push(items: Seq<StackItem>, it: StackItem)
    requires
        items_ok(items),
        item_ok(it, items.len() + 1 as int),
    ensures
        items_ok(items.push(it)),
{
    let n: int = items.len() + 1int;
    assert forall|i: int| 0 <= i < n implies #[trigger] item_ok(items.push(it)[i], n) by {
        if i < items.len() {
            assert(item_ok(items[i], items.len() as int));
            assert(items.push(it)[i] == items[i]);
        }
    }
}

proof fn lemma_items_set(items: Seq<StackItem>, q: int, it: StackItem)
    requires
        items_ok(items),
        0 <= q < items.len(),
        item_ok(it, items.len() as int),
    ensures
        items_ok(items.update(q, it)),
{
    let n = items.len();
    assert forall|i: int| 0 <= i < n implies #[trigger] item_ok(items.update(q, it)[i], n as int) by {
        if i != q {
            assert(item_ok(items[i], n as int));
        }
    }
}

proof fn lemma_subs_grow(subs: Seq<(ItemRef, Sequence)>, n: int, m: int)
    requires
        subs_ok(subs, n),
        n <= m,
    ensures
        subs_ok(subs, m),
{
    assert forall|i: int| 0 <= i < subs.len() implies (#[trigger] subs[i]).0 < m && ids_ok(subs[i].1.values@, m) by {
        lemma_ids_grow(subs[i].1.values@, n, m);
    }
}

/// A copy of a list of identities.
pub fn copy_ids(v: &Vec<ItemRef>) -> (r: Vec<ItemRef>)
    ensures
        r@ == v@,
{
    let mut out: Vec<ItemRef> = Vec::new();
    let mut i: usize = 0;
    while i < v.len()
        invariant
            i <= v@.len(),
            out@ == v@.subrange(0, i as int),
        decreases v@.len() - i,
    {
        out.push(v[i]);
        assert(v@.subrange(0, i + 1) == v@.subrange(0, i as int).push(v@[i as int]));
        i = i + 1;
    }
    assert(v@.subrange(0, v@.len() as int) == v@);
    out
}

/// Appends the identities of `b` to `a`.
pub fn extend_ids(a: &mut Vec<ItemRef>, b: &Vec<ItemRef>)
    ensures
        final(a)@ == old(a)@ + b@,
{
    let ghost a0 = a@;
    let mut i: usize = 0;
    while i < b.len()
        invariant
            i <= b@.len(),
            a@ == a0 + b@.subrange(0, i as int),
        decreases b@.len() - i,
    {
        a.push(b[i]);
        assert(b@.subrange(0, i + 1) == b@.subrange(0, i as int).push(b@[i as int]));
        i = i + 1;
    }
    assert(b@.subrange(0, b@.len() as int) == b@);
}

/// Whether `x` occurs in `v`.
pub fn contains_id(v: &Vec<ItemRef>, x: ItemRef) -> (r: bool)
    ensures
        r == v@.contains(x),
{
    let mut i: usize = 0;
    while i < v.len()
        invariant
            i <= v@.len(),
            forall|j: int| 0 <= j < i ==> v@[j] != x,
        decreases v@.len() - i,
    {
        if v[i] == x {
            assert(v@[i as int] == x);
            return true;
        }
        i = i + 1;
    }
    false
}

impl Sequence {
    /// The empty sequence.
    pub fn new() -> (r: Sequence)
        ensures
            r.values@ == Seq::<ItemRef>::empty(),
    {
        Sequence { values: Vec::new() }
    }

    /// The sequence of one item.
    pub fn single(item: ItemRef) -> (r: Sequence)
        ensures
            r.values@ == seq![item],
    {
        let mut v: Vec<ItemRef> = Vec::new();
        v.push(item);
        Sequence { values: v }
    }

    /// A copy of the sequence.
    pub fn copy(&self) -> (r: Sequence)
        ensures
            r.values@ == self.values@,
    {
        Sequence { values: copy_ids(&self.values) }
    }

    /// The number of items.
    pub fn len(&self) -> (r: usize)
        ensures
            r == self.values@.len(),
    {
        self.values.len()
    }

    /// Whether the item occurs in the sequence.
    pub fn contains(&self, item: ItemRef) -> (r: bool)
        ensures
            r == self.values@.contains(item),
    {
        contains_id(&self.values, item)
    }

    /// Appends the items of `other`.
    pub fn extend(&mut self, other: Sequence)
        ensures
            final(self).values@ == old(self).values@ + other.values@,
    {
        extend_ids(&mut self.values, &other.values);
    }

    /// Inserts an item at a position.
    pub fn insert(&mut self, idx: usize, item: ItemRef)
        requires
            idx <= old(self).values@.len(),
        ensures
            final(self).values@ == old(self).values@.insert(idx as int, item),
    {
        self.values.insert(idx, item);
    }

    /// Removes and returns the top item.
    pub fn pop(&mut self) -> (r: Option<ItemRef>)
        ensures
            old(self).values@.len() == 0 ==> r is None && final(self).values@ == old(self).values@,
            old(self).values@.len() > 0 ==> r == Some(old(self).values@.last()) && final(self).values@
                == old(self).values@.drop_last(),
    {
        self.values.pop()
    }

    /// Pushes an item on top.
    pub fn push(&mut self, item: ItemRef)
        ensures
            final(self).values@ == old(self).values@.push(item),
    {
        self.values.push(item);
    }

    /// The bottom item.
    pub fn front(&self) -> (r: Option<ItemRef>)
        ensures
            self.values@.len() == 0 ==> r is None,
            self.values@.len() > 0 ==> r == Some(self.values@[0]),
    {
        if self.values.len() == 0 {
            None
        } else {
            Some(self.values[0])
        }
    }

    /// Removes and returns the bottom item.
    pub fn pop_front(&mut self) -> (r: Option<ItemRef>)
        ensures
            old(self).values@.len() == 0 ==> r is None && final(self).values@ == old(self).values@,
            old(self).values@.len() > 0 ==> r == Some(old(self).values@[0]) && final(self).values@
                == old(self).values@.drop_first(),
    {
        if self.values.len() == 0 {
            None
        } else {
            Some(self.values.remove(0))
        }
    }

    /// The only item of a sequence of length one.
    pub fn into_item(self) -> (r: Result<ItemRef, Error>)
        ensures
            self.values@.len() == 1 ==> r == Ok::<ItemRef, Error>(self.values@[0]),
            self.values@.len() != 1 ==> r == Err::<ItemRef, Error>(Error::IncompatibleStackEffects),
    {
        if self.values.len() == 1 {
            Ok(self.values[0])
        } else {
            Err(Error::IncompatibleStackEffects)
        }
    }
}

impl StackItem {
    /// The name of the item.
    pub fn name(&self) -> (r: &Vec<char>)
        ensures
            r == match self {
                StackItem::Row(n) => n,
                StackItem::Item(n) => n,
                StackItem::Quotation(n, _, _) => n,
            },
    {
        match self {
            StackItem::Row(n) => n,
            StackItem::Item(n) => n,
            StackItem::Quotation(n, _, _) => n,
        }
    }

    /// A new anonymous row variable.
    pub fn anonymous_row(st: &mut AbstractStack) -> (r: ItemRef)
        requires
            old(st).wf(),
        ensures
            final(st).wf(),
            final(st).grows_from(*old(st)),
            r == old(st).items@.len(),
            final(st).items@[r as int] matches StackItem::Row(n) && n@ == Seq::<char>::empty(),
    {
        st.add_item(StackItem::Row(Vec::new()))
    }

    /// A new item variable.
    pub fn item(st: &mut AbstractStack, name: &str) -> (r: ItemRef)
        requires
            old(st).wf(),
        ensures
            final(st).wf(),
            final(st).grows_from(*old(st)),
            r == old(st).items@.len(),
            final(st).items@[r as int] matches StackItem::Item(n) && n@ == name@,
    {
        st.add_item(StackItem::Item(chars_of(name)))
    }

    /// A new row variable.
    pub fn row(st: &mut AbstractStack, name: &str) -> (r: ItemRef)
        requires
            old(st).wf(),
        ensures
            final(st).wf(),
            final(st).grows_from(*old(st)),
            r == old(st).items@.len(),
            final(st).items@[r as int] matches StackItem::Row(n) && n@ == name@,
    {
        st.add_item(StackItem::Row(chars_of(name)))
    }

    /// A new quotation with the given inputs and outputs.
    pub fn quot(st: &mut AbstractStack, name: &str, inputs: &[ItemRef], outputs: &[ItemRef]) -> (r:
        ItemRef)
        requires
            old(st).wf(),
            ids_ok(inputs@, old(st).items@.len() as int),
            ids_ok(outputs@, old(st).items@.len() as int),
        ensures
            final(st).wf(),
            final(st).grows_from(*old(st)),
            r == old(st).items@.len(),
            final(st).items@[r as int] matches StackItem::Quotation(n, a, b) && n@ == name@
                && a.values@ == inputs@ && b.values@ == outputs@,
    {
        let mut a: Vec<ItemRef> = Vec::new();
        let mut i: usize = 0;
        while i < inputs.len()
            invariant
                i <= inputs@.len(),
                a@ == inputs@.subrange(0, i as int),
            decreases inputs@.len() - i,
        {
            a.push(inputs[i]);
            assert(inputs@.subrange(0, i + 1) == inputs@.subrange(0, i as int).push(inputs@[i as int]));
            i = i + 1;
        }
        assert(inputs@.subrange(0, inputs@.len() as int) == inputs@);
        let mut b: Vec<ItemRef> = Vec::new();
        let mut j: usize = 0;
        while j < outputs.len()
            invariant
                j <= outputs@.len(),
                b@ == outputs@.subrange(0, j as int),
            decreases outputs@.len() - j,
        {
            b.push(outputs[j]);
            assert(outputs@.subrange(0, j + 1) == outputs@.subrange(0, j as int).push(outputs@[j as int]));
            j = j + 1;
        }
        assert(outputs@.subrange(0, outputs@.len() as int) == outputs@);
        StackItem::quot_from_seqs(st, name, Sequence { values: a }, Sequence { values: b })
    }

    /// A new quotation with the given input and output sequences.
    pub fn quot_from_seqs(st: &mut AbstractStack, name: &str, inputs: Sequence, outputs: Sequence) -> (r:
        ItemRef)
        requires
            old(st).wf(),
            ids_ok(inputs.values@, old(st).items@.len() as int),
            ids_ok(outputs.values@, old(st).items@.len() as int),
        ensures
            final(st).wf(),
            final(st).grows_from(*old(st)),
            r == old(st).items@.len(),
            final(st).items@[r as int] matches StackItem::Quotation(n, a, b) && n@ == name@
                && a.values@ == inputs.values@ && b.values@ == outputs.values@,
    {
        st.add_item(StackItem::Quotation(chars_of(name), inputs, outputs))
    }
}

impl AbstractStack {
    /// All identities refer to items of the arena.
    pub open spec fn wf(&self) -> bool {
        &&& items_ok(self.items@)
        &&& ids_ok(self.inputs.values@, self.items@.len() as int)
        &&& ids_ok(self.outputs.values@, self.items@.len() as int)
        &&& subs_ok(self.subs.subs@, self.items@.len() as int)
        &&& keys_unique(self.subs.subs@)
    }

    /// The arena of `self` extends that of `old`.
    pub open spec fn grows_from(&self, old: AbstractStack) -> bool {
        self.items@.len() >= old.items@.len()
    }

    /// Adds an item to the arena.
    fn add_item(&mut self, it: StackItem) -> (r: ItemRef)
        requires
            old(self).wf(),
            item_ok(it, old(self).items@.len() as int),
        ensures
            final(self).wf(),
            final(self).items@ == old(self).items@.push(it),
            final(self).inputs == old(self).inputs,
            final(self).outputs == old(self).outputs,
            final(self).subs == old(self).subs,
            r == old(self).items@.len(),
    {
        let n = self.items.len();
        proof {
            let m = n + 1;
            lemma_item_grow(it, n as int, m as int);
            lemma_items_push(self.items@, it);
            lemma_ids_grow(self.inputs.values@, n as int, m as int);
            lemma_ids_grow(self.outputs.values@, n as int, m as int);
            lemma_subs_grow(self.subs.subs@, n as int, m as int);
        }
        self.items.push(it);
        n
    }
}


/// `s` with every occurrence of `a` replaced by the items of `b`.
pub open spec fn spec_replace(s: Seq<ItemRef>, a: ItemRef, b: Seq<ItemRef>) -> Seq<ItemRef>
    decreases s.len(),
{
    if s.len() == 0 {
        Seq::empty()
    } else {
        spec_replace(s.drop_last(), a, b) + (if s.last() == a {
            b
        } else {
            seq![s.last()]
        })
    }
}

/// Replaces every occurrence of `a` in `seq` by the items of `b`, and
/// substitutes likewise inside the quotations that `seq` refers to.
pub fn substitute_in(
    items: &mut Vec<StackItem>,
    seq: &Vec<ItemRef>,
    a: ItemRef,
    b: &Vec<ItemRef>,
    quot_stack: &mut Vec<ItemRef>,
    fuel: usize,
) -> (r: Vec<ItemRef>)
    requires
        items_ok(old(items)@),
        ids_ok(seq@, old(items)@.len() as int),
        ids_ok(b@, old(items)@.len() as int),
    ensures
        items_ok(final(items)@),
        final(items)@.len() == old(items)@.len(),
        ids_ok(r@, old(items)@.len() as int),
        r@ == spec_replace(seq@, a, b@),
        final(quot_stack)@ == old(quot_stack)@,
        no_quotations(old(items)@) ==> final(items)@ == old(items)@,
    decreases fuel, 1int,
{
    let ghost n = items@.len() as int;
    let mut out: Vec<ItemRef> = Vec::new();
    let mut i: usize = 0;
    while i < seq.len()
        invariant
            i <= seq@.len(),
            items_ok(items@),
            items@.len() == n,
            ids_ok(seq@, n),
            ids_ok(b@, n),
            ids_ok(out@, n),
            out@ == spec_replace(seq@.subrange(0, i as int), a, b@),
            quot_stack@ == old(quot_stack)@,
            no_quotations(old(items)@) ==> items@ == old(items)@,
        decreases seq@.len() - i,
    {
        let v = seq[i];
        let ghost pre = seq@.subrange(0, i as int);
        let ghost nxt = seq@.subrange(0, i + 1);
        assert(nxt.drop_last() == pre);
        assert(nxt.last() == v);
        if v == a {
            extend_ids(&mut out, b);
        } else {
            StackItem::substitute(items, v, a, b, quot_stack, fuel);
            out.push(v);
        }
        i = i + 1;
    }
    assert(seq@.subrange(0, seq@.len() as int) == seq@);
    out
}

impl StackItem {
    /// Substitutes `a` by `b` inside the quotation `q`, unless `q` is
    /// already being substituted further up.
    pub fn substitute(
        items: &mut Vec<StackItem>,
        q: ItemRef,
        a: ItemRef,
        b: &Vec<ItemRef>,
        quot_stack: &mut Vec<ItemRef>,
        fuel: usize,
    )
        requires
            items_ok(old(items)@),
            ids_ok(b@, old(items)@.len() as int),
        ensures
            items_ok(final(items)@),
            final(items)@.len() == old(items)@.len(),
            final(quot_stack)@ == old(quot_stack)@,
            (fuel > 0 && q < old(items)@.len() && !old(quot_stack)@.contains(q) && old(items)@[q as int] is Quotation) ==> match (
                old(items)@[q as int],
                final(items)@[q as int],
            ) {
                (StackItem::Quotation(n, i, o), StackItem::Quotation(m, i2, o2)) => m@ == n@ && i2.values@ == spec_replace(
                    i.values@,
                    a,
                    b@,
                ) && o2.values@ == spec_replace(o.values@, a, b@),
                _ => false,
            },
            !(fuel > 0 && q < old(items)@.len() && !old(quot_stack)@.contains(q) && old(items)@[q as int] is Quotation)
                ==> final(items)@ == old(items)@,
        decreases fuel, 0int,
    {
        if fuel == 0 || q >= items.len() {
            return;
        }
        if contains_id(quot_stack, q) {
            return;
        }
        let (name, ins, outs) = match &items[q] {
            StackItem::Quotation(n, i, o) => (copy_chars(n.as_slice()), copy_ids(&i.values), copy_ids(&o.values)),
            _ => {
                return;
            },
        };
        assert(item_ok(items@[q as int], items@.len() as int));
        quot_stack.push(q);
        let ni = substitute_in(items, &ins, a, b, quot_stack, fuel - 1);
        let no = substitute_in(items, &outs, a, b, quot_stack, fuel - 1);
        let it = StackItem::Quotation(name, Sequence { values: ni }, Sequence { values: no });
        proof {
            lemma_items_set(items@, q as int, it);
        }
        items.set(q, it);
        quot_stack.pop();
    }
}

/// How two items relate in generality: rows are most general, then items,
/// then quotations; two quotations are incompatible when their inputs or
/// outputs are (looked into at most `fuel` levels deep).
pub open spec fn item_order(items: Seq<StackItem>, a: ItemRef, b: ItemRef, fuel: nat) -> ItemOrd
    decreases fuel, 0int, 0int,
{
    if a >= items.len() || b >= items.len() {
        ItemOrd::Invalid
    } else {
        match (items[a as int], items[b as int]) {
            (StackItem::Row(_), StackItem::Row(_)) => ItemOrd::Equivalent,
            (StackItem::Item(_), StackItem::Item(_)) => ItemOrd::Equivalent,
            (StackItem::Quotation(_, ia, oa), StackItem::Quotation(_, ib, ob)) => if fuel == 0 {
                ItemOrd::Equivalent
            } else if seq_order(items, ia.values@, ib.values@, (fuel - 1) as nat) == ItemOrd::Invalid {
                ItemOrd::Invalid
            } else if seq_order(items, oa.values@, ob.values@, (fuel - 1) as nat) == ItemOrd::Invalid {
                ItemOrd::Invalid
            } else {
                ItemOrd::Equivalent
            },
            (StackItem::Item(_), StackItem::Quotation(_, _, _)) => ItemOrd::MoreGeneral,
            (StackItem::Quotation(_, _, _), StackItem::Item(_)) => ItemOrd::MoreSpecific,
            (StackItem::Row(_), _) => ItemOrd::MoreGeneral,
            (_, StackItem::Row(_)) => ItemOrd::MoreSpecific,
        }
    }
}

/// How two sequences relate in generality: the first pair of items, from
/// the top, that are not equivalent decides; sequences whose compared items
/// are all equivalent are equivalent if they have the same length and
/// incompatible otherwise.
pub open spec fn seq_order(items: Seq<StackItem>, sa: Seq<ItemRef>, sb: Seq<ItemRef>, fuel: nat) -> ItemOrd
    decreases fuel, 1int, sa.len(),
{
    if sa.len() == 0 || sb.len() == 0 {
        if sa.len() == sb.len() {
            ItemOrd::Equivalent
        } else {
            ItemOrd::Invalid
        }
    } else {
        let c = item_order(items, sa.last(), sb.last(), fuel);
        if c != ItemOrd::Equivalent {
            c
        } else {
            seq_order(items, sa.drop_last(), sb.drop_last(), fuel)
        }
    }
}

/// How two items relate in generality.
pub fn compare_items(items: &Vec<StackItem>, a: ItemRef, b: ItemRef, fuel: usize) -> (r: ItemOrd)
    requires
        items_ok(items@),
        a < items@.len(),
        b < items@.len(),
    ensures
        r == item_order(items@, a, b, fuel as nat),
    decreases fuel, 0int, 0int,
{
    match (&items[a], &items[b]) {
        (StackItem::Row(_), StackItem::Row(_)) => ItemOrd::Equivalent,
        (StackItem::Item(_), StackItem::Item(_)) => ItemOrd::Equivalent,
        (StackItem::Quotation(_, ia, oa), StackItem::Quotation(_, ib, ob)) => {
            assert(item_ok(items@[a as int], items@.len() as int));
            assert(item_ok(items@[b as int], items@.len() as int));
            if fuel == 0 {
                return ItemOrd::Equivalent;
            }
            if compare_sequences(items, &ia.values, &ib.values, fuel - 1) == ItemOrd::Invalid {
                return ItemOrd::Invalid;
            }
            if compare_sequences(items, &oa.values, &ob.values, fuel - 1) == ItemOrd::Invalid {
                return ItemOrd::Invalid;
            }
            ItemOrd::Equivalent
        },
        (StackItem::Item(_), StackItem::Quotation(_, _, _)) => ItemOrd::MoreGeneral,
        (StackItem::Quotation(_, _, _), StackItem::Item(_)) => ItemOrd::MoreSpecific,
        (StackItem::Row(_), _) => ItemOrd::MoreGeneral,
        (_, StackItem::Row(_)) => ItemOrd::MoreSpecific,
    }
}

/// How two sequences relate in generality.
pub fn compare_sequences(items: &Vec<StackItem>, sa: &Vec<ItemRef>, sb: &Vec<ItemRef>, fuel: usize) -> (r:
    ItemOrd)
    requires
        items_ok(items@),
        ids_ok(sa@, items@.len() as int),
        ids_ok(sb@, items@.len() as int),
    ensures
        r == seq_order(items@, sa@, sb@, fuel as nat),
    decreases fuel, 1int, sa@.len(),
{
    let la = sa.len();
    let lb = sb.len();
    let mut k: usize = 0;
    assert(sa@.subrange(0, la as int) == sa@);
    assert(sb@.subrange(0, lb as int) == sb@);
    while k < la && k < lb
        invariant
            la == sa@.len(),
            lb == sb@.len(),
            k <= la,
            k <= lb,
            items_ok(items@),
            ids_ok(sa@, items@.len() as int),
            ids_ok(sb@, items@.len() as int),
            seq_order(items@, sa@, sb@, fuel as nat) == seq_order(
                items@,
                sa@.subrange(0, la - k),
                sb@.subrange(0, lb - k),
                fuel as nat,
            ),
        decreases la - k,
    {
        let ghost xa = sa@.subrange(0, la - k);
        let ghost xb = sb@.subrange(0, lb - k);
        assert(xa.last() == sa@[la - 1 - k]);
        assert(xb.last() == sb@[lb - 1 - k]);
        assert(xa.drop_last() == sa@.subrange(0, la - k - 1));
        assert(xb.drop_last() == sb@.subrange(0, lb - k - 1));
        let c = compare_items(items, sa[la - 1 - k], sb[lb - 1 - k], fuel);
        if c != ItemOrd::Equivalent {
            return c;
        }
        k = k + 1;
    }
    if la == lb {
        ItemOrd::Equivalent
    } else {
        ItemOrd::Invalid
    }
}

/// Pairs as values: each item with the sequence that is to replace it.
pub open spec fn pairs_view(p: Seq<(ItemRef, Sequence)>) -> Seq<(ItemRef, Seq<ItemRef>)> {
    p.map_values(|x: (ItemRef, Sequence)| (x.0, x.1.values@))
}

/// What `match_effects` pairs up: from the top, an item meeting an item or
/// a quotation is replaced by it, a quotation meeting an item replaces it,
/// two quotations pair up their inputs and their outputs (at most `fuel`
/// levels deep), and a row takes all that remains of the other sequence,
/// which ends the pairing.
pub open spec fn spec_match(items: Seq<StackItem>, sa: Seq<ItemRef>, sb: Seq<ItemRef>, fuel: nat) -> Seq<
    (ItemRef, Seq<ItemRef>),
>
    decreases fuel, sa.len(),
{
    if sa.len() == 0 || sb.len() == 0 {
        Seq::empty()
    } else {
        let a = sa.last();
        let b = sb.last();
        let rest = spec_match(items, sa.drop_last(), sb.drop_last(), fuel);
        if a >= items.len() || b >= items.len() {
            Seq::empty()
        } else {
            match (items[a as int], items[b as int]) {
                (StackItem::Item(_), StackItem::Item(_)) => seq![(a, seq![b])] + rest,
                (StackItem::Item(_), StackItem::Quotation(_, _, _)) => seq![(a, seq![b])] + rest,
                (StackItem::Quotation(_, _, _), StackItem::Item(_)) => seq![(b, seq![a])] + rest,
                (StackItem::Quotation(_, ia, oa), StackItem::Quotation(_, ib, ob)) => (if fuel > 0 {
                    spec_match(items, ia.values@, ib.values@, (fuel - 1) as nat) + spec_match(
                        items,
                        oa.values@,
                        ob.values@,
                        (fuel - 1) as nat,
                    )
                } else {
                    Seq::empty()
                }) + rest,
                (StackItem::Row(_), _) => seq![(a, sb)],
                (_, StackItem::Row(_)) => seq![(b, sa)],
            }
        }
    }
}

/// Pairs up the items of two sequences from the top and says which item is
/// to be replaced by what; a row takes all remaining items of the other
/// sequence.
pub fn match_effects(items: &Vec<StackItem>, sa: &Vec<ItemRef>, sb: &Vec<ItemRef>, fuel: usize) -> (r: Vec<
    (ItemRef, Sequence),
>)
    requires
        items_ok(items@),
        ids_ok(sa@, items@.len() as int),
        ids_ok(sb@, items@.len() as int),
    ensures
        pairs_ok(r@, items@.len() as int),
        pairs_view(r@) == spec_match(items@, sa@, sb@, fuel as nat),
    decreases fuel,
{
    let ghost n = items@.len() as int;
    let mut subs: Vec<(ItemRef, Sequence)> = Vec::new();
    let mut i: usize = sa.len();
    let mut j: usize = sb.len();
    assert(sa@.subrange(0, i as int) == sa@);
    assert(sb@.subrange(0, j as int) == sb@);
    assert(pairs_view(subs@) + spec_match(items@, sa@, sb@, fuel as nat) == spec_match(items@, sa@, sb@, fuel as nat));
    while i > 0 && j > 0
        invariant_except_break
            pairs_view(subs@) + spec_match(items@, sa@.subrange(0, i as int), sb@.subrange(0, j as int), fuel as nat)
                == spec_match(items@, sa@, sb@, fuel as nat),
        invariant
            i <= sa@.len(),
            j <= sb@.len(),
            items_ok(items@),
            n == items@.len(),
            ids_ok(sa@, n),
            ids_ok(sb@, n),
            pairs_ok(subs@, n),
        ensures
            pairs_view(subs@) == spec_match(items@, sa@, sb@, fuel as nat),
        decreases i,
    {
        let ghost xa = sa@.subrange(0, i as int);
        let ghost xb = sb@.subrange(0, j as int);
        let ghost before = pairs_view(subs@);
        i = i - 1;
        j = j - 1;
        let a = sa[i];
        let b = sb[j];
        assert(xa.last() == a && xb.last() == b);
        assert(xa.drop_last() == sa@.subrange(0, i as int));
        assert(xb.drop_last() == sb@.subrange(0, j as int));
        let ghost rest = spec_match(items@, sa@.subrange(0, i as int), sb@.subrange(0, j as int), fuel as nat);
        match (&items[a], &items[b]) {
            (StackItem::Item(_), StackItem::Item(_)) => {
                subs.push((a, Sequence::single(b)));
                assert(pairs_view(subs@) == before.push((a, seq![b])));
                assert(before.push((a, seq![b])) + rest == before + (seq![(a, seq![b])] + rest));
            },
            (StackItem::Item(_), StackItem::Quotation(_, _, _)) => {
                subs.push((a, Sequence::single(b)));
                assert(pairs_view(subs@) == before.push((a, seq![b])));
                assert(before.push((a, seq![b])) + rest == before + (seq![(a, seq![b])] + rest));
            },
            (StackItem::Quotation(_, _, _), StackItem::Item(_)) => {
                subs.push((b, Sequence::single(a)));
                assert(pairs_view(subs@) == before.push((b, seq![a])));
                assert(before.push((b, seq![a])) + rest == before + (seq![(b, seq![a])] + rest));
            },
            (StackItem::Quotation(_, ia, oa), StackItem::Quotation(_, ib, ob)) => {
                assert(item_ok(items@[a as int], n));
                assert(item_ok(items@[b as int], n));
                if fuel > 0 {
                    let m1 = match_effects(items, &ia.values, &ib.values, fuel - 1);
                    let m2 = match_effects(items, &oa.values, &ob.values, fuel - 1);
                    append_pairs(&mut subs, m1, items.len());
                    append_pairs(&mut subs, m2, items.len());
                    let ghost v1 = spec_match(items@, ia.values@, ib.values@, (fuel - 1) as nat);
                    let ghost v2 = spec_match(items@, oa.values@, ob.values@, (fuel - 1) as nat);
                    assert(pairs_view(subs@) == before + v1 + v2);
                    assert(before + v1 + v2 + rest == before + ((v1 + v2) + rest));
                } else {
                    assert(before + rest == before + (Seq::<(ItemRef, Seq<ItemRef>)>::empty() + rest));
                }
            },
            (StackItem::Row(_), _) => {
                let mut rest_v: Vec<ItemRef> = Vec::new();
                let end = j + 1;
                let mut k: usize = 0;
                while k < end
                    invariant
                        k <= end,
                        end <= sb@.len(),
                        ids_ok(sb@, n),
                        ids_ok(rest_v@, n),
                        rest_v@ == sb@.subrange(0, k as int),
                    decreases end - k,
                {
                    rest_v.push(sb[k]);
                    assert(sb@.subrange(0, k + 1) == sb@.subrange(0, k as int).push(sb@[k as int]));
                    k = k + 1;
                }
                subs.push((a, Sequence { values: rest_v }));
                assert(pairs_view(subs@) == before.push((a, xb)));
                assert(before.push((a, xb)) == before + seq![(a, xb)]);
                break;
            },
            (_, StackItem::Row(_)) => {
                let mut rest_v: Vec<ItemRef> = Vec::new();
                let end = i + 1;
                let mut k: usize = 0;
                while k < end
                    invariant
                        k <= end,
                        end <= sa@.len(),
                        ids_ok(sa@, n),
                        ids_ok(rest_v@, n),
                        rest_v@ == sa@.subrange(0, k as int),
                    decreases end - k,
                {
                    rest_v.push(sa[k]);
                    assert(sa@.subrange(0, k + 1) == sa@.subrange(0, k as int).push(sa@[k as int]));
                    k = k + 1;
                }
                subs.push((b, Sequence { values: rest_v }));
                assert(pairs_view(subs@) == before.push((b, xa)));
                assert(before.push((b, xa)) == before + seq![(b, xa)]);
                break;
            },
        }
    }
    subs
}

/// Appends pairs, keeping them well formed.
fn append_pairs(dst: &mut Vec<(ItemRef, Sequence)>, src: Vec<(ItemRef, Sequence)>, n: usize)
    requires
        pairs_ok(old(dst)@, n as int),
        pairs_ok(src@, n as int),
    ensures
        pairs_ok(final(dst)@, n as int),
        final(dst)@ == old(dst)@ + src@,
        pairs_view(final(dst)@) == pairs_view(old(dst)@) + pairs_view(src@),
{
    let ghost d0 = dst@;
    let ghost s0 = src@;
    let mut src = src;
    let mut tmp: Vec<(ItemRef, Sequence)> = Vec::new();
    while src.len() > 0
        invariant
            pairs_ok(src@, n as int),
            pairs_ok(tmp@, n as int),
            src@.len() <= s0.len(),
            src@ == s0.subrange(0, src@.len() as int),
            tmp@.len() == s0.len() - src@.len(),
            forall|k: int| 0 <= k < tmp@.len() ==> #[trigger] tmp@[k] == s0[s0.len() - 1 - k],
        decreases src@.len(),
    {
        let ghost l = src@.len() - 1;
        let x = src.pop().unwrap();
        assert(x == s0[l]);
        tmp.push(x);
    }
    let ghost t0 = tmp@;
    while tmp.len() > 0
        invariant
            pairs_ok(tmp@, n as int),
            pairs_ok(dst@, n as int),
            tmp@.len() <= t0.len(),
            tmp@ == t0.subrange(0, tmp@.len() as int),
            t0.len() == s0.len(),
            forall|k: int| 0 <= k < t0.len() ==> #[trigger] t0[k] == s0[s0.len() - 1 - k],
            dst@ == d0 + s0.subrange(0, s0.len() - tmp@.len()),
        decreases tmp@.len(),
    {
        let ghost l = tmp@.len() - 1;
        assert(tmp@[l] == t0[l]);
        let x = tmp.pop().unwrap();
        assert(x == t0[l]);
        assert(x == s0[s0.len() - 1 - l]);
        dst.push(x);
        assert(s0.subrange(0, s0.len() - l) == s0.subrange(0, s0.len() - 1 - l).push(x));
    }
    assert(s0.subrange(0, s0.len() as int) == s0);
    assert(pairs_view(dst@) =~= pairs_view(d0) + pairs_view(s0));
}

/// The number of unvisited nodes.
pub open spec fn count_false(s: Seq<bool>) -> nat
    decreases s.len(),
{
    if s.len() == 0 {
        0
    } else {
        count_false(s.drop_last()) + (if s.last() {
            0nat
        } else {
            1nat
        })
    }
}

proof fn lemma_count_false_update(s: Seq<bool>, i: int)
    requires
        0 <= i < s.len(),
        !s[i],
    ensures
        count_false(s.update(i, true)) + 1 == count_false(s),
    decreases s.len(),
{
    let t = s.update(i, true);
    if i == s.len() - 1 {
        assert(t.drop_last() == s.drop_last());
    } else {
        lemma_count_false_update(s.drop_last(), i);
        assert(t.drop_last() == s.drop_last().update(i, true));
    }
}

/// The substitution recorded for `item`, or the item itself.
pub open spec fn spec_find(subs: Seq<(ItemRef, Sequence)>, item: ItemRef) -> Seq<ItemRef> {
    if exists|k: int| 0 <= k < subs.len() && subs[k].0 == item {
        subs[choose|k: int| 0 <= k < subs.len() && subs[k].0 == item].1.values@
    } else {
        seq![item]
    }
}

/// No substitution refers to another substituted item.
pub open spec fn no_edges(subs: Seq<(ItemRef, Sequence)>) -> bool {
    forall|k: int, c: ItemRef|
        0 <= k < subs.len() && #[trigger] subs[k].1.values@.contains(c) && c != subs[k].0 ==> forall|j: int|
            0 <= j < subs.len() ==> subs[j].0 != c
}

/// Binding a row `a` that is not yet replaced to one value `b` that is not
/// replaced either, where no replacement refers to another replaced item.
pub open spec fn simple_binding(subs: Seq<(ItemRef, Sequence)>, items: Seq<StackItem>, a: ItemRef, b: Seq<ItemRef>) -> bool {
    &&& b.len() == 1
    &&& a < items.len()
    &&& b[0] < items.len()
    &&& items[a as int] is Row
    &&& items[b[0] as int] is Item
    &&& no_edges(subs)
    &&& forall|k: int| 0 <= k < subs.len() ==> #[trigger] subs[k].0 != a && subs[k].0 != b[0]
}

/// Replacing `a` by `b0` everywhere and then adding the replacement of `a`
/// keeps every replacement from referring to another replaced item.
proof fn lemma_simple_no_edges(
    s0: Seq<(ItemRef, Sequence)>,
    s1: Seq<(ItemRef, Sequence)>,
    s2: Seq<(ItemRef, Sequence)>,
    a: ItemRef,
    b0: ItemRef,
)
    requires
        no_edges(s0),
        a != b0,
        forall|k: int| 0 <= k < s0.len() ==> #[trigger] s0[k].0 != a && s0[k].0 != b0,
        s1.len() == s0.len(),
        forall|i: int| 0 <= i < s0.len() ==> (#[trigger] s1[i]).0 == s0[i].0,
        forall|i: int| 0 <= i < s0.len() ==> (#[trigger] s1[i]).1.values@ == spec_replace(s0[i].1.values@, a, seq![b0]),
        s2.len() == s1.len() + 1,
        forall|i: int| 0 <= i < s1.len() ==> #[trigger] s2[i] == s1[i],
        s2[s1.len() as int].0 == a,
        s2[s1.len() as int].1.values@ == seq![b0],
    ensures
        no_edges(s2),
{
    assert forall|k: int, c: ItemRef|
        0 <= k < s2.len() && #[trigger] s2[k].1.values@.contains(c) && c != s2[k].0 implies forall|j: int|
            0 <= j < s2.len() ==> s2[j].0 != c by {
        if k < s1.len() {
            assert(s2[k] == s1[k]);
            lemma_replace_contains(s0[k].1.values@, a, b0, c);
            assert forall|j: int| 0 <= j < s2.len() implies s2[j].0 != c by {
                if j < s1.len() {
                    assert(s2[j] == s1[j]);
                    if c != b0 {
                        assert(s0[k].1.values@.contains(c) && c != s0[k].0);
                    }
                }
            }
        } else {
            assert(c == b0);
            assert forall|j: int| 0 <= j < s2.len() implies s2[j].0 != c by {
                if j < s1.len() {
                    assert(s2[j] == s1[j]);
                }
            }
        }
    }
}

/// Binding `a`, not yet replaced, to a sequence `b` of items that are not
/// replaced either and do not hold `a`, where no replacement refers to
/// another replaced item: a row to one row or to a sequence whose top is
/// more specific than a row, or a value to one other value.
pub open spec fn fresh_binding(subs: Seq<(ItemRef, Sequence)>, items: Seq<StackItem>, a: ItemRef, b: Seq<ItemRef>) -> bool {
    &&& b.len() >= 1
    &&& a < items.len()
    &&& ids_ok(b, items.len() as int)
    &&& (items[a as int] is Row || (items[a as int] is Item && b.len() == 1 && items[b[0] as int] is Item))
    &&& !b.contains(a)
    &&& (b.len() == 1 || !(items[b.last() as int] is Row))
    &&& no_edges(subs)
    &&& forall|k: int| 0 <= k < subs.len() ==> #[trigger] subs[k].0 != a && !b.contains(subs[k].0)
}

/// What a replacement by a sequence contains.
proof fn lemma_replace_contains_seq(s: Seq<ItemRef>, a: ItemRef, b: Seq<ItemRef>, c: ItemRef)
    requires
        spec_replace(s, a, b).contains(c),
    ensures
        b.contains(c) || (s.contains(c) && c != a),
    decreases s.len(),
{
    if s.len() > 0 {
        let p = spec_replace(s.drop_last(), a, b);
        let t = if s.last() == a { b } else { seq![s.last()] };
        let k = choose|k: int| 0 <= k < spec_replace(s, a, b).len() && spec_replace(s, a, b)[k] == c;
        if k < p.len() {
            assert((p + t)[k] == p[k]);
            lemma_replace_contains_seq(s.drop_last(), a, b, c);
            if !b.contains(c) {
                let j = choose|j: int| 0 <= j < s.drop_last().len() && s.drop_last()[j] == c;
                assert(s[j] == c);
            }
        } else {
            assert((p + t)[k] == t[k - p.len()]);
            if s.last() != a {
                assert(s[s.len() - 1] == c);
            } else {
                assert(b[k - p.len()] == c);
            }
        }
    }
}

/// Replacing `a` by `b` everywhere and then adding the replacement of `a`
/// keeps every replacement from referring to another replaced item.
proof fn lemma_fresh_no_edges(
    s0: Seq<(ItemRef, Sequence)>,
    s1: Seq<(ItemRef, Sequence)>,
    s2: Seq<(ItemRef, Sequence)>,
    a: ItemRef,
    b: Seq<ItemRef>,
)
    requires
        no_edges(s0),
        !b.contains(a),
        forall|k: int| 0 <= k < s0.len() ==> #[trigger] s0[k].0 != a && !b.contains(s0[k].0),
        s1.len() == s0.len(),
        forall|i: int| 0 <= i < s0.len() ==> (#[trigger] s1[i]).0 == s0[i].0,
        forall|i: int| 0 <= i < s0.len() ==> (#[trigger] s1[i]).1.values@ == spec_replace(s0[i].1.values@, a, b),
        s2.len() == s1.len() + 1,
        forall|i: int| 0 <= i < s1.len() ==> #[trigger] s2[i] == s1[i],
        s2[s1.len() as int].0 == a,
        s2[s1.len() as int].1.values@ == b,
    ensures
        no_edges(s2),
{
    assert forall|k: int, c: ItemRef|
        0 <= k < s2.len() && #[trigger] s2[k].1.values@.contains(c) && c != s2[k].0 implies forall|j: int|
            0 <= j < s2.len() ==> s2[j].0 != c by {
        if k < s1.len() {
            assert(s2[k] == s1[k]);
            lemma_replace_contains_seq(s0[k].1.values@, a, b, c);
            assert forall|j: int| 0 <= j < s2.len() implies s2[j].0 != c by {
                if j < s1.len() {
                    assert(s2[j] == s1[j]);
                    if !b.contains(c) {
                        assert(s0[k].1.values@.contains(c) && c != s0[k].0);
                    }
                }
            }
        } else {
            assert(b.contains(c));
            assert forall|j: int| 0 <= j < s2.len() implies s2[j].0 != c by {
                if j < s1.len() {
                    assert(s2[j] == s1[j]);
                }
            }
        }
    }
}

/// What a replacement by one item contains.
proof fn lemma_replace_contains(s: Seq<ItemRef>, a: ItemRef, b0: ItemRef, c: ItemRef)
    requires
        spec_replace(s, a, seq![b0]).contains(c),
    ensures
        c == b0 || (s.contains(c) && c != a),
    decreases s.len(),
{
    if s.len() > 0 {
        let p = spec_replace(s.drop_last(), a, seq![b0]);
        let t = if s.last() == a { seq![b0] } else { seq![s.last()] };
        let k = choose|k: int| 0 <= k < spec_replace(s, a, seq![b0]).len() && spec_replace(s, a, seq![b0])[k] == c;
        if k < p.len() {
            assert((p + t)[k] == p[k]);
            lemma_replace_contains(s.drop_last(), a, b0, c);
            if c != b0 {
                let j = choose|j: int| 0 <= j < s.drop_last().len() && s.drop_last()[j] == c;
                assert(s[j] == c);
            }
        } else {
            assert((p + t)[k] == t[k - p.len()]);
            if s.last() != a {
                assert(s[s.len() - 1] == c);
            }
        }
    }
}

/// With no item substituted twice, an item finds its own substitution.
proof fn lemma_find_at(subs: Seq<(ItemRef, Sequence)>, k: int)
    requires
        keys_unique(subs),
        0 <= k < subs.len(),
    ensures
        spec_find(subs, subs[k].0) == subs[k].1.values@,
{
    let x = subs[k].0;
    assert(exists|j: int| 0 <= j < subs.len() && subs[j].0 == x);
    let c = choose|j: int| 0 <= j < subs.len() && subs[j].0 == x;
    assert(c == k);
}

/// No item is substituted twice.
pub open spec fn keys_unique(subs: Seq<(ItemRef, Sequence)>) -> bool {
    forall|i: int, j: int| 0 <= i < subs.len() && 0 <= j < subs.len() && i != j ==> subs[i].0 != subs[j].0
}

impl Substitutions {
    /// No substitutions.
    pub fn new() -> (r: Substitutions)
        ensures
            r.subs@.len() == 0,
    {
        Substitutions { subs: Vec::new() }
    }

    /// The position of the substitution for `item`.
    fn index_of(&self, item: ItemRef) -> (r: Option<usize>)
        ensures
            r matches Some(k) ==> k < self.subs@.len() && self.subs@[k as int].0 == item,
            r is None ==> forall|k: int| 0 <= k < self.subs@.len() ==> self.subs@[k].0 != item,
    {
        let mut k: usize = 0;
        while k < self.subs.len()
            invariant
                k <= self.subs@.len(),
                forall|j: int| 0 <= j < k ==> self.subs@[j].0 != item,
            decreases self.subs@.len() - k,
        {
            if self.subs[k].0 == item {
                return Some(k);
            }
            k = k + 1;
        }
        None
    }

    /// What `item` has been replaced by, or the item itself.
    pub fn find(&self, item: ItemRef) -> (r: Sequence)
        requires
            keys_unique(self.subs@),
        ensures
            r.values@ == spec_find(self.subs@, item),
    {
        match self.index_of(item) {
            Some(k) => {
                proof {
                    let c = choose|j: int| 0 <= j < self.subs@.len() && self.subs@[j].0 == item;
                    assert(c == k as int);
                }
                self.subs[k].1.copy()
            },
            None => Sequence::single(item),
        }
    }

    /// Records that `a` is replaced by `b`.
    fn insert(&mut self, a: ItemRef, b: Sequence)
        requires
            keys_unique(old(self).subs@),
        ensures
            keys_unique(final(self).subs@),
            forall|n: int| subs_ok(old(self).subs@, n) && a < n && ids_ok(b.values@, n) ==> subs_ok(
                final(self).subs@,
                n,
            ),
            forall|x: ItemRef| #[trigger] spec_find(final(self).subs@, x) == if x == a {
                b.values@
            } else {
                spec_find(old(self).subs@, x)
            },
            (forall|k: int| 0 <= k < old(self).subs@.len() ==> #[trigger] old(self).subs@[k].0 != a) ==> final(self).subs@
                == old(self).subs@.push((a, b)),
    {
        let ghost s0 = self.subs@;
        let ghost bv = b.values@;
        match self.index_of(a) {
            Some(k) => {
                self.subs.set(k, (a, b));
                proof {
                    assert forall|x: ItemRef| #[trigger] spec_find(self.subs@, x) == if x == a {
                        bv
                    } else {
                        spec_find(s0, x)
                    } by {
                        if x == a {
                            lemma_find_at(self.subs@, k as int);
                        } else if exists|j: int| 0 <= j < s0.len() && s0[j].0 == x {
                            let j = choose|j: int| 0 <= j < s0.len() && s0[j].0 == x;
                            lemma_find_at(s0, j);
                            assert(self.subs@[j] == s0[j]);
                            lemma_find_at(self.subs@, j);
                        } else {
                            assert forall|j: int| 0 <= j < self.subs@.len() implies self.subs@[j].0 != x by {
                                if j != k {
                                    assert(self.subs@[j] == s0[j]);
                                }
                            }
                        }
                    }
                }
            },
            None => {
                self.subs.push((a, b));
                proof {
                    assert forall|x: ItemRef| #[trigger] spec_find(self.subs@, x) == if x == a {
                        bv
                    } else {
                        spec_find(s0, x)
                    } by {
                        if x == a {
                            lemma_find_at(self.subs@, s0.len() as int);
                        } else if exists|j: int| 0 <= j < s0.len() && s0[j].0 == x {
                            let j = choose|j: int| 0 <= j < s0.len() && s0[j].0 == x;
                            lemma_find_at(s0, j);
                            assert(self.subs@[j] == s0[j]);
                            lemma_find_at(self.subs@, j);
                        } else {
                            assert forall|j: int| 0 <= j < self.subs@.len() implies self.subs@[j].0 != x by {
                                if j < s0.len() {
                                    assert(self.subs@[j] == s0[j]);
                                }
                            }
                        }
                    }
                }
            },
        }
    }

    /// Whether following substitutions from an item can lead back to it.
    pub fn has_cycle(&self) -> (r: bool)
        ensures
            self.subs@.len() == 0 ==> !r,
            no_edges(self.subs@) ==> !r,
    {
        let n = self.subs.len();
        let mut visited: Vec<bool> = Vec::new();
        let mut queue: Vec<usize> = Vec::new();
        let mut k: usize = 0;
        while k < n
            invariant
                k <= n,
                n == self.subs@.len(),
                visited@.len() == k,
                queue@.len() == k,
                forall|j: int| 0 <= j < k ==> #[trigger] queue@[j] < n,
            decreases n - k,
        {
            visited.push(false);
            queue.push(k);
            k = k + 1;
        }
        let mut stack: Vec<usize> = Vec::new();
        while queue.len() > 0
            invariant
                n == self.subs@.len(),
                visited@.len() == n,
                forall|j: int| 0 <= j < queue@.len() ==> #[trigger] queue@[j] < n,
                no_edges(self.subs@) ==> stack@.len() == 0,
            decreases count_false(visited@), queue@.len(),
        {
            let node = queue.pop().unwrap();
            if contains_id(&stack, node) {
                return true;
            }
            if visited[node] {
                stack.pop();
                continue;
            }
            proof {
                lemma_count_false_update(visited@, node as int);
            }
            visited.set(node, true);
            stack.push(node);
            let mut added = false;
            let key = self.subs[node].0;
            let children = &self.subs[node].1.values;
            let mut c: usize = 0;
            while c < children.len()
                invariant
                    c <= children@.len(),
                    n == self.subs@.len(),
                    forall|j: int| 0 <= j < queue@.len() ==> #[trigger] queue@[j] < n,
                    node < n,
                    key == self.subs@[node as int].0,
                    children@ == self.subs@[node as int].1.values@,
                    no_edges(self.subs@) ==> !added,
                decreases children@.len() - c,
            {
                proof {
                    if no_edges(self.subs@) {
                        assert(self.subs@[node as int].1.values@.contains(children@[c as int]));
                    }
                }
                let child = children[c];
                if child != key {
                    match self.index_of(child) {
                        Some(ci) => {
                            queue.push(ci);
                            added = true;
                        },
                        None => {},
                    }
                }
                c = c + 1;
            }
            if !added {
                stack.pop();
            }
        }
        false
    }

    /// Records that `a` is to be replaced by `b`. The most specific of `b`,
    /// `a` itself and what `a` was replaced by before wins; the others are
    /// replaced by it, also inside the substitutions already made. Returns
    /// the substitutions that were added.
    pub fn add_sequence(
        &mut self,
        items: &mut Vec<StackItem>,
        a: ItemRef,
        b: Sequence,
        fuel: usize,
    ) -> (r: Result<Vec<(ItemRef, Sequence)>, Error>)
        requires
            items_ok(old(items)@),
            subs_ok(old(self).subs@, old(items)@.len() as int),
            keys_unique(old(self).subs@),
            a < old(items)@.len(),
            ids_ok(b.values@, old(items)@.len() as int),
        ensures
            items_ok(final(items)@),
            final(items)@.len() == old(items)@.len(),
            subs_ok(final(self).subs@, old(items)@.len() as int),
            keys_unique(final(self).subs@),
            r matches Ok(pairs) ==> pairs_ok(pairs@, old(items)@.len() as int),
            simple_binding(old(self).subs@, old(items)@, a, b.values@) ==> r is Ok,
            simple_binding(old(self).subs@, old(items)@, a, b.values@) ==> (r matches Ok(pairs) && pairs@.len() == 1
                && pairs@[0].0 == a && pairs@[0].1.values@ == seq![b.values@[0]]
                && spec_find(final(self).subs@, a) == seq![b.values@[0]]),
            fresh_binding(old(self).subs@, old(items)@, a, b.values@) ==> (r matches Ok(pairs) && pairs@.len() == 1
                && pairs@[0].0 == a && pairs@[0].1.values@ == b.values@ && spec_find(final(self).subs@, a) == b.values@
                && no_edges(final(self).subs@) && (no_quotations(old(items)@) ==> final(items)@ == old(items)@)
                && final(self).subs@.len() == old(self).subs@.len() + 1 && final(self).subs@.last().0 == a
                && forall|i: int| 0 <= i < old(self).subs@.len() ==> #[trigger] final(self).subs@[i].0 == old(self).subs@[i].0),
        decreases fuel,
    {
        let ghost n = items@.len() as int;
        let ghost bv = b.values@;
        let ghost simple = simple_binding(self.subs@, items@, a, bv);
        let ghost fresh = fresh_binding(self.subs@, items@, a, bv);
        let ghost b0 = bv[0];
        let ghost subs0 = self.subs@;
        let mut cands: Vec<Sequence> = Vec::new();
        match self.index_of(a) {
            Some(k) => {
                cands.push(self.subs[k].1.copy());
            },
            None => {},
        }
        cands.push(Sequence::single(a));
        cands.push(b);
        proof {
            if simple {
                assert(cands@.len() == 2);
                assert(cands@[0].values@ == seq![a]);
                assert(cands@[1].values@ == seq![b0]);
            }
            if fresh {
                assert(cands@.len() == 2);
                assert(cands@[0].values@ == seq![a]);
                assert(cands@[1].values@ == bv);
            }
        }
        // insertion sort, from most general to most specific
        let clen = cands.len();
        let mut i: usize = 1;
        while i < cands.len()
            invariant
                1 <= i <= cands@.len(),
                cands@.len() == clen,
                items_ok(items@),
                n == items@.len(),
                n == old(items)@.len(),
                subs_ok(self.subs@, n),
                keys_unique(self.subs@),
                forall|j: int| 0 <= j < cands@.len() ==> ids_ok(#[trigger] cands@[j].values@, n),
                simple == simple_binding(old(self).subs@, old(items)@, a, bv),
                bv == b.values@,
                b0 == bv[0],
                subs0 == old(self).subs@,
                simple ==> clen == 2 && cands@[0].values@ == seq![a] && cands@[1].values@ == seq![b0]
                    && items@ == old(items)@ && self.subs@ == subs0,
                fresh == fresh_binding(old(self).subs@, old(items)@, a, bv),
                fresh ==> clen == 2 && cands@[0].values@ == seq![a] && cands@[1].values@ == bv
                    && items@ == old(items)@ && self.subs@ == subs0,
            decreases cands@.len() - i,
        {
            let mut j: usize = i;
            while j > 0
                invariant
                    j <= i < cands@.len(),
                    cands@.len() == clen,
                    items_ok(items@),
                    n == items@.len(),
                    n == old(items)@.len(),
                    subs_ok(self.subs@, n),
                    keys_unique(self.subs@),
                    forall|m: int| 0 <= m < cands@.len() ==> ids_ok(#[trigger] cands@[m].values@, n),
                    simple == simple_binding(old(self).subs@, old(items)@, a, bv),
                bv == b.values@,
                b0 == bv[0],
                subs0 == old(self).subs@,
                    simple ==> clen == 2 && cands@[0].values@ == seq![a] && cands@[1].values@ == seq![b0]
                        && items@ == old(items)@ && self.subs@ == subs0 && i == 1 && j == 1,
                    fresh == fresh_binding(old(self).subs@, old(items)@, a, bv),
                    fresh ==> clen == 2 && cands@[0].values@ == seq![a] && cands@[1].values@ == bv
                        && items@ == old(items)@ && self.subs@ == subs0 && i == 1 && j == 1,
                decreases j,
            {
                let c = compare_sequences(items, &cands[j].values, &cands[j - 1].values, items.len());
                proof {
                    if simple {
                        let sa = seq![b0];
                        let sb = seq![a];
                        assert(sa.drop_last() =~= Seq::<ItemRef>::empty());
                        assert(sb.drop_last() =~= Seq::<ItemRef>::empty());
                        assert(items@[b0 as int] is Item);
                        assert(items@[a as int] is Row);
                        assert(item_order(items@, b0, a, items@.len() as nat) == ItemOrd::MoreSpecific);
                        assert(c == ItemOrd::MoreSpecific);
                    }
                    if fresh {
                        let sa = bv;
                        let sb = seq![a];
                        assert(sb.drop_last() =~= Seq::<ItemRef>::empty());
                        assert(sa.last() < items@.len());
                        if sa.len() == 1 && (items@[sa.last() as int] is Row || items@[a as int] is Item) {
                            assert(sa.drop_last() =~= Seq::<ItemRef>::empty());
                            assert(item_order(items@, sa.last(), a, items@.len() as nat) == ItemOrd::Equivalent);
                            assert(seq_order(items@, sa.drop_last(), sb.drop_last(), items@.len() as nat) == ItemOrd::Equivalent);
                            assert(seq_order(items@, sa, sb, items@.len() as nat) == ItemOrd::Equivalent);
                            assert(c == ItemOrd::Equivalent);
                        } else {
                            assert(!(items@[sa.last() as int] is Row));
                            assert(item_order(items@, sa.last(), a, items@.len() as nat) == ItemOrd::MoreSpecific);
                            assert(c == ItemOrd::MoreSpecific);
                        }
                    }
                }
                match c {
                    ItemOrd::Invalid => {
                        return Err(Error::IncompatibleStackEffects);
                    },
                    ItemOrd::MoreGeneral => {
                        let x = cands.remove(j);
                        cands.insert(j - 1, x);
                        j = j - 1;
                    },
                    _ => {
                        break;
                    },
                }
            }
            i = i + 1;
        }
        let target = cands.pop().unwrap();
        let mut out: Vec<(ItemRef, Sequence)> = Vec::new();
        let mut ci: usize = 0;
        while ci < cands.len()
            invariant
                ci <= cands@.len(),
                items_ok(items@),
                n == items@.len(),
                n == old(items)@.len(),
                forall|m: int| 0 <= m < cands@.len() ==> ids_ok(#[trigger] cands@[m].values@, n),
                ids_ok(target.values@, n),
                subs_ok(self.subs@, n),
                keys_unique(self.subs@),
                pairs_ok(out@, n),
                simple == simple_binding(old(self).subs@, old(items)@, a, bv),
                bv == b.values@,
                b0 == bv[0],
                subs0 == old(self).subs@,
                simple ==> cands@.len() == 1 && cands@[0].values@ == seq![a] && target.values@ == seq![b0],
                simple && ci == 0 ==> self.subs@ == subs0 && out@.len() == 0,
                simple && ci == 1 ==> no_edges(self.subs@) && out@.len() == 1 && out@[0].0 == a
                    && out@[0].1.values@ == seq![b0] && spec_find(self.subs@, a) == seq![b0],
                fresh == fresh_binding(old(self).subs@, old(items)@, a, bv),
                fresh ==> cands@.len() == 1 && cands@[0].values@ == seq![a] && target.values@ == bv,
                fresh && no_quotations(old(items)@) ==> items@ == old(items)@,
                fresh && ci == 0 ==> self.subs@ == subs0 && out@.len() == 0,
                fresh && ci == 1 ==> no_edges(self.subs@) && out@.len() == 1 && out@[0].0 == a
                    && out@[0].1.values@ == bv && spec_find(self.subs@, a) == bv
                    && self.subs@.len() == subs0.len() + 1 && self.subs@.last().0 == a
                    && forall|i: int| 0 <= i < subs0.len() ==> #[trigger] self.subs@[i].0 == subs0[i].0,
            decreases cands@.len() - ci,
        {
            let cur = &cands[ci];
            assert(ids_ok(cands@[ci as int].values@, n));
            if cur.values.len() == 1 {
                let x = cur.values[0];
                if target.contains(x) {
                    proof {
                        if simple {
                            assert(target.values@.contains(a));
                            assert(target.values@[0] == a);
                        }
                        if fresh {
                            assert(x == a);
                        }
                    }
                    return Err(Error::IncompatibleStackEffects);
                }
                let ghost sk = self.subs@;
                let mut k: usize = 0;
                while k < self.subs.len()
                    invariant
                        k <= self.subs@.len(),
                        items_ok(items@),
                        n == items@.len(),
                        ids_ok(target.values@, n),
                        subs_ok(self.subs@, n),
                        keys_unique(self.subs@),
                        self.subs@.len() == sk.len(),
                        forall|i: int| 0 <= i < sk.len() ==> (#[trigger] self.subs@[i]).0 == sk[i].0,
                        forall|i: int| 0 <= i < k ==> (#[trigger] self.subs@[i]).1.values@ == spec_replace(sk[i].1.values@, x, target.values@),
                        forall|i: int| k <= i < sk.len() ==> #[trigger] self.subs@[i] == sk[i],
                        fresh == fresh_binding(old(self).subs@, old(items)@, a, bv),
                        fresh && no_quotations(old(items)@) ==> items@ == old(items)@,
                    decreases self.subs@.len() - k,
                {
                    let key = self.subs[k].0;
                    let old_vals = copy_ids(&self.subs[k].1.values);
                    assert(ids_ok(self.subs@[k as int].1.values@, n));
                    let mut qs: Vec<ItemRef> = Vec::new();
                    let fuel2 = items.len();
                    let nv = substitute_in(items, &old_vals, x, &target.values, &mut qs, fuel2);
                    let ghost before = self.subs@;
                    self.subs.set(k, (key, Sequence { values: nv }));
                    proof {
                        assert forall|i: int| 0 <= i < k + 1 implies (#[trigger] self.subs@[i]).1.values@ == spec_replace(sk[i].1.values@, x, target.values@) by {
                            if i < k {
                                assert(self.subs@[i] == before[i]);
                            }
                        }
                        assert forall|i: int| k + 1 <= i < sk.len() implies #[trigger] self.subs@[i] == sk[i] by {
                            assert(self.subs@[i] == before[i]);
                        }
                        assert forall|i: int| 0 <= i < sk.len() implies (#[trigger] self.subs@[i]).0 == sk[i].0 by {
                            assert(self.subs@[i].0 == before[i].0);
                        }
                    }
                    assert forall|i1: int, j1: int| 0 <= i1 < self.subs@.len() && 0 <= j1 < self.subs@.len() && i1 != j1 implies self.subs@[i1].0 != self.subs@[j1].0 by {
                        assert(self.subs@[i1].0 == before[i1].0);
                        assert(self.subs@[j1].0 == before[j1].0);
                    }
                    k = k + 1;
                }
                let ghost sr = self.subs@;
                if !(target.values.len() == 1 && x == target.values[0]) {
                    self.insert(x, target.copy());
                    out.push((x, target.copy()));
                }
                proof {
                    if simple {
                        lemma_simple_no_edges(subs0, sr, self.subs@, a, b0);
                    }
                    if fresh {
                        assert(x == a);
                        assert(target.values@ != seq![a]) by {
                            if target.values@ == seq![a] {
                                assert(bv[0] == a);
                            }
                        }
                        assert forall|i: int| 0 <= i < subs0.len() implies (#[trigger] sr[i]).1.values@ == spec_replace(subs0[i].1.values@, a, bv) by {}
                        lemma_fresh_no_edges(subs0, sr, self.subs@, a, bv);
                    }
                }
            } else {
                let pairs = match_effects(items, &cur.values, &target.values, items.len());
                let mut pi: usize = 0;
                while pi < pairs.len()
                    invariant
                        pi <= pairs@.len(),
                        items_ok(items@),
                        n == items@.len(),
                        n == old(items)@.len(),
                        pairs_ok(pairs@, n),
                        subs_ok(self.subs@, n),
                        keys_unique(self.subs@),
                        pairs_ok(out@, n),
                        !simple_binding(old(self).subs@, old(items)@, a, b.values@),
                        !fresh_binding(old(self).subs@, old(items)@, a, b.values@),
                    decreases pairs@.len() - pi,
                {
                    if fuel == 0 {
                        return Err(Error::InfiniteSubstitution);
                    }
                    let a0 = pairs[pi].0;
                    let b0 = pairs[pi].1.copy();
                    assert(pairs@[pi as int].0 < n && ids_ok(pairs@[pi as int].1.values@, n));
                    let more = self.add_sequence(items, a0, b0, fuel - 1)?;
                    append_pairs(&mut out, more, items.len());
                    pi = pi + 1;
                }
            }
            ci = ci + 1;
        }
        proof {
            if simple {
                assert(ci == 1);
            }
            if fresh {
                assert(ci == 1);
            }
        }
        if self.has_cycle() {
            Err(Error::IncompatibleStackEffects)
        } else {
            Ok(out)
        }
    }
}


/// The first position at which a name is recorded, or -1.
pub open spec fn name_pos(names: Seq<(Vec<char>, Sequence)>, name: Seq<char>) -> int
    decreases names.len(),
{
    if names.len() == 0 {
        -1
    } else if name_pos(names.drop_last(), name) >= 0 {
        name_pos(names.drop_last(), name)
    } else if names.last().0@ == name {
        names.len() - 1
    } else {
        -1
    }
}

proof fn lemma_name_pos_below(names: Seq<(Vec<char>, Sequence)>, name: Seq<char>)
    ensures
        -1 <= name_pos(names, name) < names.len(),
    decreases names.len(),
{
    if names.len() > 0 {
        lemma_name_pos_below(names.drop_last(), name);
    }
}

proof fn lemma_name_pos_hit(names: Seq<(Vec<char>, Sequence)>, name: Seq<char>)
    ensures
        name_pos(names, name) >= 0 ==> names[name_pos(names, name)].0@ == name,
    decreases names.len(),
{
    if names.len() > 0 {
        lemma_name_pos_hit(names.drop_last(), name);
        lemma_name_pos_below(names.drop_last(), name);
        if name_pos(names.drop_last(), name) >= 0 {
            assert(names.drop_last()[name_pos(names.drop_last(), name)] == names[name_pos(names.drop_last(), name)]);
        }
    }
}

/// Replacing an item that does not occur changes nothing.
proof fn lemma_replace_absent(s: Seq<ItemRef>, a: ItemRef, b: Seq<ItemRef>)
    requires
        !s.contains(a),
    ensures
        spec_replace(s, a, b) == s,
    decreases s.len(),
{
    if s.len() > 0 {
        assert(!s.drop_last().contains(a)) by {
            if s.drop_last().contains(a) {
                let j = choose|j: int| 0 <= j < s.drop_last().len() && s.drop_last()[j] == a;
                assert(s[j] == a);
            }
        }
        lemma_replace_absent(s.drop_last(), a, b);
        assert(s.last() != a) by {
            if s.last() == a {
                assert(s[s.len() - 1] == a);
            }
        }
        assert(s.drop_last() + seq![s.last()] =~= s);
    }
}

/// An effect that takes only its row and leaves it with values on top,
/// `(..a -- ..a x y)`, no value named like the row.
pub open spec fn row_push(e: SEffect) -> bool {
    &&& e.inputs.len() == 1
    &&& e.inputs[0] is Row
    &&& e.outputs.len() >= 1
    &&& e.outputs[0] == e.inputs[0]
    &&& forall|j: int| 1 <= j < e.outputs.len() ==> (#[trigger] e.outputs[j]) is Item && e.outputs[j]->Item_0 != e.inputs[0]->Row_0
}

/// A stack on which a row can take all it holds: no quotations, no
/// replacement refers to another replaced item, nothing it holds is
/// replaced, and it holds one row or has something more specific on top.
pub open spec fn open_stack(st: AbstractStack) -> bool {
    &&& no_quotations(st.items@)
    &&& no_edges(st.subs.subs@)
    &&& st.outputs.values@.len() >= 1
    &&& (st.outputs.values@.len() == 1 || !(st.items@[st.outputs.values@.last() as int] is Row))
    &&& forall|i: int, k: int| 0 <= i < st.outputs.values@.len() && 0 <= k < st.subs.subs@.len()
        ==> #[trigger] st.outputs.values@[i] != #[trigger] st.subs.subs@[k].0
}

/// An effect that takes values off its row and puts none back,
/// `(..a x y -- ..a)`, every value named once and none like the row.
pub open spec fn row_take(e: SEffect) -> bool {
    &&& e.inputs.len() >= 1
    &&& e.inputs[0] is Row
    &&& e.outputs == seq![e.inputs[0]]
    &&& forall|j: int| 1 <= j < e.inputs.len() ==> (#[trigger] e.inputs[j]) is Item && e.inputs[j]->Item_0 != e.inputs[0]->Row_0
    &&& forall|i: int, j: int| 1 <= i < e.inputs.len() && 1 <= j < e.inputs.len() && i != j ==> #[trigger] e.inputs[i]->Item_0
        != #[trigger] e.inputs[j]->Item_0
}

/// An open stack that took at least its row and holds its row with values
/// on top.
pub open spec fn item_stack(st: AbstractStack) -> bool {
    &&& open_stack(st)
    &&& st.inputs.values@.len() >= 1
    &&& st.items@[st.outputs.values@[0] as int] is Row
    &&& forall|j: int| 1 <= j < st.outputs.values@.len() ==> #[trigger] st.items@[st.outputs.values@[j] as int] is Item
}

/// `now` is `before` with `d` values taken: first off the top, and once
/// only the row is left, as new inputs from below it.
pub open spec fn taken(before: AbstractStack, now: AbstractStack, d: int) -> bool {
    let olen = before.outputs.values@.len() as int;
    &&& item_stack(now)
    &&& now.items@.len() >= before.items@.len()
    &&& now.items@.subrange(0, before.items@.len() as int) == before.items@
    &&& (d <= olen - 1 ==> now.outputs.values@ == before.outputs.values@.subrange(0, olen - d) && now.inputs.values@
        == before.inputs.values@)
    &&& (d > olen - 1 ==> now.outputs.values@ == seq![before.outputs.values@[0]] && now.inputs.values@.len()
        == before.inputs.values@.len() + d - (olen - 1) && now.inputs.values@[0] == before.inputs.values@[0])
}

proof fn lemma_name_pos(names: Seq<(Vec<char>, Sequence)>, name: Seq<char>, k: int)
    requires
        -1 <= k < names.len(),
        k >= 0 ==> names[k].0@ == name,
        forall|j: int| 0 <= j < names.len() && (k < 0 || j < k) ==> names[j].0@ != name,
    ensures
        name_pos(names, name) == k,
    decreases names.len(),
{
    if names.len() > 0 {
        if k == names.len() - 1 {
            lemma_name_pos(names.drop_last(), name, -1);
        } else {
            lemma_name_pos(names.drop_last(), name, k);
        }
    }
}

/// Looks up the items recorded for a name.
fn lookup_name(names: &Vec<(Vec<char>, Sequence)>, name: &Vec<char>) -> (r: Option<usize>)
    ensures
        r matches Some(k) ==> k < names@.len() && names@[k as int].0@ == name@,
        match r {
            Some(k) => k as int == name_pos(names@, name@),
            None => name_pos(names@, name@) == -1,
        },
{
    let mut k: usize = 0;
    while k < names.len()
        invariant
            k <= names@.len(),
            forall|j: int| 0 <= j < k ==> names@[j].0@ != name@,
        decreases names@.len() - k,
    {
        if chars_eq(names[k].0.as_slice(), name.as_slice()) {
            proof {
                lemma_name_pos(names@, name@, k as int);
            }
            return Some(k);
        }
        k = k + 1;
    }
    proof {
        lemma_name_pos(names@, name@, -1);
    }
    None
}

/// Records the items for a name, replacing what was recorded before.
fn record_name(names: &mut Vec<(Vec<char>, Sequence)>, name: &Vec<char>, seq: Sequence)
    ensures
        forall|n: int| names_ok(old(names)@, n) && ids_ok(seq.values@, n) ==> names_ok(final(names)@, n),
        name_pos(old(names)@, name@) >= 0 ==> {
            let k = name_pos(old(names)@, name@);
            &&& final(names)@.len() == old(names)@.len()
            &&& final(names)@[k].0@ == name@
            &&& final(names)@[k].1 == seq
            &&& forall|j: int| 0 <= j < old(names)@.len() && j != k ==> #[trigger] final(names)@[j] == old(names)@[j]
        },
        single_names(old(names)@) && seq.values@.len() == 1 ==> single_names(final(names)@),
        name_pos(old(names)@, name@) < 0 ==> {
            &&& final(names)@.len() == old(names)@.len() + 1
            &&& final(names)@.drop_last() == old(names)@
            &&& final(names)@.last().0@ == name@
            &&& final(names)@.last().1 == seq
        },
{
    let ghost n0 = names@;
    match lookup_name(names, name) {
        Some(k) => {
            names.set(k, (copy_chars(name.as_slice()), seq));
            proof {
                if single_names(n0) && seq.values@.len() == 1 {
                    assert forall|i: int| 0 <= i < names@.len() implies (#[trigger] names@[i]).1.values@.len() == 1 by {
                        if i != k {
                            assert(names@[i] == n0[i]);
                        }
                    }
                }
            }
        },
        None => {
            names.push((copy_chars(name.as_slice()), seq));
            proof {
                if single_names(n0) && seq.values@.len() == 1 {
                    assert forall|i: int| 0 <= i < names@.len() implies (#[trigger] names@[i]).1.values@.len() == 1 by {
                        if i < n0.len() {
                            assert(names@[i] == n0[i]);
                        }
                    }
                }
            }
        },
    }
}

/// No item is a quotation.
pub open spec fn no_quotations(items: Seq<StackItem>) -> bool {
    forall|i: int| 0 <= i < items.len() ==> !(#[trigger] items[i] is Quotation)
}

/// What popping one target does: a row takes all the outputs; on an empty
/// stack anything else underflows; on a value it is unified with that
/// value; on a row it becomes a new input, second from the bottom, and the
/// row stays; on a quotation it must be a quotation too.
pub open spec fn pop_item_result(pre: AbstractStack, target: ItemRef, post: AbstractStack, r: Result<Sequence, Error>) -> bool {
    {
                let items = pre.items@;
                let outs = pre.outputs.values@;
                if items[target as int] is Row {
                    &&& (r matches Ok(s) ==> s.values@ == outs)
                    &&& (fresh_binding(pre.subs.subs@, items, target, outs) ==> r is Ok && post.outputs.values@.len() == 0
                        && post.inputs.values@ == spec_replace(pre.inputs.values@, target, outs)
                        && spec_find(post.subs.subs@, target) == outs && no_edges(post.subs.subs@)
                        && (no_quotations(items) ==> post.items@ == items)
                        && post.subs.subs@.len() == pre.subs.subs@.len() + 1 && post.subs.subs@.last().0 == target
                        && forall|i: int| 0 <= i < pre.subs.subs@.len() ==> #[trigger] post.subs.subs@[i].0 == pre.subs.subs@[i].0)
                } else if outs.len() == 0 {
                    r == Err::<Sequence, Error>(Error::StackUnderflow)
                } else {
                    match items[outs.last() as int] {
                        StackItem::Row(_) => if pre.inputs.values@.len() >= 1 {
                            r matches Ok(s) && s.values@ == seq![target]
                                && post.inputs.values@ == pre.inputs.values@.insert(1, target)
                                && post.outputs.values@ == outs.drop_last() + spec_find(pre.subs.subs@, outs.last())
                                && post.subs == pre.subs && post.items@ == items
                        } else {
                            r is Err
                        },
                        StackItem::Item(_) => {
                            &&& (r matches Ok(s) ==> s.values@ == seq![outs.last()])
                            &&& (fresh_binding(pre.subs.subs@, items, target, seq![outs.last()]) && !outs.contains(target)
                                && !pre.inputs.values@.contains(target) ==> {
                                &&& r is Ok
                                &&& post.outputs.values@ == outs.drop_last()
                                &&& post.inputs.values@ == pre.inputs.values@
                                &&& no_edges(post.subs.subs@)
                                &&& (no_quotations(items) ==> post.items@ == items)
                                &&& post.subs.subs@.len() == pre.subs.subs@.len() + 1
                                &&& post.subs.subs@.last().0 == target
                                &&& forall|i: int| 0 <= i < pre.subs.subs@.len() ==> #[trigger] post.subs.subs@[i].0 == pre.subs.subs@[i].0
                            })
                        },
                        StackItem::Quotation(_, _, _) => if items[target as int] is Quotation {
                            r matches Ok(s) ==> s.values@ == seq![target]
                        } else {
                            r == Err::<Sequence, Error>(Error::IncompatibleStackEffects)
                        },
                    }
                }
            }
}

/// The names of `after` are those of `before`, and new ones that stand for
/// items from `n` on.
pub open spec fn fresh_names(before: Seq<(Vec<char>, Sequence)>, after: Seq<(Vec<char>, Sequence)>, n: int) -> bool {
    &&& before.len() <= after.len()
    &&& forall|j: int| 0 <= j < before.len() ==> #[trigger] after[j] == before[j]
    &&& forall|j: int, i: int| before.len() <= j < after.len() && 0 <= i < after[j].1.values@.len() ==> #[trigger] after[j].1.values@[i] >= n
}

/// Every name stands for exactly one item.
pub open spec fn single_names(names: Seq<(Vec<char>, Sequence)>) -> bool {
    forall|i: int| 0 <= i < names.len() ==> (#[trigger] names[i]).1.values@.len() == 1
}

pub open spec fn names_ok(names: Seq<(Vec<char>, Sequence)>, n: int) -> bool {
    forall|i: int| 0 <= i < names.len() ==> ids_ok((#[trigger] names[i]).1.values@, n)
}

proof fn lemma_names_grow(names: Seq<(Vec<char>, Sequence)>, n: int, m: int)
    requires
        names_ok(names, n),
        n <= m,
    ensures
        names_ok(names, m),
{
    assert forall|i: int| 0 <= i < names.len() implies ids_ok((#[trigger] names[i]).1.values@, m) by {
        lemma_ids_grow(names[i].1.values@, n, m);
    }
}

impl AbstractStack {
    /// An abstract stack with only the anonymous row on it.
    pub fn new() -> (r: AbstractStack)
        ensures
            r.wf(),
            r.items@.len() == 1,
            r.inputs.values@ == seq![0usize],
            r.outputs.values@ == seq![0usize],
            no_quotations(r.items@),
            r.subs.subs@.len() == 0,
            r.items@[0] matches StackItem::Row(n) && n@.len() == 0,
    {
        let mut items: Vec<StackItem> = Vec::new();
        items.push(StackItem::Row(Vec::new()));
        let r = AbstractStack {
            items,
            inputs: Sequence::single(0),
            outputs: Sequence::single(0),
            subs: Substitutions::new(),
        };
        assert(items_ok(r.items@)) by {
            assert(item_ok(r.items@[0], 1));
        }
        r
    }

    /// Pops the targets, topmost last in the sequence, from the stack.
    pub fn pop(&mut self, x: Sequence) -> (r: Result<Sequence, Error>)
        requires
            old(self).wf(),
            ids_ok(x.values@, old(self).items@.len() as int),
        ensures
            final(self).wf(),
            final(self).grows_from(*old(self)),
            r matches Ok(s) ==> ids_ok(s.values@, final(self).items@.len() as int),
            x.values@.len() == 0 ==> (r matches Ok(s) && s.values@.len() == 0),
            x.values@.len() > 0 && old(self).outputs.values@.len() == 0 && !(old(self).items@[x.values@.last() as int] is Row)
                ==> r == Err::<Sequence, Error>(Error::StackUnderflow),
            x.values@.len() == 1 ==> pop_item_result(*old(self), x.values@[0], *final(self), r),
    {
        self.pop_sequence(x)
    }

    /// Pushes items on the stack.
    pub fn push(&mut self, x: Sequence)
        requires
            old(self).wf(),
            ids_ok(x.values@, old(self).items@.len() as int),
        ensures
            final(self).wf(),
            final(self).items@ == old(self).items@,
            final(self).inputs == old(self).inputs,
            final(self).subs == old(self).subs,
            x.values@.len() != 1 ==> final(self).outputs.values@ == old(self).outputs.values@ + x.values@,
            x.values@.len() == 1 ==> final(self).outputs.values@ == old(self).outputs.values@ + spec_find(
                old(self).subs.subs@,
                x.values@[0],
            ),
    {
        self.push_sequence(x)
    }

    fn pop_sequence(&mut self, targets: Sequence) -> (r: Result<Sequence, Error>)
        requires
            old(self).wf(),
            ids_ok(targets.values@, old(self).items@.len() as int),
        ensures
            final(self).wf(),
            final(self).grows_from(*old(self)),
            r matches Ok(s) ==> ids_ok(s.values@, final(self).items@.len() as int),
            targets.values@.len() == 0 ==> (r matches Ok(s) && s.values@.len() == 0),
            targets.values@.len() > 0 && old(self).outputs.values@.len() == 0
                && !(old(self).items@[targets.values@.last() as int] is Row) ==> r == Err::<Sequence, Error>(Error::StackUnderflow),
            targets.values@.len() == 1 ==> pop_item_result(*old(self), targets.values@[0], *final(self), r),
    {
        let ghost tv = targets.values@;
        let ghost bad = tv.len() > 0 && old(self).outputs.values@.len() == 0 && !(old(self).items@[tv.last() as int] is Row);
        let mut pending = targets;
        let mut result = Sequence::new();
        let ghost mut first = true;
        while pending.len() > 0
            invariant
                self.wf(),
                self.grows_from(*old(self)),
                ids_ok(pending.values@, self.items@.len() as int),
                ids_ok(result.values@, self.items@.len() as int),
                tv == targets.values@,
                bad == (tv.len() > 0 && old(self).outputs.values@.len() == 0 && !(old(self).items@[tv.last() as int] is Row)),
                first ==> pending.values@ == tv && *self == *old(self) && result.values@.len() == 0,
                !first ==> !bad && tv.len() > 0,
                !first && tv.len() == 1 ==> pending.values@.len() == 0 && pop_item_result(
                    *old(self),
                    tv[0],
                    *self,
                    Ok::<Sequence, Error>(result),
                ),
            decreases pending.values@.len(),
        {
            let t = pending.pop().unwrap();
            let ghost n0 = self.items@.len() as int;
            let got = self.pop_item(t)?;
            let ghost g = got;
            proof {
                lemma_ids_grow(pending.values@, n0, self.items@.len() as int);
                lemma_ids_grow(result.values@, n0, self.items@.len() as int);
                first = false;
            }
            let ghost r0 = result;
            result.extend(got);
            proof {
                if tv.len() == 1 {
                    assert(r0.values@.len() == 0);
                    assert(result.values@ =~= g.values@);
                }
            }
        }
        Ok(result)
    }

    /// Pops one target from the stack, unifying it with what is there.
    fn pop_item(&mut self, target: ItemRef) -> (r: Result<Sequence, Error>)
        requires
            old(self).wf(),
            target < old(self).items@.len(),
        ensures
            final(self).wf(),
            final(self).grows_from(*old(self)),
            r matches Ok(s) ==> ids_ok(s.values@, final(self).items@.len() as int),
            pop_item_result(*old(self), target, *final(self), r),
    {
        if let StackItem::Row(_) = &self.items[target] {
            let mut x = Sequence::new();
            std::mem::swap(&mut x, &mut self.outputs);
            let xc = x.copy();
            self.substitute(target, xc)?;
            return Ok(x);
        }
        match self.outputs.pop() {
            None => Err(Error::StackUnderflow),
            Some(top) => {
                assert(top < self.items@.len());
                match &self.items[top] {
                    StackItem::Item(_) => {
                        let ghost outs = old(self).outputs.values@;
                        proof {
                            if !outs.contains(target) {
                                assert(!self.outputs.values@.contains(target)) by {
                                    if self.outputs.values@.contains(target) {
                                        let j = choose|j: int| 0 <= j < self.outputs.values@.len() && self.outputs.values@[j] == target;
                                        assert(outs[j] == target);
                                    }
                                }
                                lemma_replace_absent(self.outputs.values@, target, seq![top]);
                            }
                            if !old(self).inputs.values@.contains(target) {
                                lemma_replace_absent(old(self).inputs.values@, target, seq![top]);
                            }
                        }
                        self.substitute(target, Sequence::single(top))?;
                        Ok(Sequence::single(top))
                    },
                    StackItem::Row(_) => {
                        self.add_input(target)?;
                        self.push_item(top);
                        Ok(Sequence::single(target))
                    },
                    StackItem::Quotation(_, ia, oa) => {
                        let (ib, ob) = match &self.items[target] {
                            StackItem::Quotation(_, ib, ob) => (ib.copy(), ob.copy()),
                            _ => {
                                return Err(Error::IncompatibleStackEffects);
                            },
                        };
                        assert(item_ok(self.items@[top as int], self.items@.len() as int));
                        assert(item_ok(self.items@[target as int], self.items@.len() as int));
                        let fuel = self.items.len();
                        let m1 = match_effects(&self.items, &ia.values, &ib.values, fuel);
                        let m2 = match_effects(&self.items, &oa.values, &ob.values, fuel);
                        let mut subs: Vec<(ItemRef, Sequence)> = Vec::new();
                        append_pairs(&mut subs, m1, self.items.len());
                        append_pairs(&mut subs, m2, self.items.len());
                        let mut k: usize = 0;
                        while k < subs.len()
                            invariant
                                self.wf(),
                                self.grows_from(*old(self)),
                                target < self.items@.len(),
                                pairs_ok(subs@, self.items@.len() as int),
                                old(self).items@[target as int] is Quotation,
                                old(self).outputs.values@.len() > 0,
                                old(self).items@[old(self).outputs.values@.last() as int] is Quotation,
                            decreases subs@.len() - k,
                        {
                            let a = subs[k].0;
                            let b = subs[k].1.copy();
                            let bc = subs[k].1.copy();
                            assert(subs@[k as int].0 < self.items@.len() && ids_ok(subs@[k as int].1.values@, self.items@.len() as int));
                            let ghost n0 = self.items@.len();
                            self.substitute(a, b)?;
                            let mut qs: Vec<ItemRef> = Vec::new();
                            let fuel2 = self.items.len();
                            StackItem::substitute(&mut self.items, target, a, &bc.values, &mut qs, fuel2);
                            proof {
                                assert(self.items@.len() == n0);
                            }
                            k = k + 1;
                        }
                        Ok(Sequence::single(target))
                    },
                }
            },
        }
    }

    /// Pushes an item, or what it has been replaced by.
    pub fn push_item(&mut self, item: ItemRef)
        requires
            old(self).wf(),
            item < old(self).items@.len(),
        ensures
            final(self).wf(),
            final(self).items@ == old(self).items@,
            final(self).inputs == old(self).inputs,
            final(self).subs == old(self).subs,
            final(self).outputs.values@ == old(self).outputs.values@ + spec_find(old(self).subs.subs@, item),
    {
        let s = self.subs.find(item);
        assert(ids_ok(s.values@, self.items@.len() as int)) by {
            if exists|k: int| 0 <= k < self.subs.subs@.len() && self.subs.subs@[k].0 == item {
                let c = choose|k: int| 0 <= k < self.subs.subs@.len() && self.subs.subs@[k].0 == item;
                assert(ids_ok(self.subs.subs@[c].1.values@, self.items@.len() as int));
            }
        }
        self.outputs.extend(s);
    }

    /// Pushes items: a single item as `push_item` does, several as they are.
    pub fn push_sequence(&mut self, items: Sequence)
        requires
            old(self).wf(),
            ids_ok(items.values@, old(self).items@.len() as int),
        ensures
            final(self).wf(),
            final(self).items@ == old(self).items@,
            final(self).inputs == old(self).inputs,
            final(self).subs == old(self).subs,
            items.values@.len() != 1 ==> final(self).outputs.values@ == old(self).outputs.values@ + items.values@,
            items.values@.len() == 1 ==> final(self).outputs.values@ == old(self).outputs.values@ + spec_find(
                old(self).subs.subs@,
                items.values@[0],
            ),
    {
        if items.len() == 1 {
            self.push_item(items.values[0]);
        } else {
            self.outputs.extend(items);
        }
    }

    /// Records an input taken from below the stack, just above the bottom
    /// row.
    pub fn add_input(&mut self, item: ItemRef) -> (r: Result<(), Error>)
        requires
            old(self).wf(),
            item < old(self).items@.len(),
        ensures
            final(self).wf(),
            final(self).items@ == old(self).items@,
            final(self).outputs == old(self).outputs,
            final(self).subs == old(self).subs,
            old(self).inputs.values@.len() >= 1 ==> r is Ok && final(self).inputs.values@ == old(
                self,
            ).inputs.values@.insert(1, item),
            old(self).inputs.values@.len() == 0 ==> r is Err,
    {
        if self.inputs.len() == 0 {
            return Err(Error::IncompatibleStackEffects);
        }
        self.inputs.insert(1, item);
        assert(ids_ok(self.inputs.values@, self.items@.len() as int)) by {
            assert forall|i: int| 0 <= i < self.inputs.values@.len() implies #[trigger] self.inputs.values@[i] < self.items@.len() by {
                if i < 1 {
                    assert(self.inputs.values@[i] == old(self).inputs.values@[i]);
                } else if i > 1 {
                    assert(self.inputs.values@[i] == old(self).inputs.values@[i - 1]);
                }
            }
        }
        Ok(())
    }

    /// Replaces `a` by `b` and applies the resulting substitutions to the
    /// inputs and outputs.
    pub fn substitute(&mut self, a: ItemRef, b: Sequence) -> (r: Result<(), Error>)
        requires
            old(self).wf(),
            a < old(self).items@.len(),
            ids_ok(b.values@, old(self).items@.len() as int),
        ensures
            final(self).wf(),
            final(self).items@.len() == old(self).items@.len(),
            simple_binding(old(self).subs.subs@, old(self).items@, a, b.values@) ==> r is Ok,
            fresh_binding(old(self).subs.subs@, old(self).items@, a, b.values@) ==> {
                &&& r is Ok
                &&& final(self).inputs.values@ == spec_replace(old(self).inputs.values@, a, b.values@)
                &&& final(self).outputs.values@ == spec_replace(old(self).outputs.values@, a, b.values@)
                &&& spec_find(final(self).subs.subs@, a) == b.values@
                &&& no_edges(final(self).subs.subs@)
                &&& (no_quotations(old(self).items@) ==> final(self).items@ == old(self).items@)
                &&& final(self).subs.subs@.len() == old(self).subs.subs@.len() + 1
                &&& final(self).subs.subs@.last().0 == a
                &&& forall|i: int| 0 <= i < old(self).subs.subs@.len() ==> #[trigger] final(self).subs.subs@[i].0 == old(self).subs.subs@[i].0
            },
    {
        let ghost fresh = fresh_binding(self.subs.subs@, self.items@, a, b.values@);
        let ghost bv = b.values@;
        let fuel = 2 * (self.items.len() % 1000000) + 8;
        let pairs = self.subs.add_sequence(&mut self.items, a, b, fuel)?;
        let ghost subs1 = self.subs.subs@;
        let mut k: usize = 0;
        while k < pairs.len()
            invariant
                self.wf(),
                self.items@.len() == old(self).items@.len(),
                pairs_ok(pairs@, self.items@.len() as int),
                k <= pairs@.len(),
                fresh == fresh_binding(old(self).subs.subs@, old(self).items@, a, bv),
                fresh ==> pairs@.len() == 1 && pairs@[0].0 == a && pairs@[0].1.values@ == bv && self.subs.subs@ == subs1
                    && spec_find(subs1, a) == bv && no_edges(subs1)
                    && subs1.len() == old(self).subs.subs@.len() + 1 && subs1.last().0 == a
                    && forall|i: int| 0 <= i < old(self).subs.subs@.len() ==> #[trigger] subs1[i].0 == old(self).subs.subs@[i].0,
                fresh && k == 0 ==> self.inputs == old(self).inputs && self.outputs == old(self).outputs,
                fresh && no_quotations(old(self).items@) ==> self.items@ == old(self).items@,
                fresh && k == 1 ==> self.inputs.values@ == spec_replace(old(self).inputs.values@, a, bv)
                    && self.outputs.values@ == spec_replace(old(self).outputs.values@, a, bv),
            decreases pairs@.len() - k,
        {
            let x = pairs[k].0;
            let y = &pairs[k].1;
            assert(pairs@[k as int].0 < self.items@.len() && ids_ok(pairs@[k as int].1.values@, self.items@.len() as int));
            let ins = copy_ids(&self.inputs.values);
            let outs = copy_ids(&self.outputs.values);
            let mut qs: Vec<ItemRef> = Vec::new();
            let f1 = self.items.len();
            let ni = substitute_in(&mut self.items, &ins, x, &y.values, &mut qs, f1);
            let mut qs2: Vec<ItemRef> = Vec::new();
            let no = substitute_in(&mut self.items, &outs, x, &y.values, &mut qs2, f1);
            self.inputs = Sequence { values: ni };
            self.outputs = Sequence { values: no };
            k = k + 1;
        }
        Ok(())
    }

    /// Turns an element of an effect into items, reusing the items already
    /// recorded for its name.
    fn make_item(&mut self, node: &EffectNode, names: &mut Vec<(Vec<char>, Sequence)>) -> (r: Result<
        Sequence,
        Error,
    >)
        requires
            old(self).wf(),
            names_ok(old(names)@, old(self).items@.len() as int),
        ensures
            final(self).wf(),
            final(self).grows_from(*old(self)),
            final(self).inputs == old(self).inputs,
            final(self).outputs == old(self).outputs,
            names_ok(final(names)@, final(self).items@.len() as int),
            r matches Ok(s) ==> ids_ok(s.values@, final(self).items@.len() as int),
            !(*node is Quotation) ==> r is Ok,
            match *node {
                EffectNode::Item(n) | EffectNode::Row(n) => {
                    let k = name_pos(old(names)@, n@);
                    &&& k >= 0 ==> (r matches Ok(s) && s.values@ == old(names)@[k].1.values@) && final(self).items@
                        == old(self).items@ && final(names)@ == old(names)@
                    &&& k < 0 ==> (r matches Ok(s) && s.values@ == seq![old(self).items@.len() as usize])
                        && final(self).items@.len() == old(self).items@.len() + 1
                        && final(self).items@.drop_last() == old(self).items@
                        && final(names)@.len() == old(names)@.len() + 1
                        && final(names)@.drop_last() == old(names)@
                        && final(names)@.last().0@ == n@
                        && final(names)@.last().1.values@ == seq![old(self).items@.len() as usize]
                        && (if *node is Item {
                            final(self).items@.last() matches StackItem::Item(m) && m@ == n@
                        } else {
                            final(self).items@.last() matches StackItem::Row(m) && m@ == n@
                        })
                },
                _ => true,
            },
            single_names(old(names)@) ==> single_names(final(names)@) && (r matches Ok(s) ==> s.values@.len() == 1),
            !(*node is Quotation) ==> final(self).subs == old(self).subs,
            !(*node is Quotation) ==> fresh_names(old(names)@, final(names)@, old(self).items@.len() as int),
        decreases node,
    {
        match node {
            EffectNode::Item(name) => {
                match lookup_name(names, name) {
                    Some(k) => {
                        assert(ids_ok(names@[k as int].1.values@, self.items@.len() as int));
                        Ok(names[k].1.copy())
                    },
                    None => {
                        let n0 = self.items.len();
                        let id = self.add_item(StackItem::Item(copy_chars(name.as_slice())));
                        proof {
                            lemma_names_grow(names@, n0 as int, self.items@.len() as int);
                        }
                        record_name(names, name, Sequence::single(id));
                        Ok(Sequence::single(id))
                    },
                }
            },
            EffectNode::Row(name) => {
                match lookup_name(names, name) {
                    Some(k) => {
                        assert(ids_ok(names@[k as int].1.values@, self.items@.len() as int));
                        Ok(names[k].1.copy())
                    },
                    None => {
                        let n0 = self.items.len();
                        let id = self.add_item(StackItem::Row(copy_chars(name.as_slice())));
                        proof {
                            lemma_names_grow(names@, n0 as int, self.items@.len() as int);
                        }
                        record_name(names, name, Sequence::single(id));
                        Ok(Sequence::single(id))
                    },
                }
            },
            EffectNode::Quotation(name, se) => {
                let n0 = self.items.len();
                let ins = self.make_items(&se.inputs, names)?;
                let n1 = self.items.len();
                let outs = self.make_items(&se.outputs, names)?;
                proof {
                    lemma_ids_grow(ins@, n1 as int, self.items@.len() as int);
                }
                match lookup_name(names, name) {
                    Some(k) => {
                        assert(ids_ok(names@[k as int].1.values@, self.items@.len() as int));
                        Ok(names[k].1.copy())
                    },
                    None => {
                        let n0 = self.items.len();
                        let id = self.add_item(
                            StackItem::Quotation(copy_chars(name.as_slice()), Sequence { values: ins }, Sequence { values: outs }),
                        );
                        proof {
                            lemma_names_grow(names@, n0 as int, self.items@.len() as int);
                        }
                        record_name(names, name, Sequence::single(id));
                        Ok(Sequence::single(id))
                    },
                }
            },
        }
    }

    /// Turns the elements of an effect's side into one item each.
    fn make_items(&mut self, nodes: &Vec<EffectNode>, names: &mut Vec<(Vec<char>, Sequence)>) -> (r: Result<
        Vec<ItemRef>,
        Error,
    >)
        requires
            old(self).wf(),
            names_ok(old(names)@, old(self).items@.len() as int),
        ensures
            final(self).wf(),
            final(self).grows_from(*old(self)),
            final(self).inputs == old(self).inputs,
            final(self).outputs == old(self).outputs,
            names_ok(final(names)@, final(self).items@.len() as int),
            r matches Ok(s) ==> ids_ok(s@, final(self).items@.len() as int),
            single_names(old(names)@) ==> single_names(final(names)@),
            (single_names(old(names)@) && forall|i: int| 0 <= i < nodes@.len() ==> !(#[trigger] nodes@[i] is Quotation))
                ==> (r matches Ok(s) && s@.len() == nodes@.len()),
        decreases nodes,
    {
        let ghost simple = single_names(names@) && forall|i: int| 0 <= i < nodes@.len() ==> !(#[trigger] nodes@[i] is Quotation);
        let mut out: Vec<ItemRef> = Vec::new();
        let mut i: usize = 0;
        while i < nodes.len()
            invariant
                self.wf(),
                self.grows_from(*old(self)),
                self.inputs == old(self).inputs,
                self.outputs == old(self).outputs,
                names_ok(names@, self.items@.len() as int),
                ids_ok(out@, self.items@.len() as int),
                single_names(old(names)@) ==> single_names(names@),
                simple == (single_names(old(names)@) && forall|i: int| 0 <= i < nodes@.len() ==> !(#[trigger] nodes@[i] is Quotation)),
                i <= nodes@.len(),
                out@.len() == i,
            decreases nodes@.len() - i,
        {
            assert(decreases_to!(nodes => nodes@));
            assert(decreases_to!(nodes@ => nodes@[i as int]));
            let n0 = self.items.len();
            let s = self.make_item(&nodes[i], names)?;
            let x = s.into_item()?;
            proof {
                lemma_ids_grow(out@, n0 as int, self.items@.len() as int);
            }
            out.push(x);
            i = i + 1;
        }
        Ok(out)
    }

    /// Applies an effect: pops its inputs, topmost first, then pushes its
    /// outputs.
    pub fn apply_effect(&mut self, effect: &StackEffect) -> (r: Result<(), Error>)
        requires
            old(self).wf(),
        ensures
            final(self).wf(),
            final(self).grows_from(*old(self)),
            (effect.inputs@.len() == 0 && forall|j: int| 0 <= j < effect.outputs@.len() ==> !(#[trigger] effect.outputs@[j] is Quotation))
                ==> {
                &&& r is Ok
                &&& final(self).inputs == old(self).inputs
                &&& final(self).outputs.values@.len() >= old(self).outputs.values@.len()
                &&& final(self).outputs.values@.subrange(0, old(self).outputs.values@.len() as int) == old(self).outputs.values@
                &&& final(self).outputs.values@.len() == old(self).outputs.values@.len() + effect.outputs@.len()
                &&& final(self).subs == old(self).subs
                &&& no_quotations(old(self).items@) ==> no_quotations(final(self).items@)
            },
            row_push(effect@) && open_stack(*old(self)) ==> {
                let ol = old(self).outputs.values@.len() as int;
                &&& r is Ok
                &&& final(self).inputs.values@ == old(self).inputs.values@
                &&& final(self).outputs.values@.len() == ol + effect@.outputs.len() - 1
                &&& final(self).outputs.values@.subrange(0, ol) == old(self).outputs.values@
                &&& final(self).items@.subrange(0, old(self).items@.len() as int) == old(self).items@
                &&& forall|j: int| 1 <= j < effect@.outputs.len() ==> ((#[trigger] final(self).items@[final(self).outputs.values@[ol + j - 1] as int])
                    matches StackItem::Item(m) && m@ == effect@.outputs[j]->Item_0)
                &&& open_stack(*final(self))
            },
            row_take(effect@) && item_stack(*old(self)) ==> {
                &&& r is Ok
                &&& taken(*old(self), *final(self), effect@.inputs.len() - 1)
            },
    {
        let ghost rp = row_push(effect@) && open_stack(*self);
        let ghost tk = row_take(effect@) && item_stack(*self);
        let ghost ln = effect@.inputs.len() as int;
        let ghost rn = if tk { effect@.inputs[0]->Row_0 } else { Seq::<char>::empty() };
        let ghost mut q = *self;
        let n_in = self.items.len();
        let ghost oi = n_in as int;
        let ghost oo = self.outputs.values@;
        proof {
            lemma_view_seq(effect.inputs@);
            lemma_view_seq(effect.outputs@);
        }
        let mut names: Vec<(Vec<char>, Sequence)> = Vec::new();
        proof {
            if tk {
                assert(self.items@.subrange(0, self.items@.len() as int) =~= self.items@);
                assert(self.outputs.values@.subrange(0, self.outputs.values@.len() as int) =~= self.outputs.values@);
                assert(taken(*self, *self, 0));
            }
        }
        let mut i: usize = effect.inputs.len();
        while i > 0
            invariant
                i <= effect.inputs@.len(),
                self.wf(),
                self.grows_from(*old(self)),
                names_ok(names@, self.items@.len() as int),
                i == effect.inputs@.len() ==> *self == *old(self) && names@.len() == 0,
                rp == (row_push(effect@) && open_stack(*old(self))),
                old(self).wf(),
                oi == old(self).items@.len(),
                oi == n_in,
                oo == old(self).outputs.values@,
                rp ==> effect.inputs@.len() == 1 && view_node(effect.inputs@[0]) == effect@.inputs[0],
                tk == (row_take(effect@) && item_stack(*old(self))),
                ln == effect@.inputs.len(),
                tk ==> rn == effect@.inputs[0]->Row_0,
                tk ==> effect.inputs@.len() == ln && forall|jj: int| 0 <= jj < ln ==> view_node(#[trigger] effect.inputs@[jj]) == effect@.inputs[jj],
                tk && i >= 1 ==> {
                    &&& taken(*old(self), *self, ln - i)
                    &&& names@.len() == ln - i
                    &&& forall|k: int| 0 <= k < ln - i ==> (#[trigger] names@[k]).0@ == effect@.inputs[ln - 1 - k]->Item_0
                },
                tk && i == 0 ==> {
                    &&& taken(*old(self), q, ln - 1)
                    &&& self.outputs.values@.len() == 0
                    &&& self.inputs.values@ == q.inputs.values@
                    &&& self.items@.len() == q.items@.len() + 1
                    &&& self.items@.drop_last() == q.items@
                    &&& no_edges(self.subs.subs@)
                    &&& no_quotations(self.items@)
                    &&& (forall|k: int, jj: int| 0 <= k < self.subs.subs@.len() && 0 <= jj < q.outputs.values@.len()
                        ==> #[trigger] self.subs.subs@[k].0 != #[trigger] q.outputs.values@[jj])
                    &&& names@.len() == ln
                    &&& names@[ln - 1].0@ == rn
                    &&& names@[ln - 1].1.values@ == q.outputs.values@
                    &&& forall|k: int| 0 <= k < ln - 1 ==> (#[trigger] names@[k]).0@ != rn
                },
                rp && i == 0 ==> {
                    &&& self.items@.len() == oi + 1
                    &&& self.items@.drop_last() == old(self).items@
                    &&& self.items@.last() is Row
                    &&& self.inputs.values@ == old(self).inputs.values@
                    &&& self.outputs.values@.len() == 0
                    &&& no_edges(self.subs.subs@)
                    &&& no_quotations(self.items@)
                    &&& self.subs.subs@.len() == old(self).subs.subs@.len() + 1
                    &&& self.subs.subs@.last().0 == oi
                    &&& (forall|k: int| 0 <= k < old(self).subs.subs@.len() ==> #[trigger] self.subs.subs@[k].0 == old(self).subs.subs@[k].0)
                    &&& names@.len() == 1
                    &&& names@[0].0@ == effect@.inputs[0]->Row_0
                    &&& names@[0].1.values@ == oo
                },
            decreases i,
        {
            i = i - 1;
            let node = &effect.inputs[i];
            let ghost s_before = *self;
            let ghost names_b = names@;
            let nb = self.items.len();
            let seq = self.make_item(node, &mut names)?;
            let ghost s_made = *self;
            let ghost names_made = names@;
            proof {
                if tk {
                    let nd = effect.inputs@[i as int];
                    assert(*node == nd);
                    assert(view_node(nd) == effect@.inputs[i as int]);
                    if i >= 1 {
                        match nd {
                            EffectNode::Item(n) => {
                                assert(n@ == effect@.inputs[i as int]->Item_0);
                                assert forall|k: int| 0 <= k < names_b.len() implies #[trigger] names_b[k].0@ != n@ by {
                                    assert(names_b[k].0@ == effect@.inputs[ln - 1 - k]->Item_0);
                                    assert(ln - 1 - k != i);
                                }
                                lemma_name_pos(names_b, n@, -1);
                                assert(seq.values@ == seq![nb]);
                                assert(s_made.items@[nb as int] is Item);
                            },
                            _ => {
                                assert(false);
                            },
                        }
                    } else {
                        match nd {
                            EffectNode::Row(n) => {
                                assert(n@ == rn);
                                assert forall|k: int| 0 <= k < names_b.len() implies #[trigger] names_b[k].0@ != n@ by {
                                    assert(names_b[k].0@ == effect@.inputs[ln - 1 - k]->Item_0);
                                }
                                lemma_name_pos(names_b, n@, -1);
                                assert(seq.values@ == seq![nb]);
                                assert(s_made.items@[nb as int] is Row);
                            },
                            _ => {
                                assert(false);
                            },
                        }
                    }
                    assert(s_made.items@.drop_last() == s_before.items@);
                    assert(s_made.outputs == s_before.outputs && s_made.inputs == s_before.inputs && s_made.subs == s_before.subs);
                    assert(no_quotations(s_made.items@)) by {
                        assert forall|k: int| 0 <= k < s_made.items@.len() implies !(#[trigger] s_made.items@[k] is Quotation) by {
                            if k < nb {
                                assert(s_made.items@[k] == s_before.items@[k]);
                            }
                        }
                    }
                    let outs = s_before.outputs.values@;
                    assert(ids_ok(outs, nb as int));
                    assert(ids_ok(s_before.inputs.values@, nb as int));
                    assert(subs_ok(s_before.subs.subs@, nb as int));
                    assert(!outs.contains(nb)) by {
                        if outs.contains(nb) {
                            let j = choose|j: int| 0 <= j < outs.len() && outs[j] == nb;
                            assert(outs[j] < nb);
                        }
                    }
                    assert(!s_before.inputs.values@.contains(nb)) by {
                        if s_before.inputs.values@.contains(nb) {
                            let j = choose|j: int| 0 <= j < s_before.inputs.values@.len() && s_before.inputs.values@[j] == nb;
                            assert(s_before.inputs.values@[j] < nb);
                        }
                    }
                    assert forall|k: int| 0 <= k < s_made.subs.subs@.len() implies #[trigger] s_made.subs.subs@[k].0 != nb
                        && !outs.contains(s_made.subs.subs@[k].0) by {
                        assert(s_before.subs.subs@[k].0 < nb);
                        if outs.contains(s_made.subs.subs@[k].0) {
                            let j = choose|j: int| 0 <= j < outs.len() && outs[j] == s_made.subs.subs@[k].0;
                            assert(outs[j] != s_before.subs.subs@[k].0);
                        }
                    }
                    assert(forall|j: int| 0 <= j < outs.len() ==> s_made.items@[outs[j] as int] == s_before.items@[outs[j] as int]);
                    if i >= 1 && outs.last() < nb && s_before.items@[outs.last() as int] is Item {
                        let top = outs.last();
                        assert(!seq![top].contains(nb));
                        assert forall|k: int| 0 <= k < s_made.subs.subs@.len() implies #[trigger] s_made.subs.subs@[k].0 != nb
                            && !seq![top].contains(s_made.subs.subs@[k].0) by {
                            assert(!outs.contains(s_made.subs.subs@[k].0));
                            if seq![top].contains(s_made.subs.subs@[k].0) {
                                assert(outs[outs.len() - 1] == top);
                            }
                        }
                        assert(fresh_binding(s_made.subs.subs@, s_made.items@, nb, seq![top]));
                    }
                    if i == 0 {
                        assert(fresh_binding(s_made.subs.subs@, s_made.items@, nb, outs));
                    }
                }
            }
            proof {
                if rp {
                    assert(i == 0);
                    assert(*node == effect.inputs@[0]);
                    let nd = *node;
                    match nd {
                        EffectNode::Row(n) => {
                            assert(name_pos(Seq::<(Vec<char>, Sequence)>::empty(), n@) < 0);
                            assert(seq.values@ == seq![n_in]);
                            let outs = s_made.outputs.values@;
                            assert(outs == oo);
                            assert(s_made.items@[oi] is Row);
                            assert(!outs.contains(n_in)) by {
                                if outs.contains(n_in) {
                                    let j = choose|j: int| 0 <= j < outs.len() && outs[j] == n_in;
                                    assert(ids_ok(oo, oi));
                                    assert(oo[j] < oi);
                                }
                            }
                            assert(s_made.subs == old(self).subs);
                            assert forall|k: int| 0 <= k < s_made.subs.subs@.len() implies #[trigger] s_made.subs.subs@[k].0 != n_in
                                && !outs.contains(s_made.subs.subs@[k].0) by {
                                assert(subs_ok(old(self).subs.subs@, oi));
                                assert(old(self).subs.subs@[k].0 < oi);
                                if outs.contains(s_made.subs.subs@[k].0) {
                                    let j = choose|j: int| 0 <= j < outs.len() && outs[j] == s_made.subs.subs@[k].0;
                                    assert(old(self).outputs.values@[j] != old(self).subs.subs@[k].0);
                                }
                            }
                            if outs.len() > 1 {
                                assert(s_made.items@[outs.last() as int] == old(self).items@[outs.last() as int]);
                            }
                            assert(fresh_binding(s_made.subs.subs@, s_made.items@, n_in, outs));
                        },
                        _ => {},
                    }
                }
            }
            let n0 = self.items.len();
            let got = self.pop_sequence(seq)?;
            proof {
                if tk {
                    let d = ln - 1 - i;
                    let olen = old(self).outputs.values@.len() as int;
                    let outs = s_before.outputs.values@;
                    assert(pop_item_result(s_made, nb, *self, Ok::<Sequence, Error>(got)));
                    if i >= 1 {
                        assert(!(s_made.items@[nb as int] is Row));
                        if d < olen - 1 {
                            assert(outs == old(self).outputs.values@.subrange(0, olen - d));
                            assert(outs.len() >= 2);
                            assert(s_before.items@[outs[outs.len() - 1] as int] is Item);
                            assert(self.outputs.values@ == outs.drop_last());
                            assert(self.items@ == s_made.items@);
                            assert(self.outputs.values@ =~= old(self).outputs.values@.subrange(0, olen - (d + 1)));
                        } else {
                            assert(outs == seq![old(self).outputs.values@[0]]) by {
                                if d == olen - 1 {
                                    assert(old(self).outputs.values@.subrange(0, 1) =~= seq![old(self).outputs.values@[0]]);
                                }
                            }
                            assert(s_before.items@[outs[0] as int] is Row);
                            assert(!(exists|k: int| 0 <= k < s_made.subs.subs@.len() && s_made.subs.subs@[k].0 == outs[0]));
                            assert(spec_find(s_made.subs.subs@, outs[0]) == seq![outs[0]]);
                            assert(self.outputs.values@ =~= outs);
                            assert(self.items@ == s_made.items@);
                        }
                        assert(self.items@.subrange(0, old(self).items@.len() as int) =~= old(self).items@) by {
                            assert forall|k: int| 0 <= k < old(self).items@.len() implies self.items@[k] == old(self).items@[k] by {
                                assert(s_before.items@.subrange(0, old(self).items@.len() as int)[k] == old(self).items@[k]);
                                assert(s_made.items@[k] == s_before.items@[k]);
                            }
                        }
                        assert(open_stack(*self)) by {
                            let so = self.outputs.values@;
                            assert forall|ii: int, k: int| 0 <= ii < so.len() && 0 <= k < self.subs.subs@.len()
                                implies #[trigger] so[ii] != #[trigger] self.subs.subs@[k].0 by {
                                assert(so[ii] == outs[ii]);
                                if k < s_made.subs.subs@.len() {
                                    assert(self.subs.subs@[k].0 == s_made.subs.subs@[k].0);
                                    assert(outs[ii] != s_before.subs.subs@[k].0);
                                }
                            }
                            if so.len() > 1 {
                                assert(so.last() == outs[so.len() - 1]);
                            }
                        }
                        assert(taken(*old(self), *self, d + 1));
                    } else {
                        q = s_before;
                        lemma_replace_absent(s_before.inputs.values@, nb, outs);
                        assert(self.items@ == s_made.items@);
                        assert forall|k: int, jj: int| 0 <= k < self.subs.subs@.len() && 0 <= jj < q.outputs.values@.len()
                            implies #[trigger] self.subs.subs@[k].0 != #[trigger] q.outputs.values@[jj] by {
                            if k < s_made.subs.subs@.len() {
                                assert(self.subs.subs@[k].0 == s_made.subs.subs@[k].0);
                                assert(outs[jj] != s_before.subs.subs@[k].0);
                            } else {
                                assert(self.subs.subs@[k].0 == nb);
                                assert(!outs.contains(nb));
                                assert(outs[jj] != nb);
                            }
                        }
                        assert(got.values@ == outs);
                    }
                }
                lemma_names_grow(names@, n0 as int, self.items@.len() as int);
                if rp {
                    assert(seq.values@ == seq![n_in]);
                    assert(got.values@ == oo);
                    assert(!old(self).inputs.values@.contains(n_in)) by {
                        if old(self).inputs.values@.contains(n_in) {
                            let j = choose|j: int| 0 <= j < old(self).inputs.values@.len() && old(self).inputs.values@[j] == n_in;
                            assert(ids_ok(old(self).inputs.values@, oi));
                        }
                    }
                    lemma_replace_absent(old(self).inputs.values@, n_in, oo);
                    assert(no_quotations(s_made.items@)) by {
                        assert forall|q: int| 0 <= q < s_made.items@.len() implies !(#[trigger] s_made.items@[q] is Quotation) by {
                            if q < oi {
                                assert(s_made.items@[q] == old(self).items@[q]);
                            }
                        }
                    }
                    assert(self.items@ == s_made.items@);
                    assert(self.inputs.values@ == old(self).inputs.values@);
                    assert(names@ == names_made);
                    assert(names_made.len() == 1);
                }
            }
            let ghost names_pre = names@;
            record_name(&mut names, node.name(), got);
            proof {
                if tk {
                    let nd = effect.inputs@[i as int];
                    let d = ln - 1 - i;
                    match nd {
                        EffectNode::Item(n) | EffectNode::Row(n) => {
                            assert(names_pre.len() == d + 1);
                            assert(names_pre[d].0@ == n@);
                            assert forall|k: int| 0 <= k < d implies #[trigger] names_pre[k].0@ != n@ by {
                                assert(names_pre[k] == names_b[k]);
                            }
                            lemma_name_pos(names_pre, n@, d);
                            assert(names@.len() == d + 1);
                            assert(names@[d].0@ == n@);
                            assert(names@[d].1 == got);
                            assert forall|k: int| 0 <= k < d implies #[trigger] names@[k] == names_b[k] by {
                                assert(names_pre[k] == names_b[k]);
                            }
                        },
                        _ => {},
                    }
                    if i == 0 {
                        assert forall|k: int| 0 <= k < ln - 1 implies (#[trigger] names@[k]).0@ != rn by {
                            assert(names@[k] == names_b[k]);
                            assert(names_b[k].0@ == effect@.inputs[ln - 1 - k]->Item_0);
                        }
                    } else {
                        assert forall|k: int| 0 <= k < ln - i implies (#[trigger] names@[k]).0@ == effect@.inputs[ln - 1 - k]->Item_0 by {
                            if k < d {
                                assert(names@[k] == names_b[k]);
                            }
                        }
                    }
                }
                if rp {
                    let nd = effect.inputs@[0];
                    match nd {
                        EffectNode::Row(n) => {
                            assert(names_pre[0].0@ == n@);
                            lemma_name_pos(names_pre, n@, 0);
                            assert(names@[0].1 == got);
                            assert(names@.len() == 1);
                            assert(n@ == effect@.inputs[0]->Row_0);
                        },
                        _ => {},
                    }
                }
            }
        }
        let ghost simple = effect.inputs@.len() == 0 && forall|j: int| 0 <= j < effect.outputs@.len() ==> !(#[trigger] effect.outputs@[j] is Quotation);
        proof {
            if simple {
                assert(*self == *old(self));
                assert(self.outputs.values@.subrange(0, old(self).outputs.values@.len() as int) =~= old(self).outputs.values@);
            }
        }
        let ghost s_a = *self;
        let ghost names_a = names@;
        let ghost rn = effect@.inputs[0]->Row_0;
        let mut j: usize = 0;
        while j < effect.outputs.len()
            invariant
                j <= effect.outputs@.len(),
                self.wf(),
                self.grows_from(*old(self)),
                names_ok(names@, self.items@.len() as int),
                rp == (row_push(effect@) && open_stack(*old(self))),
                old(self).wf(),
                oi == old(self).items@.len(),
                oi == n_in,
                oo == old(self).outputs.values@,
                effect@.outputs.len() == effect.outputs@.len(),
                tk == (row_take(effect@) && item_stack(*old(self))),
                ln == effect@.inputs.len(),
                tk ==> rn == effect@.inputs[0]->Row_0 && effect@.outputs == seq![effect@.inputs[0]],
                tk ==> {
                    &&& taken(*old(self), q, ln - 1)
                    &&& s_a.outputs.values@.len() == 0
                    &&& s_a.inputs.values@ == q.inputs.values@
                    &&& s_a.items@.len() == q.items@.len() + 1
                    &&& s_a.items@.drop_last() == q.items@
                    &&& no_edges(s_a.subs.subs@)
                    &&& no_quotations(s_a.items@)
                    &&& (forall|k: int, jj: int| 0 <= k < s_a.subs.subs@.len() && 0 <= jj < q.outputs.values@.len()
                        ==> #[trigger] s_a.subs.subs@[k].0 != #[trigger] q.outputs.values@[jj])
                    &&& names_a.len() == ln
                    &&& names_a[ln - 1].0@ == rn
                    &&& names_a[ln - 1].1.values@ == q.outputs.values@
                    &&& forall|k: int| 0 <= k < ln - 1 ==> (#[trigger] names_a[k]).0@ != rn
                },
                tk && j == 0 ==> *self == s_a && names@ == names_a,
                tk && j == 1 ==> self.outputs.values@ == q.outputs.values@ && self.inputs == s_a.inputs && self.subs == s_a.subs
                    && self.items@ == s_a.items@,
                rp ==> rn == effect@.inputs[0]->Row_0,
                rp ==> forall|jj: int| 0 <= jj < effect.outputs@.len() ==> view_node(#[trigger] effect.outputs@[jj]) == effect@.outputs[jj],
                rp ==> {
                    &&& s_a.items@.len() == oi + 1
                    &&& s_a.items@.drop_last() == old(self).items@
                    &&& no_edges(s_a.subs.subs@)
                    &&& subs_ok(s_a.subs.subs@, oi + 1)
                    &&& s_a.subs.subs@.len() == old(self).subs.subs@.len() + 1
                    &&& s_a.subs.subs@.last().0 == oi
                    &&& (forall|k: int| 0 <= k < old(self).subs.subs@.len() ==> #[trigger] s_a.subs.subs@[k].0 == old(self).subs.subs@[k].0)
                    &&& names_a.len() == 1
                    &&& names_a[0].0@ == rn
                    &&& names_a[0].1.values@ == oo
                },
                rp ==> {
                    &&& self.inputs.values@ == old(self).inputs.values@
                    &&& self.subs == s_a.subs
                    &&& self.items@.len() >= oi + 1
                    &&& self.items@.subrange(0, oi + 1) == s_a.items@
                    &&& no_quotations(self.items@)
                    &&& names@.len() >= 1
                    &&& names@[0] == names_a[0]
                    &&& forall|k: int| 1 <= k < names@.len() ==> (#[trigger] names@[k]).1.values@.len() == 1
                        && oi + 1 <= names@[k].1.values@[0] < self.items@.len()
                        && names@[k].0@ != rn
                        && (self.items@[names@[k].1.values@[0] as int] matches StackItem::Item(m) && m@ == names@[k].0@)
                    &&& (j == 0 ==> self.outputs.values@.len() == 0)
                    &&& (j >= 1 ==> self.outputs.values@.len() == oo.len() + j - 1 && self.outputs.values@.subrange(0, oo.len() as int) == oo
                        && forall|jj: int| 1 <= jj < j ==> oi + 1 <= #[trigger] self.outputs.values@[oo.len() + jj - 1] < self.items@.len()
                            && (self.items@[self.outputs.values@[oo.len() + jj - 1] as int] matches StackItem::Item(m) && m@ == effect@.outputs[jj]->Item_0))
                },
                simple == (effect.inputs@.len() == 0 && forall|j: int| 0 <= j < effect.outputs@.len() ==> !(#[trigger] effect.outputs@[j] is Quotation)),
                simple ==> single_names(names@) && self.inputs == old(self).inputs
                    && (no_quotations(old(self).items@) ==> no_quotations(self.items@))
                    && self.outputs.values@.len() >= old(self).outputs.values@.len()
                    && self.outputs.values@.subrange(0, old(self).outputs.values@.len() as int) == old(self).outputs.values@,
                simple ==> self.subs == old(self).subs && self.outputs.values@.len() == old(self).outputs.values@.len() + j
                    && subs_ok(old(self).subs.subs@, old(self).items@.len() as int)
                    && forall|k: int, i: int| 0 <= k < names@.len() && 0 <= i < names@[k].1.values@.len()
                        ==> #[trigger] names@[k].1.values@[i] >= old(self).items@.len(),
            decreases effect.outputs@.len() - j,
        {
            let ghost o0 = self.outputs.values@;
            let ghost it0 = self.items@;
            let ghost names0 = names@;
            assert(simple ==> forall|k: int, i: int| 0 <= k < names0.len() && 0 <= i < names0[k].1.values@.len()
                ==> #[trigger] names0[k].1.values@[i] >= old(self).items@.len());
            assert(simple ==> it0.len() >= old(self).items@.len());
            let n_before = self.items.len();
            let ghost jj0 = j as int;
            proof {
                if rp {
                    assert(view_node(effect.outputs@[jj0]) == effect@.outputs[jj0]);
                    if jj0 == 0 {
                        assert(effect@.outputs[0] == effect@.inputs[0]);
                        assert(!(effect.outputs@[0] is Quotation));
                    } else {
                        assert(effect@.outputs[jj0] is Item);
                        assert(!(effect.outputs@[jj0] is Quotation));
                    }
                }
            }
            let seq = self.make_item(&effect.outputs[j], &mut names)?;
            proof {
                if rp {
                    let nd = effect.outputs@[jj0];
                    if jj0 == 0 {
                        match nd {
                            EffectNode::Row(n) => {
                                assert(n@ == rn);
                                lemma_name_pos(names0, n@, 0);
                                assert(seq.values@ == oo);
                                assert(self.items@ == it0 && names@ == names0);
                            },
                            _ => {
                                assert(false);
                            },
                        }
                    } else {
                        match nd {
                            EffectNode::Item(n) => {
                                assert(n@ == effect@.outputs[jj0]->Item_0);
                                assert(n@ != rn);
                                let kk = name_pos(names0, n@);
                                lemma_name_pos_below(names0, n@);
                                lemma_name_pos_hit(names0, n@);
                                if kk >= 0 {
                                    assert(kk != 0);
                                    assert(seq.values@ == names0[kk].1.values@);
                                    assert(self.items@ == it0 && names@ == names0);
                                    assert(names0[kk].1.values@.len() == 1);
                                    assert(oi + 1 <= seq.values@[0] < self.items@.len());
                                    assert(self.items@[seq.values@[0] as int] matches StackItem::Item(m) && m@ == n@);
                                } else {
                                    assert(seq.values@ == seq![n_before]);
                                    assert(self.items@.drop_last() == it0);
                                    assert(self.items@[n_before as int] matches StackItem::Item(m) && m@ == n@);
                                    assert forall|k: int| 1 <= k < names@.len() implies (#[trigger] names@[k]).1.values@.len() == 1
                                        && oi + 1 <= names@[k].1.values@[0] < self.items@.len()
                                        && names@[k].0@ != rn
                                        && (self.items@[names@[k].1.values@[0] as int] matches StackItem::Item(m) && m@ == names@[k].0@) by {
                                        if k < names0.len() {
                                            assert(names@[k] == names@.drop_last()[k]);
                                            assert(names@[k] == names0[k]);
                                            assert(self.items@[names0[k].1.values@[0] as int] == it0[names0[k].1.values@[0] as int]);
                                        }
                                    }
                                    assert(names@[0] == names0[0]);
                                    assert forall|i: int| 0 <= i < self.items@.len() implies !(#[trigger] self.items@[i] is Quotation) by {
                                        if i < it0.len() {
                                            assert(self.items@[i] == it0[i]);
                                        }
                                    }
                                    assert(self.items@.subrange(0, oi + 1) =~= it0.subrange(0, oi + 1));
                                }
                            },
                            _ => {
                                assert(false);
                            },
                        }
                    }
                }
            }
            proof {
                if simple {
                    assert(!(effect.outputs@[j as int] is Quotation));
                    assert(fresh_names(names0, names@, it0.len() as int));
                    assert forall|k: int, i: int| 0 <= k < names@.len() && 0 <= i < names@[k].1.values@.len()
                        implies #[trigger] names@[k].1.values@[i] >= old(self).items@.len() by {
                        if k < names0.len() {
                            assert(names@[k] == names0[k]);
                        }
                    }
                    assert(seq.values@.len() == 1);
                    match effect.outputs@[j as int] {
                        EffectNode::Item(n) | EffectNode::Row(n) => {
                            let kk = name_pos(names0, n@);
                            lemma_name_pos_below(names0, n@);
                            if kk >= 0 {
                                assert(seq.values@ == names0[kk].1.values@);
                                assert(names0[kk].1.values@.len() == 1);
                                assert(names0[kk].1.values@[0] >= old(self).items@.len());
                                assert(seq.values@[0] >= old(self).items@.len());
                            } else {
                                assert(seq.values@ == seq![n_before]);
                                assert(seq.values@[0] >= old(self).items@.len());
                            }
                        },
                        _ => {},
                    }
                    let x = seq.values@[0];
                    assert(!(exists|k: int| 0 <= k < self.subs.subs@.len() && self.subs.subs@[k].0 == x));
                    assert(spec_find(self.subs.subs@, x) == seq![x]);
                }
            }
            proof {
                if simple && no_quotations(it0) {
                    assert(!(effect.outputs@[j as int] is Quotation));
                    if self.items@.len() > it0.len() {
                        assert forall|i: int| 0 <= i < self.items@.len() implies !(#[trigger] self.items@[i] is Quotation) by {
                            if i < it0.len() {
                                assert(self.items@[i] == self.items@.drop_last()[i]);
                            }
                        }
                    }
                }
            }
            proof {
                if tk {
                    assert(jj0 == 0);
                    let nd = effect.outputs@[0];
                    assert(view_node(nd) == effect@.outputs[0]);
                    match nd {
                        EffectNode::Row(n) => {
                            assert(n@ == rn);
                            lemma_name_pos(names_a, n@, ln - 1);
                            assert(seq.values@ == q.outputs.values@);
                        },
                        _ => {
                            assert(false);
                        },
                    }
                }
            }
            let ghost seqv = seq.values@;
            self.push_sequence(seq);
            proof {
                if tk {
                    let qo = q.outputs.values@;
                    if qo.len() == 1 {
                        assert(!(exists|k: int| 0 <= k < s_a.subs.subs@.len() && s_a.subs.subs@[k].0 == qo[0]));
                        assert(spec_find(s_a.subs.subs@, qo[0]) == seq![qo[0]]);
                    }
                    assert(self.outputs.values@ =~= qo);
                }
            }
            proof {
                if simple {
                    assert(self.outputs.values@.subrange(0, old(self).outputs.values@.len() as int) =~= o0.subrange(0, old(self).outputs.values@.len() as int));
                }
                if rp {
                    let subs_a = s_a.subs.subs@;
                    if jj0 == 0 {
                        assert(seqv == oo);
                        if oo.len() == 1 {
                            assert(!(exists|k: int| 0 <= k < subs_a.len() && subs_a[k].0 == oo[0])) by {
                                if exists|k: int| 0 <= k < subs_a.len() && subs_a[k].0 == oo[0] {
                                    let k = choose|k: int| 0 <= k < subs_a.len() && subs_a[k].0 == oo[0];
                                    if k < old(self).subs.subs@.len() {
                                        assert(subs_a[k].0 == old(self).subs.subs@[k].0);
                                        assert(old(self).outputs.values@[0] != old(self).subs.subs@[k].0);
                                    } else {
                                        assert(subs_a[k].0 == oi);
                                        assert(ids_ok(oo, oi));
                                        assert(oo[0] < oi);
                                    }
                                }
                            }
                            assert(spec_find(subs_a, oo[0]) == seq![oo[0]]);
                            assert(self.outputs.values@ =~= oo);
                        } else {
                            assert(self.outputs.values@ =~= oo);
                        }
                        assert(self.outputs.values@.subrange(0, oo.len() as int) =~= oo);
                    } else {
                        let x = seqv[0];
                        assert(seqv == seq![x]);
                        assert(!(exists|k: int| 0 <= k < subs_a.len() && subs_a[k].0 == x)) by {
                            if exists|k: int| 0 <= k < subs_a.len() && subs_a[k].0 == x {
                                let k = choose|k: int| 0 <= k < subs_a.len() && subs_a[k].0 == x;
                                assert(subs_a[k].0 < oi + 1);
                            }
                        }
                        assert(spec_find(subs_a, x) == seq![x]);
                        assert(self.outputs.values@ == o0.push(x));
                        assert(self.outputs.values@.subrange(0, oo.len() as int) =~= o0.subrange(0, oo.len() as int));
                        assert forall|jj: int| 1 <= jj < jj0 + 1 implies oi + 1 <= #[trigger] self.outputs.values@[oo.len() + jj - 1] < self.items@.len()
                            && (self.items@[self.outputs.values@[oo.len() + jj - 1] as int] matches StackItem::Item(m) && m@ == effect@.outputs[jj]->Item_0) by {
                            if jj < jj0 {
                                assert(self.outputs.values@[oo.len() + jj - 1] == o0[oo.len() + jj - 1]);
                            }
                        }
                    }
                }
            }
            j = j + 1;
        }
        proof {
            if tk {
                let qo = q.outputs.values@;
                assert(self.items@.drop_last() == q.items@);
                assert(self.items@.subrange(0, old(self).items@.len() as int) =~= old(self).items@) by {
                    assert forall|k: int| 0 <= k < old(self).items@.len() implies self.items@[k] == old(self).items@[k] by {
                        assert(q.items@.subrange(0, old(self).items@.len() as int)[k] == old(self).items@[k]);
                        assert(self.items@.drop_last()[k] == self.items@[k]);
                    }
                }
                assert forall|jj: int| 0 <= jj < qo.len() implies self.items@[qo[jj] as int] == q.items@[qo[jj] as int] by {
                    assert(ids_ok(qo, q.items@.len() as int));
                    assert(self.items@.drop_last()[qo[jj] as int] == self.items@[qo[jj] as int]);
                }
                assert(qo.len() > 1 ==> qo.last() == qo[qo.len() - 1]);
                assert(open_stack(*self));
                assert(item_stack(*self));
                assert(taken(*old(self), *self, ln - 1));
            }
            if rp {
                assert(self.items@.subrange(0, oi) =~= old(self).items@) by {
                    assert forall|i: int| 0 <= i < oi implies self.items@[i] == old(self).items@[i] by {
                        assert(self.items@.subrange(0, oi + 1)[i] == s_a.items@[i]);
                        assert(s_a.items@.drop_last()[i] == s_a.items@[i]);
                    }
                }
                let fo = self.outputs.values@;
                let subs_a = s_a.subs.subs@;
                assert forall|i: int, k: int| 0 <= i < fo.len() && 0 <= k < subs_a.len() implies #[trigger] fo[i] != #[trigger] subs_a[k].0 by {
                    if i < oo.len() {
                        assert(fo[i] == fo.subrange(0, oo.len() as int)[i]);
                        assert(fo[i] == oo[i]);
                        if k < old(self).subs.subs@.len() {
                            assert(subs_a[k].0 == old(self).subs.subs@[k].0);
                            assert(old(self).outputs.values@[i] != old(self).subs.subs@[k].0);
                        } else {
                            assert(ids_ok(oo, oi));
                            assert(oo[i] < oi);
                        }
                    } else {
                        let jj = i - oo.len() + 1;
                        assert(fo[oo.len() + jj - 1] >= oi + 1);
                        assert(subs_a[k].0 < oi + 1);
                    }
                }
                if fo.len() > 1 {
                    if effect@.outputs.len() > 1 {
                        let jj = effect@.outputs.len() - 1;
                        assert(fo.last() == fo[oo.len() + jj - 1]);
                        assert(!(self.items@[fo.last() as int] is Row));
                    } else {
                        assert(fo =~= oo);
                        assert(oo.last() < oi);
                        assert(self.items@[oo.last() as int] == old(self).items@[oo.last() as int]) by {
                            assert(self.items@.subrange(0, oi)[oo.last() as int] == self.items@[oo.last() as int]);
                        }
                    }
                }
            }
        }
        Ok(())
    }
}

} // verus!
