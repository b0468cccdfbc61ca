//! The variable names of a stack effect, renaming them, and making up fresh
//! ones, so that two effects can be chained without their variables clashing.
use vstd::prelude::*;
use crate::stack_effect::{EffectNode, StackEffect, SNode, SEffect, view_seq, lemma_view_seq};
use crate::text::{
    chars_eq,
    copy_chars,
    append_chars,
    parse_i32,
    spec_parse_i32,
    decimal_chars,
    int_decimal,
    is_digit,
    slice_chars,
    suffix_from,
};

verus! {

/// The names used in an element, its own name first.
pub open spec fn node_names(n: SNode) -> Seq<Seq<char>>
    decreases n,
{
    match n {
        SNode::Row(s) => seq![s],
        SNode::Item(s) => seq![s],
        SNode::Quot(s, i, o) => seq![s] + seq_names(i) + seq_names(o),
    }
}

/// The names used in a sequence of elements.
pub open spec fn seq_names(s: Seq<SNode>) -> Seq<Seq<char>>
    decreases s,
{
    if s.len() == 0 {
        Seq::empty()
    } else {
        seq_names(s.subrange(0, s.len() - 1)) + node_names(s[s.len() - 1])
    }
}

/// The names used in an effect.
pub open spec fn effect_names(se: SEffect) -> Seq<Seq<char>> {
    seq_names(se.inputs) + seq_names(se.outputs)
}

/// Character vectors taken as sequences.
pub open spec fn names_of(v: Seq<Vec<char>>) -> Seq<Seq<char>> {
    v.map_values(|t: Vec<char>| t@)
}

pub proof fn lemma_concat_contains<A>(a: Seq<A>, b: Seq<A>)
    ensures
        forall|x: A| #[trigger] (a + b).contains(x) <==> (a.contains(x) || b.contains(x)),
{
    assert forall|x: A| #[trigger] (a + b).contains(x) <==> (a.contains(x) || b.contains(x)) by {
        if (a + b).contains(x) {
            let i = choose|i: int| 0 <= i < (a + b).len() && (a + b)[i] == x;
            if i < a.len() {
                assert(a[i] == x);
            } else {
                assert(b[i - a.len()] == x);
            }
        }
        if a.contains(x) {
            let i = choose|i: int| 0 <= i < a.len() && a[i] == x;
            assert((a + b)[i] == x);
        }
        if b.contains(x) {
            let i = choose|i: int| 0 <= i < b.len() && b[i] == x;
            assert((a + b)[a.len() + i] == x);
        }
    }
}

proof fn lemma_seq_names_step(s: Seq<SNode>, i: int)
    requires
        0 <= i < s.len(),
    ensures
        seq_names(s.subrange(0, i + 1)) == seq_names(s.subrange(0, i)) + node_names(s[i]),
{
    let t = s.subrange(0, i + 1);
    assert(t.subrange(0, t.len() - 1) == s.subrange(0, i));
    assert(t[t.len() - 1] == s[i]);
}

/// The names of every element are among the names of the sequence.
pub proof fn lemma_seq_names_has(s: Seq<SNode>, k: int)
    requires
        0 <= k < s.len(),
    ensures
        forall|x: Seq<char>| node_names(s[k]).contains(x) ==> #[trigger] seq_names(s).contains(x),
    decreases s.len(),
{
    let t = s.subrange(0, s.len() - 1);
    lemma_concat_contains(seq_names(t), node_names(s[s.len() - 1]));
    if k < s.len() - 1 {
        lemma_seq_names_has(t, k);
        assert(t[k] == s[k]);
    }
}

/// Adds a name unless it is there already.
fn push_name(acc: &mut Vec<Vec<char>>, name: &Vec<char>)
    ensures
        forall|x: Seq<char>| #[trigger] names_of(final(acc)@).contains(x) <==> (names_of(old(acc)@).contains(
            x,
        ) || x == name@),
        names_of(old(acc)@).no_duplicates() ==> names_of(final(acc)@).no_duplicates(),
{
    let mut k: usize = 0;
    while k < acc.len()
        invariant
            k <= acc@.len(),
            forall|j: int| 0 <= j < k ==> acc@[j]@ != name@,
        decreases acc@.len() - k,
    {
        if chars_eq(acc[k].as_slice(), name.as_slice()) {
            assert(names_of(acc@)[k as int] == name@);
            return;
        }
        k = k + 1;
    }
    let ghost before = names_of(acc@);
    acc.push(copy_chars(name.as_slice()));
    proof {
        assert(names_of(acc@) == before.push(name@));
        assert(!before.contains(name@)) by {
            if before.contains(name@) {
                let i = choose|i: int| 0 <= i < before.len() && before[i] == name@;
                assert(acc@[i]@ == name@);
            }
        }
        lemma_concat_contains(before, seq![name@]);
        assert(before.push(name@) == before + seq![name@]);
        assert forall|x: Seq<char>| seq![name@].contains(x) <==> x == name@ by {
            if x == name@ {
                assert(seq![name@][0] == x);
            }
        }
    }
}

/// Whether the name is in the list.
pub fn contains_name(v: &Vec<Vec<char>>, name: &Vec<char>) -> (r: bool)
    ensures
        r == names_of(v@).contains(name@),
{
    let mut k: usize = 0;
    while k < v.len()
        invariant
            k <= v@.len(),
            forall|j: int| 0 <= j < k ==> v@[j]@ != name@,
        decreases v@.len() - k,
    {
        if chars_eq(v[k].as_slice(), name.as_slice()) {
            assert(names_of(v@)[k as int] == name@);
            return true;
        }
        k = k + 1;
    }
    proof {
        if names_of(v@).contains(name@) {
            let i = choose|i: int| 0 <= i < names_of(v@).len() && names_of(v@)[i] == name@;
            assert(v@[i]@ == name@);
        }
    }
    false
}

/// Adds the names of an element.
fn collect_node(n: &EffectNode, acc: &mut Vec<Vec<char>>)
    requires
        names_of(old(acc)@).no_duplicates(),
    ensures
        names_of(final(acc)@).no_duplicates(),
        forall|x: Seq<char>| #[trigger] names_of(final(acc)@).contains(x) <==> (names_of(old(acc)@).contains(
            x,
        ) || node_names(n@).contains(x)),
    decreases n,
{
    let ghost a0 = names_of(acc@);
    match n {
        EffectNode::Row(s) => {
            push_name(acc, s);
            proof {
                assert forall|x: Seq<char>| seq![s@].contains(x) <==> x == s@ by {
                    if x == s@ {
                        assert(seq![s@][0] == x);
                    }
                }
            }
        },
        EffectNode::Item(s) => {
            push_name(acc, s);
            proof {
                assert forall|x: Seq<char>| seq![s@].contains(x) <==> x == s@ by {
                    if x == s@ {
                        assert(seq![s@][0] == x);
                    }
                }
            }
        },
        EffectNode::Quotation(s, se) => {
            push_name(acc, s);
            collect_nodes(&se.inputs, acc);
            collect_nodes(&se.outputs, acc);
            proof {
                let si = seq_names(view_seq(se.inputs@));
                let so = seq_names(view_seq(se.outputs@));
                lemma_concat_contains(seq![s@], si);
                lemma_concat_contains(seq![s@] + si, so);
                assert forall|x: Seq<char>| seq![s@].contains(x) <==> x == s@ by {
                    if x == s@ {
                        assert(seq![s@][0] == x);
                    }
                }
            }
        },
    }
}

/// Adds the names of a sequence of elements.
fn collect_nodes(v: &Vec<EffectNode>, acc: &mut Vec<Vec<char>>)
    requires
        names_of(old(acc)@).no_duplicates(),
    ensures
        names_of(final(acc)@).no_duplicates(),
        forall|x: Seq<char>| #[trigger] names_of(final(acc)@).contains(x) <==> (names_of(old(acc)@).contains(
            x,
        ) || seq_names(view_seq(v@)).contains(x)),
    decreases v,
{
    let ghost a0 = names_of(acc@);
    let ghost sv = view_seq(v@);
    proof {
        lemma_view_seq(v@);
        assert(sv.subrange(0, 0) == Seq::<SNode>::empty());
    }
    let mut i: usize = 0;
    while i < v.len()
        invariant
            i <= v@.len(),
            sv == view_seq(v@),
            sv.len() == v@.len(),
            forall|k: int| 0 <= k < v@.len() ==> #[trigger] sv[k] == v@[k]@,
            names_of(acc@).no_duplicates(),
            forall|x: Seq<char>| #[trigger] names_of(acc@).contains(x) <==> (a0.contains(x) || seq_names(
                sv.subrange(0, i as int),
            ).contains(x)),
        decreases v@.len() - i,
    {
        assert(decreases_to!(v => v@));
        assert(decreases_to!(v@ => v@[i as int]));
        let ghost before = names_of(acc@);
        collect_node(&v[i], acc);
        proof {
            lemma_seq_names_step(sv, i as int);
            lemma_concat_contains(seq_names(sv.subrange(0, i as int)), node_names(sv[i as int]));
        }
        i = i + 1;
    }
    proof {
        assert(sv.subrange(0, v@.len() as int) == sv);
    }
}

impl StackEffect {
    /// The names used in the effect, each once.
    pub fn all_names(&self) -> (r: Vec<Vec<char>>)
        ensures
            names_of(r@).no_duplicates(),
            forall|x: Seq<char>| #[trigger] names_of(r@).contains(x) <==> effect_names(self@).contains(x),
    {
        let mut acc: Vec<Vec<char>> = Vec::new();
        assert(names_of(acc@) == Seq::<Seq<char>>::empty());
        collect_nodes(&self.inputs, &mut acc);
        collect_nodes(&self.outputs, &mut acc);
        proof {
            lemma_concat_contains(seq_names(self@.inputs), seq_names(self@.outputs));
        }
        acc
    }
}

/// What a mapping gives for a name: the value of the first pair whose key
/// is the name, or the name itself.
pub open spec fn map_name(m: Seq<(Seq<char>, Seq<char>)>, x: Seq<char>) -> Seq<char>
    decreases m.len(),
{
    if m.len() == 0 {
        x
    } else if m[0].0 == x {
        m[0].1
    } else {
        map_name(m.drop_first(), x)
    }
}

/// A mapping of character vectors taken as sequences.
pub open spec fn mapping_view(m: Seq<(Vec<char>, Vec<char>)>) -> Seq<(Seq<char>, Seq<char>)> {
    m.map_values(|p: (Vec<char>, Vec<char>)| (p.0@, p.1@))
}

/// An element with every name mapped.
pub open spec fn rename_node(n: SNode, m: Seq<(Seq<char>, Seq<char>)>) -> SNode
    decreases n,
{
    match n {
        SNode::Row(s) => SNode::Row(map_name(m, s)),
        SNode::Item(s) => SNode::Item(map_name(m, s)),
        SNode::Quot(s, i, o) => SNode::Quot(map_name(m, s), rename_seq(i, m), rename_seq(o, m)),
    }
}

/// A sequence of elements with every name mapped.
pub open spec fn rename_seq(s: Seq<SNode>, m: Seq<(Seq<char>, Seq<char>)>) -> Seq<SNode>
    decreases s,
{
    if s.len() == 0 {
        Seq::empty()
    } else {
        rename_seq(s.subrange(0, s.len() - 1), m).push(rename_node(s[s.len() - 1], m))
    }
}

/// An effect with every name mapped.
pub open spec fn rename_effect(se: SEffect, m: Seq<(Seq<char>, Seq<char>)>) -> SEffect {
    SEffect { inputs: rename_seq(se.inputs, m), outputs: rename_seq(se.outputs, m) }
}

pub proof fn lemma_rename_seq(s: Seq<SNode>, m: Seq<(Seq<char>, Seq<char>)>)
    ensures
        rename_seq(s, m).len() == s.len(),
        forall|k: int| 0 <= k < s.len() ==> #[trigger] rename_seq(s, m)[k] == rename_node(s[k], m),
    decreases s.len(),
{
    if s.len() > 0 {
        let t = s.subrange(0, s.len() - 1);
        lemma_rename_seq(t, m);
        assert forall|k: int| 0 <= k < s.len() implies #[trigger] rename_seq(s, m)[k] == rename_node(s[k], m) by {
            if k < s.len() - 1 {
                assert(t[k] == s[k]);
            }
        }
    }
}

/// Looks a name up in a mapping.
pub fn lookup_rename(m: &Vec<(Vec<char>, Vec<char>)>, x: &Vec<char>) -> (r: Vec<char>)
    ensures
        r@ == map_name(mapping_view(m@), x@),
{
    let ghost mv = mapping_view(m@);
    assert(mv.subrange(0, mv.len() as int) == mv);
    let mut k: usize = 0;
    while k < m.len()
        invariant
            k <= m@.len(),
            mv == mapping_view(m@),
            map_name(mv, x@) == map_name(mv.subrange(k as int, mv.len() as int), x@),
        decreases m@.len() - k,
    {
        let ghost rest = mv.subrange(k as int, mv.len() as int);
        assert(rest[0] == (m@[k as int].0@, m@[k as int].1@));
        if chars_eq(m[k].0.as_slice(), x.as_slice()) {
            return copy_chars(m[k].1.as_slice());
        }
        assert(rest.drop_first() == mv.subrange(k + 1, mv.len() as int));
        k = k + 1;
    }
    copy_chars(x.as_slice())
}

impl EffectNode {
    /// The element with every name mapped.
    pub fn renamed(&self, mapping: &Vec<(Vec<char>, Vec<char>)>) -> (r: EffectNode)
        ensures
            r@ == rename_node(self@, mapping_view(mapping@)),
        decreases self,
    {
        match self {
            EffectNode::Row(s) => EffectNode::Row(lookup_rename(mapping, s)),
            EffectNode::Item(s) => EffectNode::Item(lookup_rename(mapping, s)),
            EffectNode::Quotation(s, se) => {
                let ins = renamed_nodes(&se.inputs, mapping);
                let outs = renamed_nodes(&se.outputs, mapping);
                EffectNode::Quotation(lookup_rename(mapping, s), StackEffect { inputs: ins, outputs: outs })
            },
        }
    }
}

/// The elements with every name mapped.
fn renamed_nodes(v: &Vec<EffectNode>, mapping: &Vec<(Vec<char>, Vec<char>)>) -> (r: Vec<EffectNode>)
    ensures
        view_seq(r@) == rename_seq(view_seq(v@), mapping_view(mapping@)),
    decreases v,
{
    let ghost m = mapping_view(mapping@);
    let mut out: Vec<EffectNode> = Vec::new();
    let mut i: usize = 0;
    proof {
        lemma_view_seq(v@);
    }
    while i < v.len()
        invariant
            i <= v@.len(),
            m == mapping_view(mapping@),
            out@.len() == i,
            view_seq(v@).len() == v@.len(),
            forall|k: int| 0 <= k < v@.len() ==> #[trigger] view_seq(v@)[k] == v@[k]@,
            forall|k: int| 0 <= k < i ==> #[trigger] out@[k]@ == rename_node(v@[k]@, m),
        decreases v@.len() - i,
    {
        assert(decreases_to!(v => v@));
        assert(decreases_to!(v@ => v@[i as int]));
        let c = v[i].renamed(mapping);
        out.push(c);
        i = i + 1;
    }
    proof {
        lemma_view_seq(out@);
        lemma_rename_seq(view_seq(v@), m);
        assert forall|k: int| 0 <= k < out@.len() implies view_seq(out@)[k] == rename_seq(view_seq(v@), m)[k] by {
            assert(out@[k]@ == rename_node(v@[k]@, m));
            assert(view_seq(v@)[k] == v@[k]@);
        }
        assert(view_seq(out@) =~= rename_seq(view_seq(v@), m));
    }
    out
}

impl StackEffect {
    /// The effect with every name mapped.
    pub fn renamed(&self, mapping: &Vec<(Vec<char>, Vec<char>)>) -> (r: StackEffect)
        ensures
            r@ == rename_effect(self@, mapping_view(mapping@)),
    {
        StackEffect { inputs: renamed_nodes(&self.inputs, mapping), outputs: renamed_nodes(&self.outputs, mapping) }
    }
}

/// How many characters of `s` are decimal digits, wherever they stand.
pub open spec fn count_digits(s: Seq<char>) -> nat
    decreases s.len(),
{
    if s.len() == 0 {
        0
    } else {
        count_digits(s.drop_last()) + (if is_digit(s.last()) {
            1nat
        } else {
            0nat
        })
    }
}

proof fn lemma_count_digits_le(s: Seq<char>)
    ensures
        count_digits(s) <= s.len(),
    decreases s.len(),
{
    if s.len() > 0 {
        lemma_count_digits_le(s.drop_last());
    }
}

/// A name with `n` added to its number: the name loses as many characters
/// at its end as it has digits, and the number that those characters denote
/// (0 where they denote none) plus `n` is written in their place.
pub open spec fn spec_add_to_name(name: Seq<char>, n: i32) -> Seq<char> {
    let i = name.len() - count_digits(name);
    let num: i32 = match spec_parse_i32(name.subrange(i, name.len() as int)) {
        Some(v) => v,
        None => 0i32,
    };
    name.subrange(0, i) + int_decimal(num.wrapping_add(n) as int)
}

/// Adds `n` to the number at the end of a name (`x` becomes `x0` for 0,
/// `x0` becomes `x1` for 1).
pub fn add_to_name(name: &Vec<char>, n: i32) -> (r: Vec<char>)
    ensures
        r@ == spec_add_to_name(name@, n),
{
    let mut cnt: usize = 0;
    let mut k: usize = 0;
    while k < name.len()
        invariant
            k <= name@.len(),
            cnt == count_digits(name@.subrange(0, k as int)),
            cnt <= k,
        decreases name@.len() - k,
    {
        let ghost t = name@.subrange(0, k + 1);
        assert(t.drop_last() == name@.subrange(0, k as int));
        assert(t.last() == name@[k as int]);
        if '0' <= name[k] && name[k] <= '9' {
            cnt = cnt + 1;
        }
        k = k + 1;
    }
    assert(name@.subrange(0, name@.len() as int) == name@);
    let i = name.len() - cnt;
    let tail = suffix_from(name.as_slice(), i);
    let num: i32 = match parse_i32(tail.as_slice()) {
        Some(v) => v,
        None => 0,
    };
    let mut out = slice_chars(name.as_slice(), 0, i);
    let digits = decimal_chars(num.wrapping_add(n));
    append_chars(&mut out, digits.as_slice());
    out
}

/// A name that differs from the `k`-th name of `used` at position `k` (or in
/// length), and so from every name in `used`.
fn unused_name(used: &Vec<Vec<char>>) -> (r: Vec<char>)
    ensures
        !names_of(used@).contains(r@),
{
    let mut r: Vec<char> = Vec::new();
    let mut k: usize = 0;
    while k < used.len()
        invariant
            k <= used@.len(),
            r@.len() == k,
            forall|j: int| 0 <= j < k ==> (used@[j]@.len() > j && #[trigger] r@[j] != used@[j]@[j]) || used@[j]@.len() <= j,
        decreases used@.len() - k,
    {
        let c = if used[k].len() > k && used[k][k] == '_' {
            'x'
        } else {
            '_'
        };
        r.push(c);
        k = k + 1;
    }
    proof {
        if names_of(used@).contains(r@) {
            let i = choose|i: int| 0 <= i < names_of(used@).len() && names_of(used@)[i] == r@;
            assert(used@[i]@ == r@);
            assert(r@[i] != used@[i]@[i]);
        }
    }
    r
}

/// A name derived from `name` that is not in `used`: `name` with 0 added,
/// then with 1 added again while the result is taken.
pub fn fresh_name(name: &Vec<char>, used: &Vec<Vec<char>>) -> (r: Vec<char>)
    ensures
        !names_of(used@).contains(r@),
{
    let mut cand = add_to_name(name, 0);
    let mut tries: usize = 0;
    loop
        invariant
            tries <= used@.len(),
        decreases used@.len() - tries,
    {
        if !contains_name(used, &cand) {
            return cand;
        }
        if tries >= used.len() {
            return unused_name(used);
        }
        cand = add_to_name(&cand, 1);
        tries = tries + 1;
    }
}

proof fn lemma_map_name_at(m: Seq<(Seq<char>, Seq<char>)>, k: int, x: Seq<char>)
    requires
        0 <= k < m.len(),
        m[k].0 == x,
        forall|j: int| 0 <= j < k ==> m[j].0 != x,
    ensures
        map_name(m, x) == m[k].1,
    decreases k,
{
    if k > 0 {
        lemma_map_name_at(m.drop_first(), k - 1, x);
    }
}

/// The name that the mapping gives to the `k`-th of a list of distinct
/// names, when the mapping's keys are that list.
proof fn lemma_mapped(m: Seq<(Seq<char>, Seq<char>)>, names: Seq<Seq<char>>, k: int)
    requires
        names.no_duplicates(),
        m.len() == names.len(),
        forall|i: int| 0 <= i < m.len() ==> #[trigger] m[i].0 == names[i],
        0 <= k < names.len(),
    ensures
        map_name(m, names[k]) == m[k].1,
{
    assert forall|j: int| 0 <= j < k implies m[j].0 != names[k] by {
        assert(m[j].0 == names[j]);
    }
    lemma_map_name_at(m, k, names[k]);
}

/// A name is renamed when the other effect uses it too: then it gets a name
/// that neither effect uses.
pub open spec fn renamed_apart(
    m: Seq<(Seq<char>, Seq<char>)>,
    own: Seq<Seq<char>>,
    other: Seq<Seq<char>>,
    k: int,
) -> bool {
    if other.contains(own[k]) {
        !own.contains(m[k].1) && !other.contains(m[k].1)
    } else {
        m[k].1 == own[k]
    }
}

/// Renames the variables of two effects apart: a name that both use gets a
/// fresh name on each side. Returns the renamed effects and the two mappings.
/// No name of the left effect is mapped to the name that a name of the right
/// effect is mapped to, and on each side distinct names stay distinct.
pub fn rename_effects(left: &StackEffect, right: &StackEffect) -> (r: (
    StackEffect,
    StackEffect,
    Vec<(Vec<char>, Vec<char>)>,
    Vec<(Vec<char>, Vec<char>)>,
))
    ensures
        r.0@ == rename_effect(left@, mapping_view(r.2@)),
        r.1@ == rename_effect(right@, mapping_view(r.3@)),
        forall|x: Seq<char>, y: Seq<char>|
            effect_names(left@).contains(x) && effect_names(right@).contains(y) ==> map_name(
                mapping_view(r.2@),
                x,
            ) != map_name(mapping_view(r.3@), y),
        forall|x: Seq<char>, y: Seq<char>|
            effect_names(left@).contains(x) && effect_names(left@).contains(y) && x != y ==> map_name(
                mapping_view(r.2@),
                x,
            ) != map_name(mapping_view(r.2@), y),
        forall|x: Seq<char>, y: Seq<char>|
            effect_names(right@).contains(x) && effect_names(right@).contains(y) && x != y ==> map_name(
                mapping_view(r.3@),
                x,
            ) != map_name(mapping_view(r.3@), y),
        forall|x: Seq<char>|
            effect_names(left@).contains(x) && !effect_names(right@).contains(x) ==> map_name(mapping_view(r.2@), x) == x,
        forall|x: Seq<char>|
            effect_names(right@).contains(x) && !effect_names(left@).contains(x) ==> map_name(mapping_view(r.3@), x) == x,
        forall|x: Seq<char>|
            effect_names(left@).contains(x) && effect_names(right@).contains(x) ==> !effect_names(left@).contains(
                map_name(mapping_view(r.2@), x),
            ) && !effect_names(right@).contains(map_name(mapping_view(r.2@), x)),
        forall|x: Seq<char>|
            effect_names(left@).contains(x) && effect_names(right@).contains(x) ==> !effect_names(left@).contains(
                map_name(mapping_view(r.3@), x),
            ) && !effect_names(right@).contains(map_name(mapping_view(r.3@), x)),
{
    let left_names = left.all_names();
    let right_names = right.all_names();
    let ghost ln = names_of(left_names@);
    let ghost rn = names_of(right_names@);
    let mut used: Vec<Vec<char>> = Vec::new();
    let mut k: usize = 0;
    while k < left_names.len()
        invariant
            k <= left_names@.len(),
            ln == names_of(left_names@),
            forall|i: int| 0 <= i < k ==> names_of(used@).contains(#[trigger] ln[i]),
        decreases left_names@.len() - k,
    {
        let ghost before = names_of(used@);
        used.push(copy_chars(left_names[k].as_slice()));
        proof {
            assert(names_of(used@) == before.push(ln[k as int]));
            assert forall|i: int| 0 <= i <= k implies names_of(used@).contains(#[trigger] ln[i]) by {
                if i < k {
                    let w = choose|w: int| 0 <= w < before.len() && before[w] == ln[i];
                    assert(names_of(used@)[w] == ln[i]);
                } else {
                    assert(names_of(used@)[before.len() as int] == ln[i]);
                }
            }
        }
        k = k + 1;
    }
    let mut k2: usize = 0;
    while k2 < right_names.len()
        invariant
            k2 <= right_names@.len(),
            ln == names_of(left_names@),
            rn == names_of(right_names@),
            forall|i: int| 0 <= i < ln.len() ==> names_of(used@).contains(#[trigger] ln[i]),
            forall|i: int| 0 <= i < k2 ==> names_of(used@).contains(#[trigger] rn[i]),
        decreases right_names@.len() - k2,
    {
        if !contains_name(&used, &right_names[k2]) {
            let ghost before = names_of(used@);
            used.push(copy_chars(right_names[k2].as_slice()));
            proof {
                assert(names_of(used@) == before.push(rn[k2 as int]));
                assert forall|x: Seq<char>| before.contains(x) implies names_of(used@).contains(x) by {
                    let w = choose|w: int| 0 <= w < before.len() && before[w] == x;
                    assert(names_of(used@)[w] == x);
                }
                assert(names_of(used@)[before.len() as int] == rn[k2 as int]);
            }
        }
        k2 = k2 + 1;
    }
    proof {
        assert forall|x: Seq<char>| ln.contains(x) || rn.contains(x) implies names_of(used@).contains(x) by {
            if ln.contains(x) {
                let w = choose|w: int| 0 <= w < ln.len() && ln[w] == x;
                assert(names_of(used@).contains(ln[w]));
            } else {
                let w = choose|w: int| 0 <= w < rn.len() && rn[w] == x;
                assert(names_of(used@).contains(rn[w]));
            }
        }
    }
    let mut lmap: Vec<(Vec<char>, Vec<char>)> = Vec::new();
    let mut i: usize = 0;
    while i < left_names.len()
        invariant
            i <= left_names@.len(),
            ln == names_of(left_names@),
            rn == names_of(right_names@),
            ln.no_duplicates(),
            forall|x: Seq<char>| ln.contains(x) || rn.contains(x) ==> names_of(used@).contains(x),
            lmap@.len() == i,
            forall|q: int| 0 <= q < i ==> #[trigger] mapping_view(lmap@)[q].0 == ln[q],
            forall|q: int| 0 <= q < i ==> renamed_apart(mapping_view(lmap@), ln, rn, q),
            forall|q: int| 0 <= q < i ==> names_of(used@).contains(#[trigger] mapping_view(lmap@)[q].1),
            forall|q1: int, q2: int|
                0 <= q1 < i && 0 <= q2 < i && q1 != q2 && rn.contains(ln[q1]) && rn.contains(ln[q2]) ==> #[trigger] mapping_view(
                    lmap@,
                )[q1].1 != #[trigger] mapping_view(lmap@)[q2].1,
        decreases left_names@.len() - i,
    {
        let name = &left_names[i];
        let ghost lv0 = mapping_view(lmap@);
        let ghost u0 = names_of(used@);
        if contains_name(&right_names, name) {
            let f = fresh_name(name, &used);
            used.push(copy_chars(f.as_slice()));
            lmap.push((copy_chars(name.as_slice()), f));
            proof {
                let lv = mapping_view(lmap@);
                assert(lv == lv0.push((ln[i as int], f@)));
                assert(names_of(used@) == u0.push(f@));
                assert forall|x: Seq<char>| u0.contains(x) implies names_of(used@).contains(x) by {
                    let w = choose|w: int| 0 <= w < u0.len() && u0[w] == x;
                    assert(names_of(used@)[w] == x);
                }
                assert(names_of(used@)[u0.len() as int] == f@);
                assert(!ln.contains(f@));
                assert(!rn.contains(f@));
                assert forall|q: int| 0 <= q < i implies lv0[q].1 != f@ by {
                    assert(u0.contains(lv0[q].1));
                }
                assert forall|q: int| 0 <= q <= i implies renamed_apart(lv, ln, rn, q) by {
                    if q < i {
                        assert(lv[q] == lv0[q]);
                        assert(renamed_apart(lv0, ln, rn, q));
                    }
                }
            }
        } else {
            lmap.push((copy_chars(name.as_slice()), copy_chars(name.as_slice())));
            proof {
                let lv = mapping_view(lmap@);
                assert(lv == lv0.push((ln[i as int], ln[i as int])));
                assert(ln.contains(ln[i as int]));
                assert forall|q: int| 0 <= q <= i implies renamed_apart(lv, ln, rn, q) by {
                    if q < i {
                        assert(lv[q] == lv0[q]);
                        assert(renamed_apart(lv0, ln, rn, q));
                    }
                }
            }
        }
        i = i + 1;
    }
    let ghost lvf = mapping_view(lmap@);
    let mut rmap: Vec<(Vec<char>, Vec<char>)> = Vec::new();
    let mut j: usize = 0;
    while j < right_names.len()
        invariant
            j <= right_names@.len(),
            ln == names_of(left_names@),
            rn == names_of(right_names@),
            rn.no_duplicates(),
            lvf == mapping_view(lmap@),
            lvf.len() == ln.len(),
            forall|x: Seq<char>| ln.contains(x) || rn.contains(x) ==> names_of(used@).contains(x),
            forall|q: int| 0 <= q < ln.len() ==> names_of(used@).contains(#[trigger] lvf[q].1),
            rmap@.len() == j,
            forall|q: int| 0 <= q < j ==> #[trigger] mapping_view(rmap@)[q].0 == rn[q],
            forall|q: int| 0 <= q < j ==> renamed_apart(mapping_view(rmap@), rn, ln, q),
            forall|q: int| 0 <= q < j ==> names_of(used@).contains(#[trigger] mapping_view(rmap@)[q].1),
            forall|q: int, p: int|
                0 <= q < j && 0 <= p < ln.len() && ln.contains(rn[q]) ==> #[trigger] mapping_view(rmap@)[q].1
                    != #[trigger] lvf[p].1,
            forall|q1: int, q2: int|
                0 <= q1 < j && 0 <= q2 < j && q1 != q2 && ln.contains(rn[q1]) && ln.contains(rn[q2]) ==> #[trigger] mapping_view(
                    rmap@,
                )[q1].1 != #[trigger] mapping_view(rmap@)[q2].1,
        decreases right_names@.len() - j,
    {
        let name = &right_names[j];
        let ghost rv0 = mapping_view(rmap@);
        let ghost u0 = names_of(used@);
        if contains_name(&left_names, name) {
            let f = fresh_name(name, &used);
            used.push(copy_chars(f.as_slice()));
            rmap.push((copy_chars(name.as_slice()), f));
            proof {
                let rv = mapping_view(rmap@);
                assert(rv == rv0.push((rn[j as int], f@)));
                assert(names_of(used@) == u0.push(f@));
                assert forall|x: Seq<char>| u0.contains(x) implies names_of(used@).contains(x) by {
                    let w = choose|w: int| 0 <= w < u0.len() && u0[w] == x;
                    assert(names_of(used@)[w] == x);
                }
                assert(names_of(used@)[u0.len() as int] == f@);
                assert(!ln.contains(f@));
                assert(!rn.contains(f@));
                assert forall|q: int| 0 <= q < j implies rv0[q].1 != f@ by {
                    assert(u0.contains(rv0[q].1));
                }
                assert forall|p: int| 0 <= p < ln.len() implies lvf[p].1 != f@ by {
                    assert(u0.contains(lvf[p].1));
                }
                assert forall|q: int| 0 <= q <= j implies renamed_apart(rv, rn, ln, q) by {
                    if q < j {
                        assert(rv[q] == rv0[q]);
                        assert(renamed_apart(rv0, rn, ln, q));
                    }
                }
            }
        } else {
            rmap.push((copy_chars(name.as_slice()), copy_chars(name.as_slice())));
            proof {
                let rv = mapping_view(rmap@);
                assert(rv == rv0.push((rn[j as int], rn[j as int])));
                assert(rn.contains(rn[j as int]));
                assert forall|q: int| 0 <= q <= j implies renamed_apart(rv, rn, ln, q) by {
                    if q < j {
                        assert(rv[q] == rv0[q]);
                        assert(renamed_apart(rv0, rn, ln, q));
                    }
                }
            }
        }
        j = j + 1;
    }
    let a = left.renamed(&lmap);
    let b = right.renamed(&rmap);
    proof {
        let lv = mapping_view(lmap@);
        let rv = mapping_view(rmap@);
        assert forall|x: Seq<char>, y: Seq<char>|
            effect_names(left@).contains(x) && effect_names(right@).contains(y) implies map_name(lv, x) != map_name(rv, y) by {
            assert(ln.contains(x));
            assert(rn.contains(y));
            let kx = choose|w: int| 0 <= w < ln.len() && ln[w] == x;
            let ky = choose|w: int| 0 <= w < rn.len() && rn[w] == y;
            lemma_mapped(lv, ln, kx);
            lemma_mapped(rv, rn, ky);
            assert(renamed_apart(lv, ln, rn, kx));
            assert(renamed_apart(rv, rn, ln, ky));
            if rn.contains(x) && ln.contains(y) {
                assert(rv[ky].1 != lvf[kx].1);
            }
        }
        assert forall|x: Seq<char>, y: Seq<char>|
            effect_names(left@).contains(x) && effect_names(left@).contains(y) && x != y implies map_name(lv, x) != map_name(lv, y) by {
            assert(ln.contains(x));
            assert(ln.contains(y));
            let kx = choose|w: int| 0 <= w < ln.len() && ln[w] == x;
            let ky = choose|w: int| 0 <= w < ln.len() && ln[w] == y;
            lemma_mapped(lv, ln, kx);
            lemma_mapped(lv, ln, ky);
            assert(renamed_apart(lv, ln, rn, kx));
            assert(renamed_apart(lv, ln, rn, ky));
            if rn.contains(x) && rn.contains(y) {
                assert(lv[kx].1 != lv[ky].1);
            }
        }
        assert forall|x: Seq<char>, y: Seq<char>|
            effect_names(right@).contains(x) && effect_names(right@).contains(y) && x != y implies map_name(rv, x) != map_name(rv, y) by {
            assert(rn.contains(x));
            assert(rn.contains(y));
            let kx = choose|w: int| 0 <= w < rn.len() && rn[w] == x;
            let ky = choose|w: int| 0 <= w < rn.len() && rn[w] == y;
            lemma_mapped(rv, rn, kx);
            lemma_mapped(rv, rn, ky);
            assert(renamed_apart(rv, rn, ln, kx));
            assert(renamed_apart(rv, rn, ln, ky));
            if ln.contains(x) && ln.contains(y) {
                assert(rv[kx].1 != rv[ky].1);
            }
        }
        assert forall|x: Seq<char>| effect_names(left@).contains(x) implies {
            &&& !effect_names(right@).contains(x) ==> map_name(lv, x) == x
            &&& effect_names(right@).contains(x) ==> !effect_names(left@).contains(map_name(lv, x))
                && !effect_names(right@).contains(map_name(lv, x))
        } by {
            assert(ln.contains(x));
            let kx = choose|w: int| 0 <= w < ln.len() && ln[w] == x;
            lemma_mapped(lv, ln, kx);
            assert(renamed_apart(lv, ln, rn, kx));
        }
        assert forall|x: Seq<char>| effect_names(right@).contains(x) implies {
            &&& !effect_names(left@).contains(x) ==> map_name(rv, x) == x
            &&& effect_names(left@).contains(x) ==> !effect_names(left@).contains(map_name(rv, x))
                && !effect_names(right@).contains(map_name(rv, x))
        } by {
            assert(rn.contains(x));
            let kx = choose|w: int| 0 <= w < rn.len() && rn[w] == x;
            lemma_mapped(rv, rn, kx);
            assert(renamed_apart(rv, rn, ln, kx));
        }
    }
    (a, b, lmap, rmap)
}

} // verus!
