//! Compiled code, the stack effects of instructions, and the parts of
//! running a program that call no user code: tables, lists, text of values.
use vstd::prelude::*;
use crate::errors::Error;
use crate::objects::{
    Object,
    OView,
    OpView,
    Opcode,
    ByteCode,
    Builtin,
    Callable,
    TableImpl,
    WordId,
    view_obj,
    view_objs,
    view_op,
    view_ops,
    lemma_view_objs,
    lemma_view_ops,
    clone_object,
    type_error,
};
use crate::state::{State, stack_view};
use crate::stack_effect::{StackEffect, SEffect, SNode, anon_row, spec_parse};
use crate::abstract_stack::{row_push, row_take};
use crate::chaining::{chains_to, items_apart};
use crate::effect_names::{effect_names, seq_names};
use crate::text::{chars_of, chars_eq, copy_chars, append_chars, decimal_chars, int_decimal};

verus! {

/// The instruction that runs a compiled object: words and native functions
/// are called, every other object is pushed.
pub open spec fn compiled_op(o: OView) -> OpView {
    match o {
        OView::Word(w) => OpView::Call(OView::Word(w)),
        OView::Function(c) => OpView::CallDirect(c),
        _ => OpView::Push(o),
    }
}

/// Turns a list of compiled objects into code.
pub fn to_bytecode(list: Vec<Object>) -> (r: ByteCode)
    ensures
        r@.len() == list@.len(),
        forall|i: int| 0 <= i < list@.len() ==> #[trigger] r@[i] == compiled_op(view_obj(list@[i])),
{
    let ghost l0 = list@;
    let mut list = list;
    let mut rev: Vec<Opcode> = Vec::new();
    while list.len() > 0
        invariant
            list@ == l0.subrange(0, list@.len() as int),
            list@.len() <= l0.len(),
            rev@.len() == l0.len() - list@.len(),
            forall|k: int| 0 <= k < rev@.len() ==> #[trigger] view_op(rev@[k]) == compiled_op(view_obj(l0[l0.len() - 1 - k])),
        decreases list@.len(),
    {
        let ghost k = list@.len() - 1;
        let o = list.pop().unwrap();
        assert(o == l0[k]);
        let op = match o {
            Object::Word(w) => Opcode::Call(Object::Word(w)),
            Object::Function(c) => Opcode::CallDirect(c),
            other => Opcode::Push(other),
        };
        rev.push(op);
    }
    let mut ops: Vec<Opcode> = Vec::new();
    let ghost rev0 = rev@;
    while rev.len() > 0
        invariant
            rev@ == rev0.subrange(0, rev@.len() as int),
            rev0.len() == l0.len(),
            ops@.len() == rev0.len() - rev@.len(),
            forall|k: int| 0 <= k < rev0.len() ==> #[trigger] view_op(rev0[k]) == compiled_op(view_obj(l0[l0.len() - 1 - k])),
            forall|k: int| 0 <= k < ops@.len() ==> #[trigger] view_op(ops@[k]) == compiled_op(view_obj(l0[k])),
        decreases rev@.len(),
    {
        let ghost j = rev@.len() - 1;
        let op = rev.pop().unwrap();
        assert(op == rev0[j]);
        ops.push(op);
    }
    let r = ByteCode { ops };
    proof {
        lemma_view_ops(r.ops@);
    }
    r
}

/// The stack effect of a native operation, as text.
pub open spec fn builtin_effect_text(b: Builtin) -> Seq<char> {
    match b {
        Builtin::Semicolon | Builtin::CloseBracket | Builtin::Module | Builtin::Use | Builtin::Syntax
        | Builtin::Let | Builtin::Colon | Builtin::OpenBracket | Builtin::Comment | Builtin::EndModule
        | Builtin::SetVar(_) | Builtin::GetVar(_) | Builtin::DoubleColon(_, _) | Builtin::SetAttr
        | Builtin::GetAttrRaw | Builtin::GetAttr | Builtin::HasAttr | Builtin::PushNone => "(acc -- acc)"@,
        Builtin::NextToken => "( -- token)"@,
        Builtin::Call => "(..a func(..a -- ..b) -- ..b)"@,
        Builtin::If => "(..a ? true(..a -- ..b) false(..a -- ..b) -- ..b)"@,
        Builtin::PushFrame => "(n -- )"@,
        Builtin::PopFrame => "(n -- )"@,
        Builtin::Store => "(x addr -- )"@,
        Builtin::Fetch => "(addr -- x)"@,
        Builtin::Cond => "(..a list -- ..b)"@,
        Builtin::Repeat => "(..x n f(..x -- ..y) -- ..y)"@,
        Builtin::For => "(..x a b f(..x i -- ..y) -- ..y)"@,
        Builtin::While => "(..a cond(..a -- ..b ?) f(..b -- ..c) -- ..c)"@,
        Builtin::Repr => "(x -- s)"@,
        Builtin::Same => "(a b -- ?)"@,
        Builtin::Not => "(? -- !?)"@,
        Builtin::Eq | Builtin::Ne | Builtin::Lt | Builtin::Gt | Builtin::Le | Builtin::Ge => "(a b -- ?)"@,
        Builtin::Add => "( a b -- sum )"@,
        Builtin::Sub => "( a b -- diff )"@,
        Builtin::Mul => "( a b -- prod )"@,
        Builtin::Div => "( a b -- quot )"@,
        Builtin::Dup => "(x -- x x)"@,
        Builtin::Drop => "(x -- )"@,
        Builtin::Swap => "(a b -- b a)"@,
        Builtin::Over => "(a b -- a b a)"@,
        Builtin::Rot => "(a b c -- b c a)"@,
        Builtin::StrToList => "(s -- l)"@,
        Builtin::ListMake => "(* n -- l)"@,
        Builtin::ListDestructure => "(l -- * n)"@,
        Builtin::ListReverse => "(l -- l')"@,
        Builtin::ListEmpty => "(l -- l ?)"@,
        Builtin::ListLen => "(l -- l n)"@,
        Builtin::ListGet => "(l i -- l x)"@,
        Builtin::ListSet => "(l i x -- l')"@,
        Builtin::PopBack => "(l -- l' x)"@,
        Builtin::PopFront => "(l -- l' x)"@,
        Builtin::PushBack => "(l x -- l')"@,
        Builtin::PushFront => "(l x -- l')"@,
        Builtin::NewTable => "( -- t)"@,
        Builtin::SetMetatable => "(t mt -- t')"@,
        Builtin::GetMetatable => "(t -- t mt)"@,
        Builtin::GetAttribute => "(t s -- t v)"@,
        Builtin::SetAttrNamed => "(obj val name -- obj')"@,
        Builtin::GetAttrRawNamed => "(obj name -- obj val)"@,
        Builtin::GetAttrNamed => "(obj name -- obj val)"@,
        Builtin::HasAttrNamed => "(obj name -- obj ?)"@,
        Builtin::PrintStack | Builtin::Words => "( -- )"@,
        Builtin::PrintTop => "( x -- )"@,
    }
}

/// The stack effect of a native operation, as text.
fn builtin_effect(b: Builtin) -> (r: &'static str)
    ensures
        r@ == builtin_effect_text(b),
{
    match b {
        Builtin::Semicolon | Builtin::CloseBracket | Builtin::Module | Builtin::Use | Builtin::Syntax
        | Builtin::Let | Builtin::Colon | Builtin::OpenBracket | Builtin::Comment | Builtin::EndModule
        | Builtin::SetVar(_) | Builtin::GetVar(_) | Builtin::DoubleColon(_, _) | Builtin::SetAttr
        | Builtin::GetAttrRaw | Builtin::GetAttr | Builtin::HasAttr | Builtin::PushNone => "(acc -- acc)",
        Builtin::NextToken => "( -- token)",
        Builtin::Call => "(..a func(..a -- ..b) -- ..b)",
        Builtin::If => "(..a ? true(..a -- ..b) false(..a -- ..b) -- ..b)",
        Builtin::PushFrame => "(n -- )",
        Builtin::PopFrame => "(n -- )",
        Builtin::Store => "(x addr -- )",
        Builtin::Fetch => "(addr -- x)",
        Builtin::Cond => "(..a list -- ..b)",
        Builtin::Repeat => "(..x n f(..x -- ..y) -- ..y)",
        Builtin::For => "(..x a b f(..x i -- ..y) -- ..y)",
        Builtin::While => "(..a cond(..a -- ..b ?) f(..b -- ..c) -- ..c)",
        Builtin::Repr => "(x -- s)",
        Builtin::Same => "(a b -- ?)",
        Builtin::Not => "(? -- !?)",
        Builtin::Eq | Builtin::Ne | Builtin::Lt | Builtin::Gt | Builtin::Le | Builtin::Ge => "(a b -- ?)",
        Builtin::Add => "( a b -- sum )",
        Builtin::Sub => "( a b -- diff )",
        Builtin::Mul => "( a b -- prod )",
        Builtin::Div => "( a b -- quot )",
        Builtin::Dup => "(x -- x x)",
        Builtin::Drop => "(x -- )",
        Builtin::Swap => "(a b -- b a)",
        Builtin::Over => "(a b -- a b a)",
        Builtin::Rot => "(a b c -- b c a)",
        Builtin::StrToList => "(s -- l)",
        Builtin::ListMake => "(* n -- l)",
        Builtin::ListDestructure => "(l -- * n)",
        Builtin::ListReverse => "(l -- l')",
        Builtin::ListEmpty => "(l -- l ?)",
        Builtin::ListLen => "(l -- l n)",
        Builtin::ListGet => "(l i -- l x)",
        Builtin::ListSet => "(l i x -- l')",
        Builtin::PopBack => "(l -- l' x)",
        Builtin::PopFront => "(l -- l' x)",
        Builtin::PushBack => "(l x -- l')",
        Builtin::PushFront => "(l x -- l')",
        Builtin::NewTable => "( -- t)",
        Builtin::SetMetatable => "(t mt -- t')",
        Builtin::GetMetatable => "(t -- t mt)",
        Builtin::GetAttribute => "(t s -- t v)",
        Builtin::SetAttrNamed => "(obj val name -- obj')",
        Builtin::GetAttrRawNamed => "(obj name -- obj val)",
        Builtin::GetAttrNamed => "(obj name -- obj val)",
        Builtin::HasAttrNamed => "(obj name -- obj ?)",
        Builtin::PrintStack | Builtin::Words => "( -- )",
        Builtin::PrintTop => "( x -- )",
    }
}

/// The state with one unit less of the budget of calls.
pub open spec fn spent(st: State) -> State {
    State { budget: (st.budget - 1) as u64, ..st }
}

impl State {
    /// Uses up one unit of the budget of calls.
    pub fn spend(&mut self) -> (r: Result<(), Error>)
        ensures
            r is Ok ==> old(self).budget > 0 && final(self).budget == old(self).budget - 1,
            r is Err ==> old(self).budget == 0 && final(self).budget == old(self).budget,
            final(self).stack == old(self).stack,
            final(self).input_tokens == old(self).input_tokens,
            final(self).modules == old(self).modules,
            final(self).entries == old(self).entries,
            final(self).mode == old(self).mode,
            final(self).current_module == old(self).current_module,
            final(self).root_module == old(self).root_module,
            final(self).frames == old(self).frames,
            final(self).scopes == old(self).scopes,
            final(self).tables == old(self).tables,
            final(self).output == old(self).output,
            final(self).factory == old(self).factory,
            r is Ok ==> *final(self) == spent(*old(self)),
            r is Err ==> *final(self) == *old(self),
    {
        if self.budget == 0 {
            return Err(Error::RuntimeError(chars_of("evaluation budget exhausted")));
        }
        self.budget = self.budget - 1;
        Ok(())
    }

    /// A new table object.
    pub fn new_table(&mut self) -> (r: Object)
        ensures
            r == Object::Table(old(self).tables@.len() as usize),
            final(self).tables@.len() == old(self).tables@.len() + 1,
            forall|i: int| 0 <= i < old(self).tables@.len() ==> final(self).tables@[i] == old(self).tables@[i],
            final(self).tables@[old(self).tables@.len() as int].attributes@.len() == 0,
            final(self).tables@[old(self).tables@.len() as int].meta is None,
            final(self).stack == old(self).stack,
            final(self).input_tokens == old(self).input_tokens,
            final(self).modules == old(self).modules,
            final(self).entries == old(self).entries,
            final(self).mode == old(self).mode,
            final(self).budget == old(self).budget,
            final(self).current_module == old(self).current_module,
            final(self).root_module == old(self).root_module,
    {
        let n = self.tables.len();
        let t = TableImpl::new();
        self.tables.push(t);
        Object::Table(n)
    }

    /// A copy of the attribute of a table, if it has it.
    pub fn table_get_attr(&self, t: usize, name: &[char]) -> (r: Option<Object>)
        ensures
            t >= self.tables@.len() ==> r is None,
            t < self.tables@.len() ==> match attr_index(self.tables@[t as int].attributes@, name@) {
                Some(i) => r matches Some(o) && o@ == self.tables@[t as int].attributes@[i].1@,
                None => r is None,
            },
            t < self.tables@.len() ==> match attr_lookup(self.tables@[t as int].attributes@, name@) {
                Some(v) => r matches Some(o) && o@ == v@,
                None => r is None,
            },
    {
        if t >= self.tables.len() {
            return None;
        }
        match find_attr(&self.tables[t].attributes, name) {
            Some(i) => Some(clone_object(&self.tables[t].attributes[i].1)),
            None => None,
        }
    }

    /// A copy of the attribute of a table's meta table, if it has it.
    pub fn meta_lookup(&self, t: usize, name: &[char]) -> (r: Option<Object>)
        ensures
            t >= self.tables@.len() ==> r is None,
            t < self.tables@.len() ==> match self.tables@[t as int].meta {
                Some(m) => m < self.tables@.len() ==> match attr_index(self.tables@[m as int].attributes@, name@) {
                    Some(i) => r matches Some(o) && o@ == self.tables@[m as int].attributes@[i].1@,
                    None => r is None,
                },
                None => r is None,
            },
            match meta_method(self.tables@, t, name@) {
                Some(v) => r matches Some(o) && o@ == v,
                None => r is None,
            },
    {
        if t >= self.tables.len() {
            return None;
        }
        match self.tables[t].meta {
            Some(m) => self.table_get_attr(m, name),
            None => None,
        }
    }

    /// Sets an attribute of a table.
    pub fn table_set_attr(&mut self, t: usize, name: &[char], value: Object) -> (r: Result<(), Error>)
        ensures
            t >= old(self).tables@.len() ==> r is Err,
            t < old(self).tables@.len() ==> r is Ok && final(self).tables@.len() == old(self).tables@.len()
                && attrs_set(old(self).tables@[t as int].attributes@, final(self).tables@[t as int].attributes@, name@, value)
                && final(self).tables@[t as int].meta == old(self).tables@[t as int].meta
                && forall|i: int| 0 <= i < old(self).tables@.len() && i != t ==> final(self).tables@[i] == old(self).tables@[i],
            final(self).stack == old(self).stack,
            final(self).input_tokens == old(self).input_tokens,
            final(self).modules == old(self).modules,
            final(self).entries == old(self).entries,
            final(self).mode == old(self).mode,
            final(self).budget == old(self).budget,
            final(self).current_module == old(self).current_module,
            final(self).root_module == old(self).root_module,
    {
        if t >= self.tables.len() {
            return Err(type_error("no such table"));
        }
        let mut tab = TableImpl::new();
        std::mem::swap(&mut tab, &mut self.tables[t]);
        set_attr_in(&mut tab.attributes, name, value);
        std::mem::swap(&mut tab, &mut self.tables[t]);
        Ok(())
    }

    /// The stack effect of calling a value directly.
    fn direct_stack_effect(&self, obj: &Object) -> (r: Result<StackEffect, Error>)
        ensures
            effect_matches(r, direct_effect(*self, obj@)),
    {
        match obj {
            Object::Word(w) => {
                if w.0 >= self.entries.len() {
                    return Err(type_error("unknown word"));
                }
                Ok(self.entries[w.0].stack_effect.duplicate())
            },
            Object::Function(c) => StackEffect::parse(builtin_effect(c.builtin())),
            _ => Err(type_error("not callable")),
        }
    }

    /// The stack effect of calling an object.
    pub fn get_stack_effect(&self, obj: &Object) -> (r: Result<StackEffect, Error>)
        ensures
            effect_matches(r, call_effect(*self, obj@)),
    {
        match obj {
            Object::Table(t) => {
                let a = self.table_get_attr(*t, chars_of("__call__").as_slice());
                match a {
                    Some(o) => {
                        assert(call_effect(*self, obj@) == direct_effect(*self, o@));
                        self.direct_stack_effect(&o)
                    },
                    None => Err(type_error("not callable")),
                }
            },
            _ => self.direct_stack_effect(obj),
        }
    }

    /// The stack effect of an instruction.
    pub fn op_effect(&self, op: &Opcode) -> (r: Result<StackEffect, Error>)
        ensures
            op_effect_matches(*self, *op, r),
    {
        match op {
            Opcode::Push(_) => Ok(StackEffect::new_pushing("x")),
            Opcode::Call(o) => self.get_stack_effect(o),
            Opcode::CallDirect(c) => StackEffect::parse(builtin_effect(c.builtin())),
            Opcode::TailRecurse => Err(Error::RuntimeError(chars_of("no stack effect for tail recursion"))),
        }
    }

    /// The stack effect of code: the effects of its instructions chained,
    /// starting from the effect that changes nothing.
    pub fn code_effect(&self, code: &ByteCode) -> (r: Result<StackEffect, Error>)
        ensures
            code.ops@.len() == 0 ==> (r matches Ok(se) && se@ == (SEffect { inputs: seq![anon_row()], outputs: seq![anon_row()] })),
            code.ops@.len() == 1 && code.ops@[0] is Push ==> r is Ok,
            r is Ok ==> forall|j: int| 0 <= j < code.ops@.len() ==> !(#[trigger] code.ops@[j] is TailRecurse),
            r matches Ok(se) ==> code_chains(*self, code.ops@, se@),
    {
        let ghost one = code.ops@.len() == 1 && code.ops@[0] is Push;
        let mut se = StackEffect::new();
        let mut i: usize = 0;
        while i < code.ops.len()
            invariant
                i <= code.ops@.len(),
                forall|j: int| 0 <= j < i ==> !(#[trigger] code.ops@[j] is TailRecurse),
                code.ops@.len() == 0 ==> se@ == (SEffect { inputs: seq![anon_row()], outputs: seq![anon_row()] }),
                i == 0 ==> se@ == (SEffect { inputs: seq![anon_row()], outputs: seq![anon_row()] }),
                one == (code.ops@.len() == 1 && code.ops@[0] is Push),
                code_chains(*self, code.ops@.take(i as int), se@),
            decreases code.ops@.len() - i,
        {
            let ghost before = se@;
            let e = self.op_effect(&code.ops[i])?;
            proof {
                if one {
                    reveal_strlit("x");
                    assert("x"@.len() == 1 && "x"@[0] == 'x');
                    assert(e@.outputs[1] == SNode::Item("x"@));
                    assert("x"@ != seq!['_']);
                    assert(row_push(e@));
                    assert(row_push(se@));
                }
            }
            se = se.chain(&e)?;
            proof {
                let ops = code.ops@;
                assert(ops.take(i + 1).drop_last() =~= ops.take(i as int));
                assert(ops.take(i + 1).last() == ops[i as int]);
                assert(op_effect_is(*self, ops[i as int], e@));
                assert(chains_to(before, e@, se@));
            }
            i = i + 1;
        }
        assert(code.ops@.take(i as int) =~= code.ops@);
        Ok(se)
    }
}

/// `s` is the stack effect of the instruction: a push leaves one more value,
/// a call has the effect of what it calls.
pub open spec fn op_effect_is(st: State, op: Opcode, s: SEffect) -> bool {
    match op {
        Opcode::Push(_) => s == (SEffect { inputs: seq![anon_row()], outputs: seq![anon_row(), SNode::Item("x"@)] }),
        Opcode::Call(o) => call_effect(st, o@) == Some(Ok::<SEffect, Error>(s)),
        Opcode::CallDirect(c) => spec_parse(builtin_effect_text(crate::interp::callable_builtin(c))) == Ok::<SEffect, Error>(s),
        Opcode::TailRecurse => false,
    }
}

/// `r` is the stack effect of the code `ops`, run in order: for no
/// instructions the effect that changes nothing, else the effect of all but
/// the last instruction chained with the effect of the last one.
pub open spec fn code_chains(st: State, ops: Seq<Opcode>, r: SEffect) -> bool
    decreases ops.len(),
{
    if ops.len() == 0 {
        r == (SEffect { inputs: seq![anon_row()], outputs: seq![anon_row()] })
    } else {
        exists|p: SEffect, e: SEffect| #[trigger] chains_to(p, e, r) && code_chains(st, ops.drop_last(), p) && op_effect_is(st, ops.last(), e)
    }
}

/// The effect of code with one more instruction at its end is the effect of
/// the code before it chained with the effect of that instruction, in that
/// order.
pub proof fn law_code_effect_appends(st: State, ops: Seq<Opcode>, op: Opcode, r: SEffect)
    ensures
        code_chains(st, ops.push(op), r) == exists|p: SEffect, e: SEffect| #[trigger] chains_to(p, e, r) && code_chains(st, ops, p) && op_effect_is(st, op, e),
{
    assert(ops.push(op).drop_last() =~= ops);
    assert(ops.push(op).last() == op);
}

/// Code that pushes a value and then runs an instruction that only takes
/// values, `(..a x1 .. xm -- ..a)` with `m >= 1`, takes one value fewer than
/// that instruction, the pushed value standing for its top one, and leaves
/// nothing on the stack.
pub proof fn law_push_then_take(st: State, x: Object, op: Opcode, s: SEffect, r: SEffect)
    requires
        op_effect_is(st, op, s),
        row_take(s),
        s.inputs.len() >= 2,
        code_chains(st, seq![Opcode::Push(x), op], r),
    ensures
        r.inputs.len() == s.inputs.len() - 1,
        r.outputs.len() == 1,
{
    let ops = seq![Opcode::Push(x), op];
    assert(ops.drop_last() =~= seq![Opcode::Push(x)]);
    assert(ops.last() == op);
    let (p, e) = choose|p: SEffect, e: SEffect| #[trigger] chains_to(p, e, r) && code_chains(st, ops.drop_last(), p) && op_effect_is(st, ops.last(), e);
    assert(e == s);
    let one = seq![Opcode::Push(x)];
    assert(one.drop_last() =~= Seq::<Opcode>::empty());
    let (p0, e0) = choose|p0: SEffect, e0: SEffect| #[trigger] chains_to(p0, e0, p) && code_chains(st, one.drop_last(), p0) && op_effect_is(st, one.last(), e0);
    reveal_strlit("x");
    assert("x"@.len() == 1 && "x"@[0] == 'x');
    assert("x"@ != seq!['_']);
    assert(row_push(p0));
    assert(row_push(e0));
    assert(effect_names(p0) =~= seq![seq!['_'], seq!['_']]) by {
        reveal_with_fuel(seq_names, 2);
        assert(p0.inputs.subrange(0, 0) =~= Seq::<SNode>::empty());
    }
    assert(!effect_names(p0).contains("x"@)) by {
        if effect_names(p0).contains("x"@) {
            let k = choose|k: int| 0 <= k < effect_names(p0).len() && effect_names(p0)[k] == "x"@;
            assert(k == 0 || k == 1);
        }
    }
    assert(items_apart(p0, e0));
    assert(p.outputs =~= seq![SNode::Row(Seq::empty()), SNode::Item("x"@)]);
    assert(p.inputs == seq![SNode::Row(Seq::empty())]);
    assert(p.outputs.len() == 2);
    assert(p.outputs[0] == SNode::Row(Seq::empty()));
    assert(p.outputs[1] is Item);
    assert(row_push(p));
}

/// The stack effect of calling a value directly: a word's own, a native
/// function's read from its text; `None` for anything else.
pub open spec fn direct_effect(st: State, o: OView) -> Option<Result<SEffect, Error>> {
    match o {
        OView::Word(w) => if w.0 < st.entries@.len() {
            Some(Ok(st.entries@[w.0 as int].stack_effect@))
        } else {
            None
        },
        OView::Function(c) => Some(spec_parse(builtin_effect_text(crate::interp::callable_builtin(c)))),
        _ => None,
    }
}

/// The stack effect of calling an object: that of the value itself, or for
/// a table that of its `__call__` attribute; `None` where nothing can be
/// called.
pub open spec fn call_effect(st: State, o: OView) -> Option<Result<SEffect, Error>> {
    match o {
        OView::Table(t) => if t < st.tables@.len() {
            match attr_lookup(st.tables@[t as int].attributes@, "__call__"@) {
                Some(v) => direct_effect(st, v@),
                None => None,
            }
        } else {
            None
        },
        _ => direct_effect(st, o),
    }
}

/// The result is the stack effect that was asked for: the effect, the
/// parse error, or a type error where there is none.
pub open spec fn effect_matches(r: Result<StackEffect, Error>, x: Option<Result<SEffect, Error>>) -> bool {
    match x {
        Some(Ok(s)) => r matches Ok(se) && se@ == s,
        Some(Err(e)) => r == Err::<StackEffect, Error>(e),
        None => r matches Err(Error::TypeError(_)),
    }
}

/// The stack effect of an instruction: a push leaves one more value, a
/// call has the effect of what it calls.
pub open spec fn op_effect_matches(st: State, op: Opcode, r: Result<StackEffect, Error>) -> bool {
    match op {
        Opcode::Push(_) => r matches Ok(se) && se@ == (SEffect {
            inputs: seq![anon_row()],
            outputs: seq![anon_row(), SNode::Item("x"@)],
        }),
        Opcode::Call(o) => effect_matches(r, call_effect(st, o@)),
        Opcode::CallDirect(c) => effect_matches(r, Some(spec_parse(builtin_effect_text(crate::interp::callable_builtin(c))))),
        Opcode::TailRecurse => r is Err,
    }
}

/// The position of the first attribute with the name.
/// The value of the method `name` of a table's meta table, if it has one.
pub open spec fn meta_method(tables: Seq<TableImpl>, t: usize, name: Seq<char>) -> Option<OView> {
    if t >= tables.len() {
        None
    } else {
        match tables[t as int].meta {
            Some(m) => if m < tables.len() {
                match attr_index(tables[m as int].attributes@, name) {
                    Some(i) => Some(tables[m as int].attributes@[i].1@),
                    None => None,
                }
            } else {
                None
            },
            None => None,
        }
    }
}

pub open spec fn attr_index(attrs: Seq<(Vec<char>, Object)>, name: Seq<char>) -> Option<int> {
    if exists|i: int| 0 <= i < attrs.len() && attrs[i].0@ == name {
        Some(choose|i: int| 0 <= i < attrs.len() && attrs[i].0@ == name && forall|j: int| 0 <= j < i ==> attrs[j].0@ != name)
    } else {
        None
    }
}

proof fn lemma_attr_index_is(attrs: Seq<(Vec<char>, Object)>, name: Seq<char>, i: int)
    requires
        0 <= i < attrs.len(),
        attrs[i].0@ == name,
        forall|j: int| 0 <= j < i ==> attrs[j].0@ != name,
    ensures
        attr_index(attrs, name) == Some(i),
{
    let c = choose|k: int| 0 <= k < attrs.len() && attrs[k].0@ == name && forall|j: int| 0 <= j < k ==> attrs[j].0@ != name;
    assert(attrs[i].0@ == name && forall|j: int| 0 <= j < i ==> attrs[j].0@ != name);
    if c < i {
        assert(attrs[c].0@ != name);
    }
    if c > i {
        assert(attrs[i].0@ != name);
    }
}

proof fn lemma_attr_index_set(before: Seq<(Vec<char>, Object)>, after: Seq<(Vec<char>, Object)>, i: int, name: Seq<char>)
    requires
        0 <= i < before.len(),
        before[i].0@ == name,
        forall|j: int| 0 <= j < i ==> before[j].0@ != name,
        after.len() == before.len(),
        after[i].0@ == name,
        forall|j: int| 0 <= j < before.len() && j != i ==> after[j] == before[j],
    ensures
        attr_index(after, name) == Some(i),
{
    assert forall|j: int| 0 <= j < i implies after[j].0@ != name by {
        assert(after[j] == before[j]);
    }
    lemma_attr_index_is(after, name, i);
}

proof fn lemma_attr_index_push(before: Seq<(Vec<char>, Object)>, after: Seq<(Vec<char>, Object)>, name: Seq<char>)
    requires
        forall|j: int| 0 <= j < before.len() ==> before[j].0@ != name,
        after.len() == before.len() + 1,
        after[before.len() as int].0@ == name,
        forall|j: int| 0 <= j < before.len() ==> after[j] == before[j],
    ensures
        attr_index(after, name) == Some(before.len() as int),
{
    assert forall|j: int| 0 <= j < before.len() implies after[j].0@ != name by {
        assert(after[j] == before[j]);
    }
    lemma_attr_index_is(after, name, before.len() as int);
}

/// The value of the first attribute with the name.
pub open spec fn attr_lookup(attrs: Seq<(Vec<char>, Object)>, name: Seq<char>) -> Option<Object> {
    match attr_index(attrs, name) {
        Some(i) => Some(attrs[i].1),
        None => None,
    }
}

/// `after` is `before` with the attribute `name` set to `value`: that
/// attribute now has the value, every other keeps its own.
pub open spec fn attrs_set(before: Seq<(Vec<char>, Object)>, after: Seq<(Vec<char>, Object)>, name: Seq<char>, value: Object) -> bool {
    &&& attr_lookup(after, name) == Some(value)
    &&& forall|m: Seq<char>| m != name ==> #[trigger] attr_lookup(after, m) == attr_lookup(before, m)
}

/// What `attr_index` finds: the first attribute with the name, or none.
proof fn lemma_attr_index_spec(a: Seq<(Vec<char>, Object)>, m: Seq<char>)
    ensures
        match attr_index(a, m) {
            Some(i) => 0 <= i < a.len() && a[i].0@ == m && forall|j: int| 0 <= j < i ==> a[j].0@ != m,
            None => forall|j: int| 0 <= j < a.len() ==> a[j].0@ != m,
        },
{
    if exists|i: int| 0 <= i < a.len() && a[i].0@ == m {
        let w = choose|i: int| 0 <= i < a.len() && a[i].0@ == m;
        lemma_first_named(a, m, w);
    }
}

/// If some attribute has the name, there is a first one.
proof fn lemma_first_named(a: Seq<(Vec<char>, Object)>, m: Seq<char>, w: int)
    requires
        0 <= w < a.len(),
        a[w].0@ == m,
    ensures
        exists|i: int| 0 <= i < a.len() && a[i].0@ == m && forall|j: int| 0 <= j < i ==> a[j].0@ != m,
    decreases w,
{
    if exists|j: int| 0 <= j < w && a[j].0@ == m {
        let j = choose|j: int| 0 <= j < w && a[j].0@ == m;
        lemma_first_named(a, m, j);
    } else {
        assert(0 <= w < a.len() && a[w].0@ == m && forall|j: int| 0 <= j < w ==> a[j].0@ != m);
    }
}

/// Attributes with the same names in the same places are found in the
/// same places.
proof fn lemma_attr_index_same_keys(a: Seq<(Vec<char>, Object)>, b: Seq<(Vec<char>, Object)>, m: Seq<char>)
    requires
        a.len() == b.len(),
        forall|j: int| 0 <= j < a.len() ==> a[j].0@ == b[j].0@,
    ensures
        attr_index(a, m) == attr_index(b, m),
{
    lemma_attr_index_spec(a, m);
    lemma_attr_index_spec(b, m);
    match attr_index(a, m) {
        Some(i) => {
            assert forall|j: int| 0 <= j < i implies b[j].0@ != m by {
                assert(a[j].0@ == b[j].0@);
            }
            assert(b[i].0@ == m);
            lemma_attr_index_is(b, m, i);
        },
        None => {
            match attr_index(b, m) {
                Some(i) => {
                    assert(a[i].0@ == b[i].0@);
                },
                None => {},
            }
        },
    }
}

/// A new attribute of another name does not change where a name is found.
proof fn lemma_attr_index_push_other(before: Seq<(Vec<char>, Object)>, after: Seq<(Vec<char>, Object)>, name: Seq<char>, m: Seq<char>)
    requires
        m != name,
        after.len() == before.len() + 1,
        after[before.len() as int].0@ == name,
        forall|j: int| 0 <= j < before.len() ==> after[j] == before[j],
    ensures
        attr_lookup(after, m) == attr_lookup(before, m),
{
    lemma_attr_index_spec(before, m);
    lemma_attr_index_spec(after, m);
    match attr_index(before, m) {
        Some(i) => {
            assert forall|j: int| 0 <= j < i implies after[j].0@ != m by {
                assert(after[j] == before[j]);
            }
            assert(after[i] == before[i]);
            lemma_attr_index_is(after, m, i);
        },
        None => {
            match attr_index(after, m) {
                Some(i) => {
                    if i < before.len() {
                        assert(after[i] == before[i]);
                    }
                },
                None => {},
            }
        },
    }
}

/// Sets the attribute `name` to `value`: the first attribute of that name
/// gets it, or a new one is added at the end.
fn set_attr_in(attrs: &mut Vec<(Vec<char>, Object)>, name: &[char], value: Object)
    ensures
        attrs_set(old(attrs)@, final(attrs)@, name@, value),
{
    match find_attr(attrs, name) {
        Some(i) => {
            let ghost before = attrs@;
            attrs.set(i, (copy_chars(name), value));
            proof {
                lemma_attr_index_set(before, attrs@, i as int, name@);
                assert forall|m: Seq<char>| m != name@ implies #[trigger] attr_lookup(attrs@, m) == attr_lookup(before, m) by {
                    lemma_attr_index_same_keys(before, attrs@, m);
                    lemma_attr_index_spec(before, m);
                    match attr_index(before, m) {
                        Some(j) => {
                            assert(j != i);
                        },
                        None => {},
                    }
                }
            }
        },
        None => {
            let ghost before = attrs@;
            attrs.push((copy_chars(name), value));
            proof {
                lemma_attr_index_push(before, attrs@, name@);
                assert forall|m: Seq<char>| m != name@ implies #[trigger] attr_lookup(attrs@, m) == attr_lookup(before, m) by {
                    lemma_attr_index_push_other(before, attrs@, name@, m);
                }
            }
        },
    }
}

/// Reading a table attribute after writing it gives the value written,
/// and every other attribute keeps the value it had.
pub proof fn law_attr_read_after_write(before: Seq<(Vec<char>, Object)>, after: Seq<(Vec<char>, Object)>,
    name: Seq<char>, value: Object, other: Seq<char>)
    requires
        attrs_set(before, after, name, value),
    ensures
        attr_lookup(after, name) == Some(value),
        other != name ==> attr_lookup(after, other) == attr_lookup(before, other),
{
}

/// Finds the first attribute with the name.
fn find_attr(attrs: &Vec<(Vec<char>, Object)>, name: &[char]) -> (r: Option<usize>)
    ensures
        match r {
            Some(i) => i < attrs@.len() && attr_index(attrs@, name@) == Some(i as int) && attrs@[i as int].0@
                == name@ && forall|j: int| 0 <= j < i ==> attrs@[j].0@ != name@,
            None => attr_index(attrs@, name@) is None && forall|j: int| 0 <= j < attrs@.len() ==> attrs@[j].0@ != name@,
        },
{
    let mut i: usize = 0;
    while i < attrs.len()
        invariant
            i <= attrs@.len(),
            forall|j: int| 0 <= j < i ==> attrs@[j].0@ != name@,
        decreases attrs@.len() - i,
    {
        if chars_eq(attrs[i].0.as_slice(), name) {
            proof {
                lemma_attr_index_is(attrs@, name@, i as int);
            }
            return Some(i);
        }
        i = i + 1;
    }
    None
}


impl Opcode {
    /// The stack effect of the instruction in the given state (see
    /// `State::op_effect`).
    pub fn stack_effect(&self, state: &State) -> (r: Result<StackEffect, Error>)
        requires
            !(*self is TailRecurse),
            *self matches Opcode::Call(o) ==> call_effect(*state, o@) matches Some(Ok(_)),
        ensures
            op_effect_matches(*state, *self, r),
    {
        state.op_effect(self)
    }
}


impl Object {
    /// The stack effect of calling the object in the given state (see
    /// `State::get_stack_effect`).
    pub fn get_stack_effect(&self, state: &State) -> (r: Result<StackEffect, Error>)
        ensures
            effect_matches(r, call_effect(*state, self@)),
    {
        state.get_stack_effect(self)
    }

    /// A new empty table of the state, as an object.
    pub fn new_table(state: &mut State) -> (r: Object)
        ensures
            r == Object::Table(old(state).tables@.len() as usize),
            final(state).tables@.len() == old(state).tables@.len() + 1,
            forall|i: int| 0 <= i < old(state).tables@.len() ==> final(state).tables@[i] == old(state).tables@[i],
            final(state).tables@[old(state).tables@.len() as int].attributes@.len() == 0,
            final(state).tables@[old(state).tables@.len() as int].meta is None,
            final(state).stack == old(state).stack,
    {
        state.new_table()
    }
}

} // verus!
