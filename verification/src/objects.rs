//! The values of the language: integers, booleans, strings, lists, tables,
//! words, native functions and compiled code.
use vstd::prelude::*;
use crate::errors::Error;
use crate::text::{copy_chars, chars_eq};

verus! {

/// The identity of a dictionary entry: its index in the interpreter's list
/// of entries.
#[derive(Debug, Clone, Copy, PartialEq, Eq, Structural)]
pub struct WordId(pub usize);

/// The native operations of the language.
#[derive(Debug, Clone, Copy, PartialEq, Eq, Structural)]
pub enum Builtin {
    Semicolon,
    CloseBracket,
    NextToken,
    Module,
    Use,
    Syntax,
    Let,
    Colon,
    OpenBracket,
    Comment,
    Call,
    If,
    EndModule,
    PushFrame,
    PopFrame,
    Store,
    Fetch,
    SetVar(WordId),
    GetVar(WordId),
    DoubleColon(WordId, WordId),
    Cond,
    Repeat,
    For,
    While,
    Repr,
    Same,
    Not,
    Eq,
    Ne,
    Lt,
    Gt,
    Le,
    Ge,
    Add,
    Sub,
    Mul,
    Div,
    Dup,
    Drop,
    Swap,
    Over,
    Rot,
    StrToList,
    ListMake,
    ListDestructure,
    ListReverse,
    ListEmpty,
    ListLen,
    ListGet,
    ListSet,
    PopBack,
    PopFront,
    PushBack,
    PushFront,
    NewTable,
    SetMetatable,
    GetMetatable,
    SetAttr,
    GetAttrRaw,
    GetAttr,
    GetAttribute,
    HasAttr,
    SetAttrNamed,
    GetAttrRawNamed,
    GetAttrNamed,
    HasAttrNamed,
    PushNone,
    PrintStack,
    PrintTop,
    Words,
}

/// A native function: pure ones only touch the stack, the others may use
/// the whole interpreter.
#[derive(Debug, Clone, Copy, PartialEq, Eq, Structural)]
pub enum Callable {
    Pure(Builtin),
    Const(Builtin),
    Mutie(Builtin),
}

/// One instruction of compiled code.
#[derive(Debug)]
pub enum Opcode {
    /// push the object
    Push(Object),
    /// call the object
    Call(Object),
    /// call the native function
    CallDirect(Callable),
    /// start over from the first instruction
    TailRecurse,
}

/// Compiled code.
#[derive(Debug)]
pub struct ByteCode {
    pub ops: Vec<Opcode>,
}

/// A dynamically typed value.
#[derive(Debug)]
pub enum Object {
    Nil,
    False,
    True,
    I32(i32),
    Word(WordId),
    ByteCode(ByteCode),
    Function(Callable),
    List(Vec<Object>),
    String(Vec<char>),
    /// a table, by its index in the interpreter's tables
    Table(usize),
}

/// A table: named attributes and an optional meta table.
#[derive(Debug)]
pub struct TableImpl {
    pub attributes: Vec<(Vec<char>, Object)>,
    pub meta: Option<usize>,
}

/// The mathematical value of an object.
pub enum OView {
    Nil,
    False,
    True,
    I32(i32),
    Word(WordId),
    ByteCode(Seq<OpView>),
    Function(Callable),
    List(Seq<OView>),
    String(Seq<char>),
    Table(usize),
}

/// The mathematical value of an instruction.
pub enum OpView {
    Push(OView),
    Call(OView),
    CallDirect(Callable),
    TailRecurse,
}

pub open spec fn view_obj(o: Object) -> OView
    decreases o,
{
    match o {
        Object::Nil => OView::Nil,
        Object::False => OView::False,
        Object::True => OView::True,
        Object::I32(i) => OView::I32(i),
        Object::Word(w) => OView::Word(w),
        Object::ByteCode(bc) => OView::ByteCode(view_ops(bc.ops@)),
        Object::Function(c) => OView::Function(c),
        Object::List(v) => OView::List(view_objs(v@)),
        Object::String(s) => OView::String(s@),
        Object::Table(t) => OView::Table(t),
    }
}

pub open spec fn view_objs(s: Seq<Object>) -> Seq<OView>
    decreases s,
{
    if s.len() == 0 {
        Seq::empty()
    } else {
        view_objs(s.subrange(0, s.len() - 1)).push(view_obj(s[s.len() - 1]))
    }
}

pub open spec fn view_op(op: Opcode) -> OpView
    decreases op,
{
    match op {
        Opcode::Push(o) => OpView::Push(view_obj(o)),
        Opcode::Call(o) => OpView::Call(view_obj(o)),
        Opcode::CallDirect(c) => OpView::CallDirect(c),
        Opcode::TailRecurse => OpView::TailRecurse,
    }
}

pub open spec fn view_ops(s: Seq<Opcode>) -> Seq<OpView>
    decreases s,
{
    if s.len() == 0 {
        Seq::empty()
    } else {
        view_ops(s.subrange(0, s.len() - 1)).push(view_op(s[s.len() - 1]))
    }
}

pub proof fn lemma_view_objs(s: Seq<Object>)
    ensures
        view_objs(s).len() == s.len(),
        forall|k: int| 0 <= k < s.len() ==> #[trigger] view_objs(s)[k] == view_obj(s[k]),
    decreases s.len(),
{
    if s.len() > 0 {
        let t = s.subrange(0, s.len() - 1);
        lemma_view_objs(t);
        assert forall|k: int| 0 <= k < s.len() implies #[trigger] view_objs(s)[k] == view_obj(s[k]) by {
            if k < s.len() - 1 {
                assert(t[k] == s[k]);
            }
        }
    }
}

pub proof fn lemma_view_ops(s: Seq<Opcode>)
    ensures
        view_ops(s).len() == s.len(),
        forall|k: int| 0 <= k < s.len() ==> #[trigger] view_ops(s)[k] == view_op(s[k]),
    decreases s.len(),
{
    if s.len() > 0 {
        let t = s.subrange(0, s.len() - 1);
        lemma_view_ops(t);
        assert forall|k: int| 0 <= k < s.len() implies #[trigger] view_ops(s)[k] == view_op(s[k]) by {
            if k < s.len() - 1 {
                assert(t[k] == s[k]);
            }
        }
    }
}

/// Two sequences of objects with equal elements have equal views.
pub proof fn lemma_view_objs_ext(a: Seq<Object>, b: Seq<Object>)
    requires
        a.len() == b.len(),
        forall|k: int| 0 <= k < a.len() ==> view_obj(#[trigger] a[k]) == view_obj(b[k]),
    ensures
        view_objs(a) == view_objs(b),
{
    lemma_view_objs(a);
    lemma_view_objs(b);
    assert(view_objs(a) =~= view_objs(b));
}

impl View for Object {
    type V = OView;

    open spec fn view(&self) -> OView {
        view_obj(*self)
    }
}

impl View for Opcode {
    type V = OpView;

    open spec fn view(&self) -> OpView {
        view_op(*self)
    }
}

impl View for ByteCode {
    type V = Seq<OpView>;

    open spec fn view(&self) -> Seq<OpView> {
        view_ops(self.ops@)
    }
}

/// A copy of an object.
pub fn clone_object(o: &Object) -> (r: Object)
    ensures
        r@ == o@,
    decreases o,
{
    match o {
        Object::Nil => Object::Nil,
        Object::False => Object::False,
        Object::True => Object::True,
        Object::I32(i) => Object::I32(*i),
        Object::Word(w) => Object::Word(*w),
        Object::ByteCode(bc) => Object::ByteCode(ByteCode { ops: clone_ops(&bc.ops) }),
        Object::Function(c) => Object::Function(*c),
        Object::List(v) => Object::List(clone_objects(v)),
        Object::String(s) => Object::String(copy_chars(s.as_slice())),
        Object::Table(t) => Object::Table(*t),
    }
}

/// A copy of a list of objects.
pub fn clone_objects(v: &Vec<Object>) -> (r: Vec<Object>)
    ensures
        view_objs(r@) == view_objs(v@),
        r@.len() == v@.len(),
    decreases v,
{
    let mut out: Vec<Object> = Vec::new();
    let mut i: usize = 0;
    while i < v.len()
        invariant
            i <= v@.len(),
            out@.len() == i,
            forall|k: int| 0 <= k < i ==> view_obj(#[trigger] out@[k]) == view_obj(v@[k]),
        decreases v@.len() - i,
    {
        assert(decreases_to!(v => v@));
        assert(decreases_to!(v@ => v@[i as int]));
        let c = clone_object(&v[i]);
        out.push(c);
        i = i + 1;
    }
    proof {
        lemma_view_objs_ext(out@, v@);
    }
    out
}

/// A copy of an instruction.
pub fn clone_op(op: &Opcode) -> (r: Opcode)
    ensures
        r@ == op@,
    decreases op,
{
    match op {
        Opcode::Push(o) => Opcode::Push(clone_object(o)),
        Opcode::Call(o) => Opcode::Call(clone_object(o)),
        Opcode::CallDirect(c) => Opcode::CallDirect(*c),
        Opcode::TailRecurse => Opcode::TailRecurse,
    }
}

/// A copy of a list of instructions.
pub fn clone_ops(v: &Vec<Opcode>) -> (r: Vec<Opcode>)
    ensures
        view_ops(r@) == view_ops(v@),
        r@.len() == v@.len(),
    decreases v,
{
    let mut out: Vec<Opcode> = Vec::new();
    let mut i: usize = 0;
    while i < v.len()
        invariant
            i <= v@.len(),
            out@.len() == i,
            forall|k: int| 0 <= k < i ==> view_op(#[trigger] out@[k]) == view_op(v@[k]),
        decreases v@.len() - i,
    {
        assert(decreases_to!(v => v@));
        assert(decreases_to!(v@ => v@[i as int]));
        let c = clone_op(&v[i]);
        out.push(c);
        i = i + 1;
    }
    proof {
        lemma_view_ops(out@);
        lemma_view_ops(v@);
        assert(view_ops(out@) =~= view_ops(v@));
    }
    out
}

/// Whether two objects have the same value.
pub fn objects_equal(a: &Object, b: &Object) -> (r: bool)
    ensures
        r == (a@ == b@),
    decreases a,
{
    match (a, b) {
        (Object::Nil, Object::Nil) => true,
        (Object::False, Object::False) => true,
        (Object::True, Object::True) => true,
        (Object::I32(x), Object::I32(y)) => *x == *y,
        (Object::Word(x), Object::Word(y)) => x.0 == y.0,
        (Object::ByteCode(x), Object::ByteCode(y)) => ops_equal(&x.ops, &y.ops),
        (Object::Function(x), Object::Function(y)) => *x == *y,
        (Object::List(x), Object::List(y)) => lists_equal(x, y),
        (Object::String(x), Object::String(y)) => chars_eq(x.as_slice(), y.as_slice()),
        (Object::Table(x), Object::Table(y)) => *x == *y,
        _ => false,
    }
}

/// Whether two lists of objects have the same values.
pub fn lists_equal(a: &Vec<Object>, b: &Vec<Object>) -> (r: bool)
    ensures
        r == (view_objs(a@) == view_objs(b@)),
    decreases a,
{
    proof {
        lemma_view_objs(a@);
        lemma_view_objs(b@);
    }
    if a.len() != b.len() {
        return false;
    }
    let mut i: usize = 0;
    while i < a.len()
        invariant
            i <= a@.len(),
            a@.len() == b@.len(),
            view_objs(a@).len() == a@.len(),
            view_objs(b@).len() == b@.len(),
            forall|k: int| 0 <= k < a@.len() ==> #[trigger] view_objs(a@)[k] == view_obj(a@[k]),
            forall|k: int| 0 <= k < b@.len() ==> #[trigger] view_objs(b@)[k] == view_obj(b@[k]),
            forall|k: int| 0 <= k < i ==> view_obj(#[trigger] a@[k]) == view_obj(b@[k]),
        decreases a@.len() - i,
    {
        assert(decreases_to!(a => a@));
        assert(decreases_to!(a@ => a@[i as int]));
        if !objects_equal(&a[i], &b[i]) {
            assert(view_objs(a@)[i as int] != view_objs(b@)[i as int]);
            return false;
        }
        i = i + 1;
    }
    proof {
        lemma_view_objs_ext(a@, b@);
    }
    true
}

/// Whether two instructions are the same.
pub fn op_equal(a: &Opcode, b: &Opcode) -> (r: bool)
    ensures
        r == (a@ == b@),
    decreases a,
{
    match (a, b) {
        (Opcode::Push(x), Opcode::Push(y)) => objects_equal(x, y),
        (Opcode::Call(x), Opcode::Call(y)) => objects_equal(x, y),
        (Opcode::CallDirect(x), Opcode::CallDirect(y)) => *x == *y,
        (Opcode::TailRecurse, Opcode::TailRecurse) => true,
        _ => false,
    }
}

/// Whether two instruction lists are the same.
pub fn ops_equal(a: &Vec<Opcode>, b: &Vec<Opcode>) -> (r: bool)
    ensures
        r == (view_ops(a@) == view_ops(b@)),
    decreases a,
{
    proof {
        lemma_view_ops(a@);
        lemma_view_ops(b@);
    }
    if a.len() != b.len() {
        return false;
    }
    let mut i: usize = 0;
    while i < a.len()
        invariant
            i <= a@.len(),
            a@.len() == b@.len(),
            view_ops(a@).len() == a@.len(),
            view_ops(b@).len() == b@.len(),
            forall|k: int| 0 <= k < a@.len() ==> #[trigger] view_ops(a@)[k] == view_op(a@[k]),
            forall|k: int| 0 <= k < b@.len() ==> #[trigger] view_ops(b@)[k] == view_op(b@[k]),
            forall|k: int| 0 <= k < i ==> view_op(#[trigger] a@[k]) == view_op(b@[k]),
        decreases a@.len() - i,
    {
        assert(decreases_to!(a => a@));
        assert(decreases_to!(a@ => a@[i as int]));
        if !op_equal(&a[i], &b[i]) {
            assert(view_ops(a@)[i as int] != view_ops(b@)[i as int]);
            return false;
        }
        i = i + 1;
    }
    proof {
        assert(view_ops(a@) =~= view_ops(b@));
    }
    true
}

/// A message naming a type error.
pub fn type_error(msg: &str) -> (r: Error)
    ensures
        r matches Error::TypeError(m) && m@ == msg@,
{
    Error::TypeError(crate::text::chars_of(msg))
}

impl Object {
    /// Whether two objects are the same value.
    pub fn is_same(&self, other: &Object) -> (r: bool)
        ensures
            r == (self@ == other@),
    {
        objects_equal(self, other)
    }

    /// The elements of a list.
    pub fn into_rc_vec(self) -> (r: Result<Vec<Object>, Error>)
        ensures
            match self {
                Object::List(v) => r matches Ok(w) && w@ == v@,
                _ => r matches Err(Error::TypeError(_)),
            },
    {
        match self {
            Object::List(v) => Ok(v),
            _ => Err(type_error("not a list")),
        }
    }

    /// The truth value of a boolean.
    pub fn try_into_bool(self) -> (r: Result<bool, Error>)
        ensures
            match self {
                Object::True => r == Ok::<bool, Error>(true),
                Object::False => r == Ok::<bool, Error>(false),
                _ => r matches Err(Error::TypeError(_)),
            },
    {
        match self {
            Object::True => Ok(true),
            Object::False => Ok(false),
            _ => Err(type_error("not boolean")),
        }
    }

    /// The value of an integer.
    pub fn try_into_i32(self) -> (r: Result<i32, Error>)
        ensures
            match self {
                Object::I32(i) => r == Ok::<i32, Error>(i),
                _ => r matches Err(Error::TypeError(_)),
            },
    {
        match self {
            Object::I32(i) => Ok(i),
            _ => Err(type_error("no integer")),
        }
    }

    /// The characters of a string.
    pub fn try_into_rc_string(self) -> (r: Result<Vec<char>, Error>)
        ensures
            match self {
                Object::String(s) => r matches Ok(t) && t@ == s@,
                _ => r matches Err(Error::TypeError(_)),
            },
    {
        match self {
            Object::String(s) => Ok(s),
            _ => Err(type_error("no string")),
        }
    }

    /// The compiled code of a quotation.
    pub fn try_into_rc_quotation(self) -> (r: Result<ByteCode, Error>)
        ensures
            match self {
                Object::ByteCode(bc) => r matches Ok(c) && c@ == bc@,
                _ => r matches Err(Error::TypeError(_)),
            },
    {
        match self {
            Object::ByteCode(bc) => Ok(bc),
            _ => Err(type_error("no quotation")),
        }
    }

    /// The compiled code of a quotation, to change it in place.
    pub fn try_as_quotation_mut(&mut self) -> (r: Result<&mut ByteCode, Error>)
        ensures
            match *old(self) {
                Object::ByteCode(bc) => r matches Ok(c) && *c == bc && *final(self) == Object::ByteCode(
                    *final(c),
                ),
                _ => r matches Err(Error::TypeError(_)) && *final(self) == *old(self),
            },
    {
        match self {
            Object::ByteCode(bc) => Ok(bc),
            _ => Err(type_error("not a quotation")),
        }
    }

    /// The elements of a list, to change them in place.
    pub fn as_vec_mut(&mut self) -> (r: Result<&mut Vec<Object>, Error>)
        ensures
            match *old(self) {
                Object::List(v) => r matches Ok(c) && *c == v && *final(self) == Object::List(*final(c)),
                _ => r matches Err(Error::TypeError(_)) && *final(self) == *old(self),
            },
    {
        match self {
            Object::List(v) => Ok(v),
            _ => Err(type_error("not a list")),
        }
    }

    /// The elements of a list.
    pub fn as_slice(&self) -> (r: Result<&Vec<Object>, Error>)
        ensures
            match *self {
                Object::List(v) => r matches Ok(c) && *c == v,
                _ => r matches Err(Error::TypeError(_)),
            },
    {
        match self {
            Object::List(v) => Ok(v),
            _ => Err(type_error("not a list")),
        }
    }

    /// A boolean object.
    pub fn from_bool(b: bool) -> (r: Object)
        ensures
            r == (if b {
                Object::True
            } else {
                Object::False
            }),
    {
        if b {
            Object::True
        } else {
            Object::False
        }
    }
}

impl Callable {
    /// A native function that only uses the stack.
    pub fn new_pure(func: Builtin) -> (r: Callable)
        ensures
            r == Callable::Pure(func),
    {
        Callable::Pure(func)
    }

    /// A native function that may use the whole interpreter.
    pub fn new_const(func: Builtin) -> (r: Callable)
        ensures
            r == Callable::Const(func),
    {
        Callable::Const(func)
    }

    /// A native function that may use the whole interpreter and keeps state
    /// of its own.
    pub fn new_mutie(func: Builtin) -> (r: Callable)
        ensures
            r == Callable::Mutie(func),
    {
        Callable::Mutie(func)
    }

    /// Whether the function only uses the stack.
    pub fn is_pure(&self) -> (r: bool)
        ensures
            r == (*self is Pure),
    {
        match self {
            Callable::Pure(_) => true,
            _ => false,
        }
    }

    /// The native operation.
    pub fn builtin(&self) -> (r: Builtin)
        ensures
            r == match *self {
                Callable::Pure(b) => b,
                Callable::Const(b) => b,
                Callable::Mutie(b) => b,
            },
    {
        match self {
            Callable::Pure(b) => *b,
            Callable::Const(b) => *b,
            Callable::Mutie(b) => *b,
        }
    }
}

impl Opcode {
    /// An instruction that pushes an integer.
    pub fn push_i32(i: i32) -> (r: Opcode)
        ensures
            r@ == OpView::Push(OView::I32(i)),
    {
        Opcode::Push(Object::I32(i))
    }

    /// An instruction that calls a word.
    pub fn call_word(id: WordId) -> (r: Opcode)
        ensures
            r@ == OpView::Call(OView::Word(id)),
    {
        Opcode::Call(Object::Word(id))
    }

    /// An instruction that calls a native function.
    pub fn call_direct(ca: Callable) -> (r: Opcode)
        ensures
            r@ == OpView::CallDirect(ca),
    {
        Opcode::CallDirect(ca)
    }
}

impl ByteCode {
    /// Empty code.
    pub fn new() -> (r: ByteCode)
        ensures
            r@ == Seq::<OpView>::empty(),
    {
        ByteCode { ops: Vec::new() }
    }
}

impl TableImpl {
    /// A table without attributes or meta table.
    pub fn new() -> (r: TableImpl)
        ensures
            r.attributes@.len() == 0,
            r.meta is None,
    {
        TableImpl { attributes: Vec::new(), meta: None }
    }

    /// Sets the meta table.
    pub fn set_metatable(&mut self, meta: Option<usize>)
        ensures
            final(self).meta == meta,
            final(self).attributes == old(self).attributes,
    {
        self.meta = meta;
    }

    /// The meta table.
    pub fn get_metatable(&self) -> (r: Option<usize>)
        ensures
            r == self.meta,
    {
        self.meta
    }
}


/// A dynamic object: named attributes, the first of each name counting.
#[derive(Debug)]
pub struct DynamicObjectImpl {
    pub attributes: Vec<(Vec<char>, Object)>,
}

impl DynamicObjectImpl {
    /// An object without attributes.
    pub fn new() -> (r: DynamicObjectImpl)
        ensures
            r.attributes@.len() == 0,
    {
        DynamicObjectImpl { attributes: Vec::new() }
    }
}

} // verus!
