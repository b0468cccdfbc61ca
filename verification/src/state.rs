//! The interpreter state: the data stack, the input, the modules and the
//! words, and the operations on them that run no user code.
use vstd::prelude::*;
use crate::errors::Error;
use crate::objects::{Object, OView, WordId, Builtin, Callable, TableImpl, view_obj, view_objs, lemma_view_objs, clone_object};
use crate::dictionary::{Entry, Word, Dictionary, dict_view};
use crate::module::{Modules, Module, ModuleRef, mod_lookup};
use crate::object_factory::ObjectFactory;
use crate::scope::CompilerScope;
use crate::stack_effect::{StackEffect, spec_parse};
use crate::text::{chars_of, copy_chars, string_of};

verus! {

/// Whether tokens are run or compiled.
#[derive(Debug, Clone, Copy, PartialEq, Eq, Structural)]
pub enum Mode {
    Eval,
    Compile,
}

/// The interpreter.
#[derive(Debug)]
pub struct State {
    /// tokens still to be read, next first
    pub input_tokens: Vec<Vec<char>>,
    /// the data stack, top last
    pub stack: Vec<Object>,
    /// the local variables of the scoped words being run, innermost last
    pub frames: Vec<Vec<Object>>,
    pub factory: ObjectFactory,
    /// the variables of the scoped words being compiled, innermost last
    pub scopes: Vec<CompilerScope>,
    pub current_module: ModuleRef,
    pub root_module: ModuleRef,
    /// compile or eval, innermost last; eval when empty
    pub mode: Vec<Mode>,
    /// all dictionary entries; a word is its index here
    pub entries: Vec<Entry>,
    pub modules: Modules,
    /// all tables; a table object is its index here
    pub tables: Vec<TableImpl>,
    /// how many more calls may be made
    pub budget: u64,
    /// lines written by the words that print, for the program to show
    pub output: Vec<Vec<char>>,
}

/// A lone double quote, which no token of the input may be.
pub open spec fn lone_quote() -> Seq<char> {
    seq!['"']
}

/// In module `m`, the name stands for an entry that holds the word `w`.
pub open spec fn provides(st: State, m: int, name: Seq<char>, w: Word) -> bool {
    match mod_lookup(st.modules.mods@, m, name) {
        Some(id) => id.0 < st.entries@.len() && st.entries@[id.0 as int].word == w,
        None => false,
    }
}

/// Whether the text is a stack effect that parses.
pub open spec fn parses(t: Seq<char>) -> bool {
    spec_parse(t) is Ok
}

/// A native word that runs the builtin.
pub open spec fn native(b: Builtin) -> Word {
    Word::Word(Object::Function(Callable::Const(b)))
}

/// A native parsing word that runs the builtin.
pub open spec fn native_parse(b: Builtin) -> Word {
    Word::ParsingWord(Object::Function(Callable::Const(b)))
}

/// The stack as values, bottom first.
pub open spec fn stack_view(s: Seq<Object>) -> Seq<OView> {
    view_objs(s)
}

/// `swap`: the two top values exchanged.
pub open spec fn spec_swap<A>(s: Seq<A>) -> Seq<A> {
    s.drop_last().drop_last().push(s.last()).push(s[s.len() - 2])
}

/// `rot`: `a b c -- b c a`.
pub open spec fn spec_rot<A>(s: Seq<A>) -> Seq<A> {
    s.subrange(0, s.len() - 3).push(s[s.len() - 2]).push(s.last()).push(s[s.len() - 3])
}

/// `dup`: the top value twice.
pub open spec fn spec_dup<A>(s: Seq<A>) -> Seq<A> {
    s.push(s.last())
}

/// `over`: `a b -- a b a`.
pub open spec fn spec_over<A>(s: Seq<A>) -> Seq<A> {
    s.push(s[s.len() - 2])
}

/// Swapping twice leaves the stack as it was.
pub proof fn law_swap_swap<A>(s: Seq<A>)
    requires
        s.len() >= 2,
    ensures
        spec_swap(spec_swap(s)) == s,
{
    assert(spec_swap(spec_swap(s)) =~= s);
}

/// Rotating three times leaves the stack as it was.
pub proof fn law_rot_rot_rot<A>(s: Seq<A>)
    requires
        s.len() >= 3,
    ensures
        spec_rot(spec_rot(spec_rot(s))) == s,
{
    assert(spec_rot(spec_rot(spec_rot(s))) =~= s);
}

/// Dropping what `dup` pushed leaves the stack as it was.
pub proof fn law_dup_drop<A>(s: Seq<A>)
    requires
        s.len() >= 1,
    ensures
        spec_dup(s).drop_last() == s,
        spec_dup(s).last() == s.last(),
{
    assert(spec_dup(s).drop_last() =~= s);
}

/// `over` followed by `swap` is the same as `over` with the two top values
/// of the result exchanged: `a b -- a a b`.
pub proof fn law_over_swap<A>(s: Seq<A>)
    requires
        s.len() >= 2,
    ensures
        spec_swap(spec_over(s)) == s.drop_last().push(s[s.len() - 2]).push(s.last()),
{
    assert(spec_swap(spec_over(s)) =~= s.drop_last().push(s[s.len() - 2]).push(s.last()));
}

impl State {
    /// The modules are well formed and no pending token is a lone `"`.
    pub open spec fn wf(&self) -> bool {
        &&& self.modules.wf()
        &&& forall|i: int| 0 <= i < self.input_tokens@.len() ==> (#[trigger] self.input_tokens@[i])@ != lone_quote()
    }

    /// A state with an empty stack and an empty root module.
    pub fn new() -> (r: State)
        ensures
            r.wf(),
            r.stack@.len() == 0,
            r.input_tokens@.len() == 0,
            r.mode@.len() == 0,
            r.current_module == r.root_module,
            r.root_module.0 == 0,
            r.modules.mods@.len() == 1,
            r.modules.mods@[0].parent is None,
            r.modules.mods@[0].dict@.len() == 0,
            r.modules.mods@[0].submodules@.len() == 0,
            r.entries@.len() == 0,
            r.tables@.len() == 0,
            r.frames@.len() == 0,
            r.scopes@.len() == 0,
            r.factory.strings@.len() == 0,
            r.budget == u64::MAX,
            r.output@.len() == 0,
    {
        let mut modules = Modules::new();
        let root = ModuleRef::new(&mut modules);
        State {
            input_tokens: Vec::new(),
            stack: Vec::new(),
            frames: Vec::new(),
            factory: ObjectFactory::new(),
            scopes: Vec::new(),
            current_module: root,
            root_module: root,
            mode: Vec::new(),
            entries: Vec::new(),
            modules,
            tables: Vec::new(),
            budget: u64::MAX,
            output: Vec::new(),
        }
    }

    /// The current mode: the innermost one, or eval.
    pub fn current_mode(&self) -> (r: Mode)
        ensures
            r == (if self.mode@.len() == 0 {
                Mode::Eval
            } else {
                self.mode@.last()
            }),
    {
        if self.mode.len() == 0 {
            Mode::Eval
        } else {
            self.mode[self.mode.len() - 1]
        }
    }

    /// Takes the next token of the input.
    pub fn next_token(&mut self) -> (r: Option<Vec<char>>)
        requires
            old(self).wf(),
        ensures
            final(self).wf(),
            old(self).input_tokens@.len() == 0 ==> r is None && *final(self) == *old(self),
            old(self).input_tokens@.len() > 0 ==> (r matches Some(t) && t@ == old(self).input_tokens@[0]@
                && final(self).input_tokens@ == old(self).input_tokens@.drop_first()),
            final(self).stack == old(self).stack,
            final(self).modules == old(self).modules,
            final(self).entries == old(self).entries,
            final(self).mode == old(self).mode,
            final(self).budget == old(self).budget,
            final(self).current_module == old(self).current_module,
            final(self).root_module == old(self).root_module,
            final(self).scopes == old(self).scopes,
            final(self).frames == old(self).frames,
            final(self).tables == old(self).tables,
            final(self).factory == old(self).factory,
            final(self).output == old(self).output,
    {
        if self.input_tokens.len() == 0 {
            None
        } else {
            let t = self.input_tokens.remove(0);
            proof {
                assert forall|i: int| 0 <= i < self.input_tokens@.len() implies (#[trigger] self.input_tokens@[i])@
                    != lone_quote() by {
                    assert(self.input_tokens@[i] == old(self).input_tokens@[i + 1]);
                }
            }
            Some(t)
        }
    }

    /// Empties the stack.
    pub fn clear_stack(&mut self)
        ensures
            final(self).stack@.len() == 0,
            final(self).input_tokens == old(self).input_tokens,
            final(self).modules == old(self).modules,
            final(self).entries == old(self).entries,
            final(self).mode == old(self).mode,
            final(self).budget == old(self).budget,
            final(self).current_module == old(self).current_module,
            final(self).root_module == old(self).root_module,
            final(self).frames == old(self).frames,
            final(self).scopes == old(self).scopes,
            final(self).tables == old(self).tables,
            final(self).factory == old(self).factory,
            final(self).output == old(self).output,
    {
        self.stack.clear();
    }

    /// Pushes an object.
    pub fn push(&mut self, val: Object) -> (r: Result<(), Error>)
        ensures
            r is Ok,
            final(self).stack@ == old(self).stack@.push(val),
            final(self).input_tokens == old(self).input_tokens,
            final(self).modules == old(self).modules,
            final(self).entries == old(self).entries,
            final(self).mode == old(self).mode,
            final(self).budget == old(self).budget,
            final(self).current_module == old(self).current_module,
            final(self).root_module == old(self).root_module,
            final(self).frames == old(self).frames,
            final(self).scopes == old(self).scopes,
            final(self).tables == old(self).tables,
            final(self).output == old(self).output,
            final(self).factory == old(self).factory,
    {
        self.stack.push(val);
        Ok(())
    }

    /// Pops the top object.
    pub fn pop(&mut self) -> (r: Result<Object, Error>)
        ensures
            old(self).stack@.len() == 0 ==> r == Err::<Object, Error>(Error::StackUnderflow) && final(self).stack@
                == old(self).stack@,
            old(self).stack@.len() > 0 ==> r == Ok::<Object, Error>(old(self).stack@.last()) && final(self).stack@
                == old(self).stack@.drop_last(),
            final(self).input_tokens == old(self).input_tokens,
            final(self).modules == old(self).modules,
            final(self).entries == old(self).entries,
            final(self).mode == old(self).mode,
            final(self).budget == old(self).budget,
            final(self).current_module == old(self).current_module,
            final(self).root_module == old(self).root_module,
            final(self).frames == old(self).frames,
            final(self).scopes == old(self).scopes,
            final(self).tables == old(self).tables,
            final(self).output == old(self).output,
            final(self).factory == old(self).factory,
    {
        match self.stack.pop() {
            Some(o) => Ok(o),
            None => Err(Error::StackUnderflow),
        }
    }

    /// The top object.
    pub fn top(&self) -> (r: Result<&Object, Error>)
        ensures
            self.stack@.len() == 0 ==> r == Err::<&Object, Error>(Error::StackUnderflow),
            self.stack@.len() > 0 ==> (r matches Ok(o) && *o == self.stack@.last()),
    {
        if self.stack.len() == 0 {
            Err(Error::StackUnderflow)
        } else {
            Ok(&self.stack[self.stack.len() - 1])
        }
    }

    /// The top object, to change it in place.
    pub fn top_mut(&mut self) -> (r: Result<&mut Object, Error>)
        ensures
            old(self).stack@.len() == 0 ==> (r matches Err(Error::StackUnderflow) && *final(self) == *old(self)),
            old(self).stack@.len() > 0 ==> (r matches Ok(o) && *o == old(self).stack@.last() && final(self).stack@
                == old(self).stack@.update(old(self).stack@.len() - 1, *final(o))),
            old(self).stack@.len() > 0 ==> final(self).input_tokens == old(self).input_tokens && final(self).modules
                == old(self).modules && final(self).entries == old(self).entries && final(self).mode == old(self).mode
                && final(self).budget == old(self).budget && final(self).current_module == old(self).current_module
                && final(self).root_module == old(self).root_module && final(self).frames == old(self).frames
                && final(self).scopes == old(self).scopes && final(self).tables == old(self).tables
                && final(self).output == old(self).output && final(self).factory == old(self).factory,
    {
        let n = self.stack.len();
        if n == 0 {
            Err(Error::StackUnderflow)
        } else {
            Ok(self.stack.last_mut().unwrap())
        }
    }

    /// Pushes a string.
    pub fn push_str(&mut self, s: &str) -> (r: Result<(), Error>)
        ensures
            r is Ok,
            stack_view(final(self).stack@) == stack_view(old(self).stack@).push(OView::String(s@)),
            final(self).stack@.len() == old(self).stack@.len() + 1,
            final(self).stack@.drop_last() == old(self).stack@,
            final(self).stack@.last() matches Object::String(t) && t@ == s@,
            final(self).input_tokens == old(self).input_tokens,
            final(self).modules == old(self).modules,
            final(self).budget == old(self).budget,
            final(self).output == old(self).output,
    {
        let c = chars_of(s);
        let st = self.factory.get_string(c.as_slice());
        let ghost before = self.stack@;
        let o = Object::String(st);
        let r = self.push(o);
        proof {
            lemma_view_objs(before);
            lemma_view_objs(self.stack@);
            assert(stack_view(self.stack@) =~= stack_view(before).push(OView::String(s@)));
        }
        r
    }

    /// Pushes a string given as characters.
    pub fn push_string(&mut self, s: Vec<char>) -> (r: Result<(), Error>)
        ensures
            r is Ok,
            stack_view(final(self).stack@) == stack_view(old(self).stack@).push(OView::String(s@)),
            final(self).input_tokens == old(self).input_tokens,
            final(self).modules == old(self).modules,
            final(self).budget == old(self).budget,
            final(self).stack@.len() == old(self).stack@.len() + 1,
            final(self).stack@.drop_last() == old(self).stack@,
            final(self).stack@.last() matches Object::String(t) && t@ == s@,
            final(self).output == old(self).output,
    {
        let st = self.factory.get_string(s.as_slice());
        let ghost before = self.stack@;
        let o = Object::String(st);
        let r = self.push(o);
        proof {
            lemma_view_objs(before);
            lemma_view_objs(self.stack@);
            assert(stack_view(self.stack@) =~= stack_view(before).push(OView::String(s@)));
        }
        r
    }

    /// Pops a boolean.
    pub fn pop_bool(&mut self) -> (r: Result<bool, Error>)
        ensures
            old(self).stack@.len() == 0 ==> r == Err::<bool, Error>(Error::StackUnderflow) && final(self).stack@ == old(self).stack@,
            old(self).stack@.len() > 0 ==> final(self).stack@ == old(self).stack@.drop_last() && match old(self).stack@.last() {
                Object::True => r == Ok::<bool, Error>(true),
                Object::False => r == Ok::<bool, Error>(false),
                _ => r matches Err(Error::TypeError(_)),
            },
            final(self).input_tokens == old(self).input_tokens,
            final(self).modules == old(self).modules,
            final(self).entries == old(self).entries,
            final(self).mode == old(self).mode,
            final(self).budget == old(self).budget,
            final(self).current_module == old(self).current_module,
            final(self).root_module == old(self).root_module,
            final(self).frames == old(self).frames,
            final(self).scopes == old(self).scopes,
            final(self).tables == old(self).tables,
            final(self).output == old(self).output,
            final(self).factory == old(self).factory,
    {
        let o = self.pop()?;
        o.try_into_bool()
    }

    /// Pops an integer.
    pub fn pop_i32(&mut self) -> (r: Result<i32, Error>)
        ensures
            old(self).stack@.len() == 0 ==> r == Err::<i32, Error>(Error::StackUnderflow),
            old(self).stack@.len() > 0 ==> final(self).stack@ == old(self).stack@.drop_last() && match old(self).stack@.last() {
                Object::I32(i) => r == Ok::<i32, Error>(i),
                _ => r matches Err(Error::TypeError(_)),
            },
            final(self).input_tokens == old(self).input_tokens,
            final(self).modules == old(self).modules,
            final(self).entries == old(self).entries,
            final(self).mode == old(self).mode,
            final(self).budget == old(self).budget,
            final(self).current_module == old(self).current_module,
            final(self).root_module == old(self).root_module,
            final(self).frames == old(self).frames,
            final(self).scopes == old(self).scopes,
            final(self).tables == old(self).tables,
            final(self).output == old(self).output,
            final(self).factory == old(self).factory,
    {
        let o = self.pop()?;
        o.try_into_i32()
    }

    /// Pops a string.
    pub fn pop_string(&mut self) -> (r: Result<String, Error>)
        ensures
            old(self).stack@.len() == 0 ==> r == Err::<String, Error>(Error::StackUnderflow),
            old(self).stack@.len() > 0 ==> final(self).stack@ == old(self).stack@.drop_last() && match old(self).stack@.last() {
                Object::String(s) => r matches Ok(t) && t@ == s@,
                _ => r matches Err(Error::TypeError(_)),
            },
            final(self).input_tokens == old(self).input_tokens,
            final(self).modules == old(self).modules,
            final(self).budget == old(self).budget,
            final(self).output == old(self).output,
    {
        let o = self.pop()?;
        let s = o.try_into_rc_string()?;
        Ok(string_of(s.as_slice()))
    }

    /// Pops a string; nothing if the stack is empty or the top is no string.
    pub fn pop_str(&mut self) -> (r: Option<String>)
        ensures
            old(self).stack@.len() == 0 ==> r is None,
            old(self).stack@.len() > 0 ==> final(self).stack@ == old(self).stack@.drop_last() && match old(self).stack@.last() {
                Object::String(s) => r matches Some(t) && t@ == s@,
                _ => r is None,
            },
    {
        match self.pop_string() {
            Ok(s) => Some(s),
            Err(_) => None,
        }
    }

    /// What `dup` guarantees, as a relation between the state before
    /// and the state after.
    pub open spec fn post_dup(pre: State, post: State, r: Result<(), Error>) -> bool {
        &&& (pre.stack@.len() == 0 ==> r is Err && post.stack@ == pre.stack@)
        &&& (pre.stack@.len() > 0 ==> r is Ok && stack_view(post.stack@) == spec_dup(stack_view(pre.stack@)))
        &&& (post.input_tokens == pre.input_tokens)
        &&& (post.modules == pre.modules)
        &&& (post.entries == pre.entries)
        &&& (post.mode == pre.mode)
        &&& (post.budget == pre.budget)
        &&& (post.current_module == pre.current_module)
        &&& (post.root_module == pre.root_module)
    }

    /// Duplicates the top object.
    pub fn dup(&mut self) -> (r: Result<(), Error>)
        ensures
            old(self).stack@.len() == 0 ==> r is Err && final(self).stack@ == old(self).stack@,
            old(self).stack@.len() > 0 ==> r is Ok && stack_view(final(self).stack@) == spec_dup(stack_view(old(self).stack@)),
            final(self).input_tokens == old(self).input_tokens,
            final(self).modules == old(self).modules,
            final(self).entries == old(self).entries,
            final(self).mode == old(self).mode,
            final(self).budget == old(self).budget,
            final(self).current_module == old(self).current_module,
            final(self).root_module == old(self).root_module,
    {
        let ghost s0 = self.stack@;
        let a = self.pop()?;
        let c = clone_object(&a);
        self.push(c)?;
        self.push(a)?;
        proof {
            lemma_view_objs(s0);
            lemma_view_objs(self.stack@);
            assert(stack_view(self.stack@) =~= stack_view(s0).push(view_obj(s0.last())));
        }
        Ok(())
    }

    /// What `swap` guarantees, as a relation between the state before
    /// and the state after.
    pub open spec fn post_swap(pre: State, post: State, r: Result<(), Error>) -> bool {
        &&& (pre.stack@.len() == 0 ==> r == Err::<(), Error>(Error::StackUnderflow) && post.stack@ == pre.stack@)
        &&& (pre.stack@.len() == 1 ==> r == Err::<(), Error>(Error::StackUnderflow) && post.stack@.len() == 0)
        &&& (pre.stack@.len() >= 2 ==> r is Ok && post.stack@ == spec_swap(pre.stack@))
        &&& (post.input_tokens == pre.input_tokens)
        &&& (post.modules == pre.modules)
        &&& (post.entries == pre.entries)
        &&& (post.mode == pre.mode)
        &&& (post.budget == pre.budget)
        &&& (post.current_module == pre.current_module)
        &&& (post.root_module == pre.root_module)
    }

    /// Swaps the two top objects; with one object only, it is dropped.
    pub fn swap(&mut self) -> (r: Result<(), Error>)
        ensures
            old(self).stack@.len() == 0 ==> r == Err::<(), Error>(Error::StackUnderflow) && final(self).stack@ == old(self).stack@,
            old(self).stack@.len() == 1 ==> r == Err::<(), Error>(Error::StackUnderflow) && final(self).stack@.len() == 0,
            old(self).stack@.len() >= 2 ==> r is Ok && final(self).stack@ == spec_swap(old(self).stack@),
            final(self).input_tokens == old(self).input_tokens,
            final(self).modules == old(self).modules,
            final(self).entries == old(self).entries,
            final(self).mode == old(self).mode,
            final(self).budget == old(self).budget,
            final(self).current_module == old(self).current_module,
            final(self).root_module == old(self).root_module,
    {
        let a = self.pop()?;
        let b = self.pop()?;
        self.push(a)?;
        self.push(b)
    }

    /// What `over` guarantees, as a relation between the state before
    /// and the state after.
    pub open spec fn post_over(pre: State, post: State, r: Result<(), Error>) -> bool {
        &&& (pre.stack@.len() < 2 ==> r is Err)
        &&& (pre.stack@.len() >= 2 ==> r is Ok && stack_view(post.stack@) == spec_over(stack_view(pre.stack@)))
        &&& (post.input_tokens == pre.input_tokens)
        &&& (post.modules == pre.modules)
        &&& (post.entries == pre.entries)
        &&& (post.mode == pre.mode)
        &&& (post.budget == pre.budget)
        &&& (post.current_module == pre.current_module)
        &&& (post.root_module == pre.root_module)
    }

    /// Copies the second object over the top one: `a b -- a b a`.
    pub fn over(&mut self) -> (r: Result<(), Error>)
        ensures
            old(self).stack@.len() < 2 ==> r is Err,
            old(self).stack@.len() >= 2 ==> r is Ok && stack_view(final(self).stack@) == spec_over(stack_view(old(self).stack@)),
            final(self).input_tokens == old(self).input_tokens,
            final(self).modules == old(self).modules,
            final(self).entries == old(self).entries,
            final(self).mode == old(self).mode,
            final(self).budget == old(self).budget,
            final(self).current_module == old(self).current_module,
            final(self).root_module == old(self).root_module,
    {
        let ghost s0 = self.stack@;
        let b = self.pop()?;
        let a = self.pop()?;
        let c = clone_object(&a);
        self.push(c)?;
        self.push(b)?;
        self.push(a)?;
        proof {
            lemma_view_objs(s0);
            lemma_view_objs(self.stack@);
            assert(stack_view(self.stack@) =~= stack_view(s0).push(view_obj(s0[s0.len() - 2])));
        }
        Ok(())
    }

    /// What `rot` guarantees, as a relation between the state before
    /// and the state after.
    pub open spec fn post_rot(pre: State, post: State, r: Result<(), Error>) -> bool {
        &&& (pre.stack@.len() < 3 ==> r is Err)
        &&& (pre.stack@.len() >= 3 ==> r is Ok && post.stack@ == spec_rot(pre.stack@))
        &&& (post.input_tokens == pre.input_tokens)
        &&& (post.modules == pre.modules)
        &&& (post.entries == pre.entries)
        &&& (post.mode == pre.mode)
        &&& (post.budget == pre.budget)
        &&& (post.current_module == pre.current_module)
        &&& (post.root_module == pre.root_module)
    }

    /// Rotates the three top objects: `a b c -- b c a`.
    pub fn rot(&mut self) -> (r: Result<(), Error>)
        ensures
            old(self).stack@.len() < 3 ==> r is Err,
            old(self).stack@.len() >= 3 ==> r is Ok && final(self).stack@ == spec_rot(old(self).stack@),
            final(self).input_tokens == old(self).input_tokens,
            final(self).modules == old(self).modules,
            final(self).entries == old(self).entries,
            final(self).mode == old(self).mode,
            final(self).budget == old(self).budget,
            final(self).current_module == old(self).current_module,
            final(self).root_module == old(self).root_module,
    {
        let ghost s0 = self.stack@;
        let c = self.pop()?;
        let b = self.pop()?;
        let a = self.pop()?;
        self.push(b)?;
        self.push(c)?;
        self.push(a)?;
        assert(s0.drop_last().drop_last().drop_last() =~= s0.subrange(0, s0.len() - 3));
        Ok(())
    }

    /// The root module.
    pub fn root_module(&self) -> (r: ModuleRef)
        ensures
            r == self.root_module,
    {
        self.root_module
    }

    /// Leaves the current module for its parent; nothing if it has none.
    pub fn exit_mod(&mut self) -> (r: Option<()>)
        ensures
            old(self).current_module.0 < old(self).modules.mods@.len() && old(self).modules.mods@[old(self).current_module.0 as int].parent is Some ==> r is Some && final(self).current_module.0 == old(self).modules.mods@[old(self).current_module.0 as int].parent->0,
            !(old(self).current_module.0 < old(self).modules.mods@.len() && old(self).modules.mods@[old(self).current_module.0 as int].parent is Some) ==> r is None && final(self).current_module == old(self).current_module,
            final(self).modules == old(self).modules,
            final(self).stack == old(self).stack,
            final(self).input_tokens == old(self).input_tokens,
            final(self).entries == old(self).entries,
            final(self).budget == old(self).budget,
            final(self).mode == old(self).mode,
    {
        match self.current_module.parent(&self.modules) {
            Some(p) => {
                self.current_module = p;
                Some(())
            },
            None => None,
        }
    }

    /// The entry that the name stands for in the current module.
    pub fn lookup(&self, name: &[char]) -> (r: Option<WordId>)
        requires
            self.wf(),
        ensures
            r == mod_lookup(self.modules.mods@, self.current_module.0 as int, name@),
    {
        self.current_module.lookup(&self.modules, name)
    }

    /// Adds an entry and makes the name stand for it in the current module.
    pub fn add_entry(&mut self, name: &[char], word: Word, stack_effect: StackEffect) -> (r: WordId)
        requires
            old(self).wf(),
        ensures
            final(self).wf(),
            r.0 == old(self).entries@.len(),
            final(self).entries@.len() == old(self).entries@.len() + 1,
            final(self).entries@[r.0 as int].name@ == name@,
            final(self).entries@[r.0 as int].word == word,
            final(self).entries@[r.0 as int].stack_effect == stack_effect,
            forall|i: int| 0 <= i < old(self).entries@.len() ==> final(self).entries@[i] == old(self).entries@[i],
            final(self).modules.mods@.len() == old(self).modules.mods@.len(),
            old(self).current_module.0 < old(self).modules.mods@.len() ==> final(self).modules.mods@[old(self).current_module.0 as int].dict@ == crate::dictionary::spec_insert(
                old(self).modules.mods@[old(self).current_module.0 as int].dict@,
                name@,
                r,
            ),
            forall|i: int|
                0 <= i < old(self).modules.mods@.len() && i != old(self).current_module.0 ==> #[trigger] final(self).modules.mods@[i] == old(self).modules.mods@[i],
            forall|i: int|
                0 <= i < old(self).modules.mods@.len() ==> #[trigger] final(self).modules.mods@[i].parent == old(self).modules.mods@[i].parent
                    && final(self).modules.mods@[i].submodules == old(self).modules.mods@[i].submodules,
            final(self).stack == old(self).stack,
            final(self).input_tokens == old(self).input_tokens,
            final(self).budget == old(self).budget,
            final(self).mode == old(self).mode,
            final(self).current_module == old(self).current_module,
            final(self).root_module == old(self).root_module,
            final(self).frames == old(self).frames,
            final(self).scopes == old(self).scopes,
            final(self).tables == old(self).tables,
            old(self).current_module.0 < old(self).modules.mods@.len() ==> provides(
                *final(self),
                old(self).current_module.0 as int,
                name@,
                word,
            ),
            forall|n: Seq<char>, w: Word|
                n != name@ && provides(*old(self), old(self).current_module.0 as int, n, w) ==> #[trigger] provides(
                    *final(self),
                    old(self).current_module.0 as int,
                    n,
                    w,
                ),
            forall|n: Seq<char>|
                n != name@ ==> #[trigger] mod_lookup(final(self).modules.mods@, old(self).current_module.0 as int, n)
                    == mod_lookup(old(self).modules.mods@, old(self).current_module.0 as int, n),
            old(self).current_module.0 < old(self).modules.mods@.len() ==> mod_lookup(final(self).modules.mods@, old(self).current_module.0 as int, name@) == Some(r),
    {
        let nm = self.factory.get_string(name);
        let id = WordId(self.entries.len());
        let ghost before = *self;
        self.entries.push(Entry { name: nm, word, stack_effect });
        let cm = self.current_module;
        cm.insert(&mut self.modules, name, id);
        proof {
            let c = before.current_module.0 as int;
            if c < before.modules.mods@.len() {
                crate::module::law_module_lookup_after_insert(before.modules.mods@, self.modules.mods@, c, name@, id, name@);
                assert forall|n: Seq<char>|
                    n != name@ implies #[trigger] mod_lookup(self.modules.mods@, c, n) == mod_lookup(before.modules.mods@, c, n) by {
                    crate::module::law_module_lookup_after_insert(before.modules.mods@, self.modules.mods@, c, name@, id, n);
                }
                assert forall|n: Seq<char>, w: Word|
                    n != name@ && provides(before, c, n, w) implies #[trigger] provides(*self, c, n, w) by {
                    crate::module::law_module_lookup_after_insert(before.modules.mods@, self.modules.mods@, c, name@, id, n);
                }
            } else {
                assert forall|n: Seq<char>, w: Word|
                    n != name@ && provides(before, c, n, w) implies #[trigger] provides(*self, c, n, w) by {
                    assert(mod_lookup(before.modules.mods@, c, n) is None);
                }
            }
        }
        id
    }

    /// Adds a native word with the stack effect given as text.
    pub fn add_native_word(&mut self, name: &str, stack_effect: &str, func: Builtin) -> (r: Result<WordId, Error>)
        requires
            old(self).wf(),
        ensures
            final(self).wf(),
            r matches Ok(id) ==> id.0 == old(self).entries@.len() && final(self).entries@[id.0 as int].name@
                == name@ && final(self).entries@[id.0 as int].word == Word::Word(Object::Function(Callable::Const(func))),
            r is Err ==> *final(self) == *old(self),
            final(self).stack == old(self).stack,
            final(self).input_tokens == old(self).input_tokens,
            final(self).budget == old(self).budget,
            final(self).mode == old(self).mode,
            final(self).current_module == old(self).current_module,
            final(self).root_module == old(self).root_module,
            final(self).modules.mods@.len() == old(self).modules.mods@.len(),
            r is Ok && old(self).current_module.0 < old(self).modules.mods@.len() ==> provides(
                *final(self),
                old(self).current_module.0 as int,
                name@,
                Word::Word(Object::Function(Callable::Const(func))),
            ),
            forall|n: Seq<char>, w: Word|
                n != name@ && provides(*old(self), old(self).current_module.0 as int, n, w) ==> #[trigger] provides(
                    *final(self),
                    old(self).current_module.0 as int,
                    n,
                    w,
                ),
            forall|i: int|
                0 <= i < old(self).modules.mods@.len() ==> #[trigger] final(self).modules.mods@[i].parent == old(self).modules.mods@[i].parent
                    && final(self).modules.mods@[i].submodules == old(self).modules.mods@[i].submodules,
            forall|n: Seq<char>|
                n != name@ ==> #[trigger] mod_lookup(final(self).modules.mods@, old(self).current_module.0 as int, n)
                    == mod_lookup(old(self).modules.mods@, old(self).current_module.0 as int, n),
            r matches Ok(id) ==> (old(self).current_module.0 < old(self).modules.mods@.len() ==> mod_lookup(final(self).modules.mods@, old(self).current_module.0 as int, name@) == Some(id)),
            r is Ok <==> parses(stack_effect@),
            r matches Err(e) ==> spec_parse(stack_effect@) == Err::<crate::stack_effect::SEffect, Error>(e),
            r matches Ok(id) ==> spec_parse(stack_effect@) == Ok::<crate::stack_effect::SEffect, Error>(
                final(self).entries@[id.0 as int].stack_effect@,
            ),
    {
        let se = StackEffect::parse(stack_effect)?;
        let n = chars_of(name);
        Ok(self.add_entry(n.as_slice(), Word::Word(Object::Function(Callable::new_const(func))), se))
    }

    /// Adds a native parsing word.
    pub fn add_native_parse_word(&mut self, name: &str, func: Builtin) -> (r: WordId)
        requires
            old(self).wf(),
        ensures
            final(self).wf(),
            r.0 == old(self).entries@.len(),
            final(self).entries@[r.0 as int].name@ == name@,
            final(self).entries@[r.0 as int].word == Word::ParsingWord(Object::Function(Callable::Const(func))),
            final(self).entries@[r.0 as int].stack_effect@ == (crate::stack_effect::SEffect {
                inputs: seq![crate::stack_effect::anon_row(), crate::stack_effect::SNode::Item(seq!['a', 'c', 'c'])],
                outputs: seq![crate::stack_effect::anon_row(), crate::stack_effect::SNode::Item(seq!['a', 'c', 'c'])],
            }),
            final(self).entries@.len() == old(self).entries@.len() + 1,
            final(self).stack == old(self).stack,
            final(self).input_tokens == old(self).input_tokens,
            final(self).budget == old(self).budget,
            final(self).mode == old(self).mode,
            final(self).current_module == old(self).current_module,
            final(self).root_module == old(self).root_module,
            final(self).modules.mods@.len() == old(self).modules.mods@.len(),
            old(self).current_module.0 < old(self).modules.mods@.len() ==> final(self).modules.mods@[old(self).current_module.0 as int].dict@ == crate::dictionary::spec_insert(
                old(self).modules.mods@[old(self).current_module.0 as int].dict@,
                name@,
                r,
            ),
            forall|i: int|
                0 <= i < old(self).modules.mods@.len() && i != old(self).current_module.0 ==> #[trigger] final(self).modules.mods@[i] == old(self).modules.mods@[i],
            forall|i: int|
                0 <= i < old(self).modules.mods@.len() ==> #[trigger] final(self).modules.mods@[i].parent == old(self).modules.mods@[i].parent
                    && final(self).modules.mods@[i].submodules == old(self).modules.mods@[i].submodules,
            old(self).current_module.0 < old(self).modules.mods@.len() ==> provides(
                *final(self),
                old(self).current_module.0 as int,
                name@,
                Word::ParsingWord(Object::Function(Callable::Const(func))),
            ),
            forall|n: Seq<char>, w: Word|
                n != name@ && provides(*old(self), old(self).current_module.0 as int, n, w) ==> #[trigger] provides(
                    *final(self),
                    old(self).current_module.0 as int,
                    n,
                    w,
                ),
            forall|n: Seq<char>|
                n != name@ ==> #[trigger] mod_lookup(final(self).modules.mods@, old(self).current_module.0 as int, n)
                    == mod_lookup(old(self).modules.mods@, old(self).current_module.0 as int, n),
            old(self).current_module.0 < old(self).modules.mods@.len() ==> mod_lookup(final(self).modules.mods@, old(self).current_module.0 as int, name@) == Some(r),
    {
        let n = chars_of(name);
        let se = StackEffect::new_mod("acc");
        proof {
            reveal_strlit("acc");
            assert("acc"@ =~= seq!['a', 'c', 'c']);
        }
        self.add_entry(n.as_slice(), Word::ParsingWord(Object::Function(Callable::new_const(func))), se)
    }

    /// Adds a word that runs an object, with the given stack effect.
    pub fn add_compound_word(&mut self, name: &[char], stack_effect: StackEffect, obj: Object) -> (r: WordId)
        requires
            old(self).wf(),
        ensures
            final(self).wf(),
            r.0 == old(self).entries@.len(),
            final(self).entries@[r.0 as int].name@ == name@,
            final(self).entries@[r.0 as int].word == Word::Word(obj),
            final(self).entries@[r.0 as int].stack_effect == stack_effect,
            final(self).entries@.len() == old(self).entries@.len() + 1,
            forall|i: int| 0 <= i < old(self).entries@.len() ==> final(self).entries@[i] == old(self).entries@[i],
            final(self).stack == old(self).stack,
            final(self).input_tokens == old(self).input_tokens,
            final(self).budget == old(self).budget,
            final(self).mode == old(self).mode,
            final(self).current_module == old(self).current_module,
            final(self).root_module == old(self).root_module,
            final(self).modules.mods@.len() == old(self).modules.mods@.len(),
            old(self).current_module.0 < old(self).modules.mods@.len() ==> provides(
                *final(self),
                old(self).current_module.0 as int,
                name@,
                Word::Word(obj),
            ),
            forall|n: Seq<char>, w: Word|
                n != name@ && provides(*old(self), old(self).current_module.0 as int, n, w) ==> #[trigger] provides(
                    *final(self),
                    old(self).current_module.0 as int,
                    n,
                    w,
                ),
            old(self).current_module.0 < old(self).modules.mods@.len() ==> mod_lookup(final(self).modules.mods@, old(self).current_module.0 as int, name@) == Some(r),
    {
        self.add_entry(name, Word::Word(obj), stack_effect)
    }

    /// Adds a parsing word that runs an object.
    pub fn add_compound_parse_word(&mut self, name: &[char], obj: Object) -> (r: WordId)
        requires
            old(self).wf(),
        ensures
            final(self).wf(),
            r.0 == old(self).entries@.len(),
            final(self).entries@[r.0 as int].name@ == name@,
            final(self).entries@[r.0 as int].word == Word::ParsingWord(obj),
            final(self).entries@[r.0 as int].stack_effect@ == (crate::stack_effect::SEffect {
                inputs: seq![crate::stack_effect::anon_row(), crate::stack_effect::SNode::Item(seq!['a', 'c', 'c'])],
                outputs: seq![crate::stack_effect::anon_row(), crate::stack_effect::SNode::Item(seq!['a', 'c', 'c'])],
            }),
            final(self).stack == old(self).stack,
            final(self).input_tokens == old(self).input_tokens,
            final(self).budget == old(self).budget,
            final(self).mode == old(self).mode,
            final(self).current_module == old(self).current_module,
            final(self).root_module == old(self).root_module,
            final(self).modules.mods@.len() == old(self).modules.mods@.len(),
            old(self).current_module.0 < old(self).modules.mods@.len() ==> provides(
                *final(self),
                old(self).current_module.0 as int,
                name@,
                Word::ParsingWord(obj),
            ),
            forall|n: Seq<char>, w: Word|
                n != name@ && provides(*old(self), old(self).current_module.0 as int, n, w) ==> #[trigger] provides(
                    *final(self),
                    old(self).current_module.0 as int,
                    n,
                    w,
                ),
            old(self).current_module.0 < old(self).modules.mods@.len() ==> mod_lookup(final(self).modules.mods@, old(self).current_module.0 as int, name@) == Some(r),
    {
        let se = StackEffect::new_mod("acc");
        proof {
            reveal_strlit("acc");
            assert("acc"@ =~= seq!['a', 'c', 'c']);
        }
        self.add_entry(name, Word::ParsingWord(obj), se)
    }

    /// Enters compile mode with an empty list of compiled objects on the
    /// stack.
    pub fn begin_compile(&mut self)
        ensures
            final(self).mode@ == old(self).mode@.push(Mode::Compile),
            stack_view(final(self).stack@) == stack_view(old(self).stack@).push(OView::List(Seq::empty())),
            final(self).stack@.len() == old(self).stack@.len() + 1,
            final(self).stack@.drop_last() == old(self).stack@,
            final(self).stack@.last() matches Object::List(w) && w@.len() == 0,
            final(self).input_tokens == old(self).input_tokens,
            final(self).modules == old(self).modules,
            final(self).entries == old(self).entries,
            final(self).budget == old(self).budget,
            final(self).current_module == old(self).current_module,
            final(self).root_module == old(self).root_module,
            final(self).scopes == old(self).scopes,
            final(self).frames == old(self).frames,
            final(self).tables == old(self).tables,
            final(self).output == old(self).output,
            final(self).factory == old(self).factory,
    {
        self.mode.push(Mode::Compile);
        let l = self.factory.new_list();
        let ghost before = self.stack@;
        self.stack.push(l);
        proof {
            lemma_view_objs(before);
            lemma_view_objs(self.stack@);
            assert(stack_view(self.stack@) =~= stack_view(before).push(OView::List(Seq::empty())));
        }
    }

    /// Leaves the innermost mode.
    pub fn end_compile(&mut self)
        ensures
            final(self).mode@ == (if old(self).mode@.len() > 0 {
                old(self).mode@.drop_last()
            } else {
                old(self).mode@
            }),
            final(self).stack == old(self).stack,
            final(self).input_tokens == old(self).input_tokens,
            final(self).modules == old(self).modules,
            final(self).entries == old(self).entries,
            final(self).budget == old(self).budget,
            final(self).current_module == old(self).current_module,
            final(self).root_module == old(self).root_module,
            final(self).scopes == old(self).scopes,
            final(self).frames == old(self).frames,
            final(self).tables == old(self).tables,
            final(self).output == old(self).output,
            final(self).factory == old(self).factory,
    {
        self.mode.pop();
    }

    /// Appends an object to the list being compiled on top of the stack.
    pub fn compile_object(&mut self, obj: Object) -> (r: Result<(), Error>)
        ensures
            old(self).stack@.len() == 0 ==> r matches Err(Error::StackUnderflow),
            old(self).stack@.len() > 0 ==> match old(self).stack@.last() {
                Object::List(v) => r is Ok && final(self).stack@.len() == old(self).stack@.len() && final(self).stack@.drop_last() == old(self).stack@.drop_last() && (final(self).stack@.last() matches Object::List(w) && w@ == v@.push(obj)),
                _ => r matches Err(Error::TypeError(_)),
            },
            final(self).input_tokens == old(self).input_tokens,
            final(self).modules == old(self).modules,
            final(self).entries == old(self).entries,
            final(self).budget == old(self).budget,
            final(self).mode == old(self).mode,
            final(self).current_module == old(self).current_module,
            final(self).root_module == old(self).root_module,
            final(self).scopes == old(self).scopes,
            final(self).frames == old(self).frames,
            final(self).tables == old(self).tables,
            final(self).output == old(self).output,
            final(self).factory == old(self).factory,
    {
        let top = self.top_mut()?;
        let v = top.as_vec_mut()?;
        v.push(obj);
        Ok(())
    }

    /// Appends a call of a word to the list being compiled.
    pub fn compile_word(&mut self, word: WordId) -> (r: Result<(), Error>)
        ensures
            old(self).stack@.len() == 0 ==> r matches Err(Error::StackUnderflow),
            old(self).stack@.len() > 0 ==> match old(self).stack@.last() {
                Object::List(v) => r is Ok && final(self).stack@.len() == old(self).stack@.len() && final(self).stack@.drop_last() == old(self).stack@.drop_last() && (final(self).stack@.last() matches Object::List(w) && w@ == v@.push(Object::Word(word))),
                _ => r matches Err(Error::TypeError(_)),
            },
            final(self).input_tokens == old(self).input_tokens,
            final(self).modules == old(self).modules,
            final(self).entries == old(self).entries,
            final(self).budget == old(self).budget,
            final(self).mode == old(self).mode,
            final(self).current_module == old(self).current_module,
            final(self).root_module == old(self).root_module,
            final(self).scopes == old(self).scopes,
    {
        self.compile_object(Object::Word(word))
    }
}


/// A copy of a dictionary.
fn duplicate_dict(d: &Dictionary) -> (r: Dictionary)
    ensures
        r@ == d@,
{
    let mut words: Vec<(Vec<char>, WordId)> = Vec::new();
    let mut i: usize = 0;
    while i < d.words.len()
        invariant
            i <= d.words@.len(),
            dict_view(words@) == dict_view(d.words@.subrange(0, i as int)),
        decreases d.words@.len() - i,
    {
        let p = (copy_chars(d.words[i].0.as_slice()), d.words[i].1);
        let ghost before = words@;
        words.push(p);
        proof {
            assert(dict_view(words@) =~= dict_view(before).push((d.words@[i as int].0@, d.words@[i as int].1)));
            assert(d.words@.subrange(0, i + 1) =~= d.words@.subrange(0, i as int).push(d.words@[i as int]));
            assert(dict_view(d.words@.subrange(0, i + 1)) =~= dict_view(d.words@.subrange(0, i as int)).push(
                (d.words@[i as int].0@, d.words@[i as int].1)));
        }
        i = i + 1;
    }
    assert(d.words@.subrange(0, d.words@.len() as int) =~= d.words@);
    Dictionary { words }
}

/// A copy of a module: the same parent, the same submodules under the same
/// names, the same dictionary.
fn duplicate_module(m: &Module) -> (r: Module)
    ensures
        r.parent == m.parent,
        r.submodules@.len() == m.submodules@.len(),
        forall|j: int| 0 <= j < m.submodules@.len() ==> (#[trigger] r.submodules@[j]).1 == m.submodules@[j].1
            && r.submodules@[j].0@ == m.submodules@[j].0@,
        r.dict@ == m.dict@,
{
    let mut subs: Vec<(Vec<char>, usize)> = Vec::new();
    let mut i: usize = 0;
    while i < m.submodules.len()
        invariant
            i <= m.submodules@.len(),
            subs@.len() == i,
            forall|j: int| 0 <= j < i ==> (#[trigger] subs@[j]).1 == m.submodules@[j].1
                && subs@[j].0@ == m.submodules@[j].0@,
        decreases m.submodules@.len() - i,
    {
        subs.push((copy_chars(m.submodules[i].0.as_slice()), m.submodules[i].1));
        i = i + 1;
    }
    Module { parent: m.parent, submodules: subs, dict: duplicate_dict(&m.dict) }
}

/// A copy of an entry.
fn duplicate_entry(e: &Entry) -> (r: Entry)
    ensures
        r.name@ == e.name@,
        r.stack_effect@ == e.stack_effect@,
        r.word is Word <==> e.word is Word,
        word_view(r.word) == word_view(e.word),
{
    let word = match &e.word {
        Word::Word(o) => Word::Word(clone_object(o)),
        Word::ParsingWord(o) => Word::ParsingWord(clone_object(o)),
    };
    Entry { name: copy_chars(e.name.as_slice()), word, stack_effect: e.stack_effect.duplicate() }
}

/// A copy of a table.
fn duplicate_table(t: &TableImpl) -> (r: TableImpl)
    ensures
        r.meta == t.meta,
        r.attributes@.len() == t.attributes@.len(),
        forall|i: int| 0 <= i < t.attributes@.len() ==> (#[trigger] r.attributes@[i]).0@ == t.attributes@[i].0@
            && r.attributes@[i].1@ == t.attributes@[i].1@,
{
    let mut attributes: Vec<(Vec<char>, Object)> = Vec::new();
    let mut i: usize = 0;
    while i < t.attributes.len()
        invariant
            i <= t.attributes@.len(),
            attributes@.len() == i,
            forall|k: int| 0 <= k < i ==> (#[trigger] attributes@[k]).0@ == t.attributes@[k].0@
                && attributes@[k].1@ == t.attributes@[k].1@,
        decreases t.attributes@.len() - i,
    {
        attributes.push((copy_chars(t.attributes[i].0.as_slice()), clone_object(&t.attributes[i].1)));
        i = i + 1;
    }
    TableImpl { attributes, meta: t.meta }
}

/// What a word holds, by value, and whether it is a parsing word.
pub open spec fn word_view(w: Word) -> (bool, OView) {
    match w {
        Word::Word(o) => (false, o@),
        Word::ParsingWord(o) => (true, o@),
    }
}

/// Two arenas of modules with the same parents and dictionaries give every
/// name the same entry in every module.
pub proof fn lemma_lookup_same(a: Seq<Module>, b: Seq<Module>, m: int, key: Seq<char>)
    requires
        a.len() == b.len(),
        forall|i: int| 0 <= i < a.len() ==> (#[trigger] a[i]).dict@ == b[i].dict@ && a[i].parent == b[i].parent,
    ensures
        mod_lookup(a, m, key) == mod_lookup(b, m, key),
    decreases m,
{
    if 0 <= m < a.len() {
        assert(a[m].dict@ == b[m].dict@);
        match a[m].parent {
            Some(p) => {
                if 0 <= p < m {
                    lemma_lookup_same(a, b, p as int, key);
                }
            },
            None => {},
        }
    }
}

impl State {
    /// A fresh interpreter on copies of this one's modules, words and
    /// tables, in the same current module, with an empty stack, no frames,
    /// no scopes, eval mode, a fresh string factory and no pending input.
    /// This state is left as it is; what the substate defines is found from
    /// here once `rejoin` takes it back.
    pub fn substate(&self) -> (r: State)
        requires
            self.wf(),
        ensures
            r.wf(),
            r.stack@.len() == 0,
            r.input_tokens@.len() == 0,
            r.mode@.len() == 0,
            r.frames@.len() == 0,
            r.scopes@.len() == 0,
            r.factory.strings@.len() == 0,
            r.output@.len() == 0,
            r.current_module == self.current_module,
            r.root_module == self.root_module,
            r.budget == self.budget,
            r.modules.mods@.len() == self.modules.mods@.len(),
            forall|m: int, name: Seq<char>| #[trigger] mod_lookup(r.modules.mods@, m, name) == mod_lookup(self.modules.mods@, m, name),
            r.entries@.len() == self.entries@.len(),
            forall|i: int| 0 <= i < self.entries@.len() ==> (#[trigger] r.entries@[i]).name@ == self.entries@[i].name@
                && r.entries@[i].stack_effect@ == self.entries@[i].stack_effect@
                && word_view(r.entries@[i].word) == word_view(self.entries@[i].word),
            r.tables@.len() == self.tables@.len(),
            forall|i: int| 0 <= i < self.tables@.len() ==> (#[trigger] r.tables@[i]).meta == self.tables@[i].meta
                && r.tables@[i].attributes@.len() == self.tables@[i].attributes@.len(),
    {
        let mut mods: Vec<Module> = Vec::new();
        let mut i: usize = 0;
        while i < self.modules.mods.len()
            invariant
                self.wf(),
                i <= self.modules.mods@.len(),
                mods@.len() == i,
                forall|k: int| 0 <= k < i ==> {
                    &&& (#[trigger] mods@[k]).parent == self.modules.mods@[k].parent
                    &&& mods@[k].dict@ == self.modules.mods@[k].dict@
                    &&& mods@[k].submodules@.len() == self.modules.mods@[k].submodules@.len()
                    &&& forall|j: int| 0 <= j < mods@[k].submodules@.len() ==> #[trigger] mods@[k].submodules@[j].1 == self.modules.mods@[k].submodules@[j].1
                },
            decreases self.modules.mods@.len() - i,
        {
            let m = duplicate_module(&self.modules.mods[i]);
            mods.push(m);
            i = i + 1;
        }
        let modules = Modules { mods };
        proof {
            assert forall|k: int| 0 <= k < modules.mods@.len() implies {
                &&& (#[trigger] modules.mods@[k]).parent matches Some(p) ==> p < k
                &&& forall|j: int| 0 <= j < modules.mods@[k].submodules@.len() ==> #[trigger] modules.mods@[k].submodules@[j].1
                    < modules.mods@.len()
            } by {
                let orig = self.modules.mods@[k];
                assert forall|j: int| 0 <= j < modules.mods@[k].submodules@.len() implies #[trigger] modules.mods@[k].submodules@[j].1
                    < modules.mods@.len() by {
                    assert(orig.submodules@[j].1 < self.modules.mods@.len());
                }
            }
            assert forall|m: int, name: Seq<char>| #[trigger] mod_lookup(modules.mods@, m, name) == mod_lookup(self.modules.mods@, m, name) by {
                lemma_lookup_same(modules.mods@, self.modules.mods@, m, name);
            }
        }
        let mut entries: Vec<Entry> = Vec::new();
        let mut i: usize = 0;
        while i < self.entries.len()
            invariant
                i <= self.entries@.len(),
                entries@.len() == i,
                forall|k: int| 0 <= k < i ==> (#[trigger] entries@[k]).name@ == self.entries@[k].name@
                    && entries@[k].stack_effect@ == self.entries@[k].stack_effect@
                    && word_view(entries@[k].word) == word_view(self.entries@[k].word),
            decreases self.entries@.len() - i,
        {
            entries.push(duplicate_entry(&self.entries[i]));
            i = i + 1;
        }
        let mut tables: Vec<TableImpl> = Vec::new();
        let mut i: usize = 0;
        while i < self.tables.len()
            invariant
                i <= self.tables@.len(),
                tables@.len() == i,
                forall|k: int| 0 <= k < i ==> (#[trigger] tables@[k]).meta == self.tables@[k].meta
                    && tables@[k].attributes@.len() == self.tables@[k].attributes@.len(),
            decreases self.tables@.len() - i,
        {
            tables.push(duplicate_table(&self.tables[i]));
            i = i + 1;
        }
        State {
            input_tokens: Vec::new(),
            stack: Vec::new(),
            frames: Vec::new(),
            factory: ObjectFactory::new(),
            scopes: Vec::new(),
            current_module: self.current_module,
            root_module: self.root_module,
            mode: Vec::new(),
            entries,
            modules,
            tables,
            budget: self.budget,
            output: Vec::new(),
        }
    }

    /// Takes back the modules, words and tables from a substate, with all
    /// that it defined; the rest of this state is as it was.
    pub fn rejoin(&mut self, sub: State)
        requires
            sub.wf(),
            old(self).wf(),
        ensures
            final(self).wf(),
            final(self).modules == sub.modules,
            final(self).entries@ == sub.entries@,
            final(self).tables@ == sub.tables@,
            final(self).stack@ == old(self).stack@,
            final(self).input_tokens@ == old(self).input_tokens@,
            final(self).frames@ == old(self).frames@,
            final(self).scopes@ == old(self).scopes@,
            final(self).mode@ == old(self).mode@,
            final(self).factory == old(self).factory,
            final(self).current_module == old(self).current_module,
            final(self).root_module == old(self).root_module,
            final(self).budget == old(self).budget,
            final(self).output@ == old(self).output@,
            forall|m: int, name: Seq<char>, w: Word| provides(*final(self), m, name, w) == provides(sub, m, name, w),
    {
        self.modules = sub.modules;
        self.entries = sub.entries;
        self.tables = sub.tables;
    }
}


} // verus!
