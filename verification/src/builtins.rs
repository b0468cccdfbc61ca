//! The native words that run no user code: local variables, lists, tables,
//! modules and the text of values.
use vstd::prelude::*;
use crate::errors::Error;
use crate::objects::{Object, Opcode, OView, Builtin, Callable, WordId, view_obj, view_objs, lemma_view_objs, clone_object, clone_objects, objects_equal, type_error};
use crate::state::{State, stack_view};
use crate::scope::CompilerScope;
use crate::module::ModuleRef;
use crate::text::{chars_of, chars_eq, copy_chars, append_chars, slice_chars, suffix_from, decimal_chars, sort_names, int_decimal};
use crate::module::{mod_keys, mod_lookup, sub_get, spec_access};
use crate::dictionary::Word;
use crate::effect_names::names_of;
use crate::vm::{attr_lookup, attrs_set};

verus! {

/// What the native words of this module keep: a well-formed state and the
/// budget of calls.
pub open spec fn kept(a: State, b: State) -> bool {
    b.wf() && b.budget == a.budget
}

/// Where the comment that is open at token `i`, `depth` levels deep, ends:
/// the index of its closing `)`, if the tokens hold one.
pub open spec fn comment_close(toks: Seq<Seq<char>>, i: int, depth: int) -> Option<int>
    decreases toks.len() - i,
{
    if i < 0 || i >= toks.len() {
        None
    } else if toks[i] == seq!['('] {
        comment_close(toks, i + 1, if depth < usize::MAX { depth + 1 } else { depth })
    } else if toks[i] == seq![')'] {
        if depth <= 1 {
            Some(i)
        } else {
            comment_close(toks, i + 1, depth - 1)
        }
    } else {
        comment_close(toks, i + 1, depth)
    }
}

/// Where a variable is stored among `vars`: its first position, or the
/// next free one if it is new.
pub open spec fn storage_index(vars: Seq<Seq<char>>, x: Seq<char>) -> int {
    if vars.contains(x) {
        choose|k: int| 0 <= k < vars.len() && vars[k] == x && forall|j: int| 0 <= j < k ==> vars[j] != x
    } else {
        vars.len() as int
    }
}

/// The variables of a scope after the use of `x`.
pub open spec fn vars_after_use(vars: Seq<Seq<char>>, x: Seq<char>) -> Seq<Seq<char>> {
    if vars.contains(x) {
        vars
    } else {
        vars.push(x)
    }
}

/// The position of the last `:` in `s`, or -1.
pub open spec fn last_colon_at(s: Seq<char>) -> int
    decreases s.len(),
{
    if s.len() == 0 {
        -1
    } else if s.last() == ':' {
        s.len() - 1
    } else {
        last_colon_at(s.drop_last())
    }
}

proof fn lemma_last_colon_at(s: Seq<char>, k: int)
    requires
        -1 <= k < s.len(),
        k >= 0 ==> s[k] == ':',
        forall|j: int| k < j < s.len() ==> s[j] != ':',
    ensures
        last_colon_at(s) == k,
    decreases s.len(),
{
    if s.len() > 0 && k < s.len() - 1 {
        assert(s.last() != ':');
        lemma_last_colon_at(s.drop_last(), k);
    }
}

/// What `USE` makes of a path: the module that it names and the word after
/// its last `:`, which is empty where the whole module is meant.
pub open spec fn use_target(st: State, full: Seq<char>) -> Option<(int, Seq<char>)> {
    let k = last_colon_at(full);
    if k < 0 {
        None
    } else {
        let path = full.subrange(0, k);
        let word = full.subrange(k + 1, full.len() as int);
        let rel = if path.len() > 0 && path[0] == ':' {
            st.root_module.0 as int
        } else {
            st.current_module.0 as int
        };
        let p = if path.len() > 0 && path[0] == ':' {
            path.drop_first()
        } else {
            path
        };
        match spec_access(st.modules.mods@, rel, p) {
            Some(t) => Some((t, word)),
            None => None,
        }
    }
}

/// In the current module the name now stands for `id`, and every other
/// name for what it stood for before.
pub open spec fn imported(a: State, b: State, name: Seq<char>, id: WordId) -> bool {
    let m = a.current_module.0 as int;
    &&& mod_lookup(b.modules.mods@, m, name) == Some(id)
    &&& forall|n: Seq<char>| n != name ==> #[trigger] mod_lookup(b.modules.mods@, m, n) == mod_lookup(a.modules.mods@, m, n)
}

/// The last `:` in `s`, if any.
fn last_colon(s: &[char]) -> (r: Option<usize>)
    ensures
        match r {
            Some(k) => k < s@.len() && s@[k as int] == ':' && forall|j: int| k < j < s@.len() ==> s@[j] != ':',
            None => forall|j: int| 0 <= j < s@.len() ==> s@[j] != ':',
        },
        match r {
            Some(k) => k as int == last_colon_at(s@),
            None => last_colon_at(s@) == -1,
        },
{
    let mut i: usize = s.len();
    while i > 0
        invariant
            i <= s@.len(),
            forall|j: int| i <= j < s@.len() ==> s@[j] != ':',
        decreases i,
    {
        i = i - 1;
        if s[i] == ':' {
            proof {
                lemma_last_colon_at(s@, i as int);
            }
            return Some(i);
        }
    }
    proof {
        lemma_last_colon_at(s@, -1);
    }
    None
}

/// Appends the characters of a string literal.
fn push_str(out: &mut Vec<char>, s: &str)
    ensures
        final(out)@ == old(out)@ + s@,
{
    let c = chars_of(s);
    append_chars(out, c.as_slice());
}

/// The characters of a string as `{:?}` writes them: in double quotes, with
/// quotes, backslashes, newlines, returns and tabs escaped.
pub fn quoted(s: &[char]) -> (r: Vec<char>)
    ensures
        r@ == seq!['"'] + escaped(s@) + seq!['"'],
{
    let mut out: Vec<char> = Vec::new();
    out.push('"');
    let mut i: usize = 0;
    while i < s.len()
        invariant
            i <= s@.len(),
            out@ == seq!['"'] + escaped(s@.subrange(0, i as int)),
        decreases s@.len() - i,
    {
        let c = s[i];
        let ghost before = out@;
        if c == '"' {
            out.push('\\');
            out.push('"');
        } else if c == '\\' {
            out.push('\\');
            out.push('\\');
        } else if c == '\n' {
            out.push('\\');
            out.push('n');
        } else if c == '\r' {
            out.push('\\');
            out.push('r');
        } else if c == '\t' {
            out.push('\\');
            out.push('t');
        } else {
            out.push(c);
        }
        proof {
            let t = s@.subrange(0, i + 1);
            assert(t.drop_last() =~= s@.subrange(0, i as int));
            assert(t.last() == c);
            assert(out@ =~= before + escape_char(c));
        }
        i = i + 1;
    }
    assert(s@.subrange(0, s@.len() as int) =~= s@);
    out.push('"');
    out
}

/// The text of a value that needs nothing but the value to be written.
pub open spec fn simple_repr(o: Object) -> Option<Seq<char>> {
    match o {
        Object::Nil => Some("None"@),
        Object::False => Some("False"@),
        Object::True => Some("True"@),
        Object::I32(i) => Some(int_decimal(i as int)),
        Object::String(st) => Some(seq!['"'] + escaped(st@) + seq!['"']),
        Object::Function(_) => Some("<native function>"@),
        _ => None,
    }
}

/// How a character is written inside a quoted string.
pub open spec fn escape_char(c: char) -> Seq<char> {
    if c == '"' {
        seq!['\\', '"']
    } else if c == '\\' {
        seq!['\\', '\\']
    } else if c == '\n' {
        seq!['\\', 'n']
    } else if c == '\r' {
        seq!['\\', 'r']
    } else if c == '\t' {
        seq!['\\', 't']
    } else {
        seq![c]
    }
}

/// The characters of a string, each as written inside a quoted string.
pub open spec fn escaped(s: Seq<char>) -> Seq<char>
    decreases s.len(),
{
    if s.len() == 0 {
        Seq::empty()
    } else {
        escaped(s.drop_last()) + escape_char(s.last())
    }
}

/// The text of a value as the system writes it, with the names of the
/// entries `en` for words.
pub open spec fn repr_text(en: Seq<crate::dictionary::Entry>, o: Object) -> Seq<char>
    decreases o, 1nat,
{
    match o {
        Object::Nil => "None"@,
        Object::False => "False"@,
        Object::True => "True"@,
        Object::I32(i) => int_decimal(i as int),
        Object::Word(w) => if w.0 < en.len() {
            en[w.0 as int].name@
        } else {
            "<unknown word>"@
        },
        Object::ByteCode(bc) => {
            proof {
                assert(decreases_to!(bc => bc.ops));
                assert(decreases_to!(bc.ops => bc.ops@));
            }
            seq!['['] + ops_text(en, bc.ops@) + seq![' ', ']']
        },
        Object::Function(_) => "<native function>"@,
        Object::List(v) => {
            proof {
                assert(decreases_to!(v => v@));
            }
            seq!['['] + items_text(en, v@) + seq![']']
        },
        Object::String(st) => seq!['"'] + escaped(st@) + seq!['"'],
        Object::Table(t) => "DynamicObject at "@ + int_decimal((t % 1000000) as int),
    }
}

/// The texts of the values, separated by `, `.
pub open spec fn items_text(en: Seq<crate::dictionary::Entry>, v: Seq<Object>) -> Seq<char>
    decreases v, 0nat,
{
    if v.len() == 0 {
        Seq::empty()
    } else if v.len() == 1 {
        repr_text(en, v[0])
    } else {
        items_text(en, v.subrange(0, v.len() - 1)) + seq![',', ' '] + repr_text(en, v[v.len() - 1])
    }
}

/// The texts of the instructions, each after a space.
pub open spec fn ops_text(en: Seq<crate::dictionary::Entry>, ops: Seq<Opcode>) -> Seq<char>
    decreases ops, 0nat,
{
    if ops.len() == 0 {
        Seq::empty()
    } else {
        let op = ops[ops.len() - 1];
        ops_text(en, ops.subrange(0, ops.len() - 1)) + seq![' '] + match op {
            Opcode::Push(o) => repr_text(en, o),
            Opcode::Call(o) => repr_text(en, o),
            Opcode::CallDirect(_) => "<native function>"@,
            Opcode::TailRecurse => "<tail recurse>"@,
        }
    }
}

impl State {
    /// The text of a value as the system writes it.
    pub fn repr_sys(&self, obj: &Object) -> (r: Vec<char>)
        ensures
            match simple_repr(*obj) {
                Some(t) => r@ == t,
                None => true,
            },
            (obj matches Object::Word(w) && w.0 < self.entries@.len()) ==> r@ == self.entries@[obj->Word_0.0 as int].name@,
            r@ == repr_text(self.entries@, *obj),
        decreases obj,
    {
        match obj {
            Object::Nil => chars_of("None"),
            Object::False => chars_of("False"),
            Object::True => chars_of("True"),
            Object::I32(i) => decimal_chars(*i),
            Object::Word(w) => {
                if w.0 < self.entries.len() {
                    copy_chars(self.entries[w.0].name.as_slice())
                } else {
                    chars_of("<unknown word>")
                }
            },
            Object::ByteCode(bc) => self.repr_ops(&bc.ops),
            Object::Function(_) => chars_of("<native function>"),
            Object::List(v) => self.repr_list(v),
            Object::String(s) => quoted(s.as_slice()),
            Object::Table(t) => {
                let mut out = chars_of("DynamicObject at ");
                let d = decimal_chars((*t % 1000000) as i32);
                append_chars(&mut out, d.as_slice());
                assert((*t % 1000000) as i32 as int == (*t % 1000000) as int);
                out
            },
        }
    }

    /// The text of compiled code: `[ op op ... ]`.
    fn repr_ops(&self, ops: &Vec<crate::objects::Opcode>) -> (r: Vec<char>)
        ensures
            r@ == seq!['['] + ops_text(self.entries@, ops@) + seq![' ', ']'],
        decreases ops,
    {
        proof {
            reveal_strlit("[");
            reveal_strlit(" ]");
            reveal_strlit("<native function>");
            reveal_strlit("<tail recurse>");
        }
        let mut out = chars_of("[");
        let mut i: usize = 0;
        assert(ops@.subrange(0, 0) =~= Seq::<Opcode>::empty());
        assert(out@ =~= seq!['['] + ops_text(self.entries@, ops@.subrange(0, 0)));
        while i < ops.len()
            invariant
                i <= ops@.len(),
                out@ == seq!['['] + ops_text(self.entries@, ops@.subrange(0, i as int)),
            decreases ops@.len() - i,
        {
            let ghost pre = out@;
            assert(ops@.subrange(0, i + 1).subrange(0, i as int) =~= ops@.subrange(0, i as int));
            out.push(' ');
            assert(decreases_to!(ops => ops@));
            assert(decreases_to!(ops@ => ops@[i as int]));
            match &ops[i] {
                crate::objects::Opcode::Push(o) => {
                    let t = self.repr_sys(o);
                    append_chars(&mut out, t.as_slice());
                },
                crate::objects::Opcode::Call(o) => {
                    let t = self.repr_sys(o);
                    append_chars(&mut out, t.as_slice());
                },
                crate::objects::Opcode::CallDirect(_) => push_str(&mut out, "<native function>"),
                crate::objects::Opcode::TailRecurse => push_str(&mut out, "<tail recurse>"),
            }
            assert(out@ =~= seq!['['] + ops_text(self.entries@, ops@.subrange(0, i + 1)));
            i = i + 1;
        }
        assert(ops@.subrange(0, ops@.len() as int) =~= ops@);
        push_str(&mut out, " ]");
        out
    }

    /// The text of a list: `[a, b, ...]`.
    fn repr_list(&self, v: &Vec<Object>) -> (r: Vec<char>)
        ensures
            r@ == seq!['['] + items_text(self.entries@, v@) + seq![']'],
        decreases v,
    {
        proof {
            reveal_strlit("[");
            reveal_strlit(", ");
        }
        let mut out = chars_of("[");
        let mut i: usize = 0;
        assert(out@ =~= seq!['['] + items_text(self.entries@, v@.subrange(0, 0)));
        while i < v.len()
            invariant
                i <= v@.len(),
                out@ == seq!['['] + items_text(self.entries@, v@.subrange(0, i as int)),
            decreases v@.len() - i,
        {
            assert(v@.subrange(0, i + 1).subrange(0, i as int) =~= v@.subrange(0, i as int));
            if i > 0 {
                push_str(&mut out, ", ");
            }
            assert(decreases_to!(v => v@));
            assert(decreases_to!(v@ => v@[i as int]));
            let t = self.repr_sys(&v[i]);
            append_chars(&mut out, t.as_slice());
            proof {
                let sq = v@.subrange(0, i + 1);
                assert(sq.subrange(0, sq.len() - 1) =~= v@.subrange(0, i as int));
                assert(sq[sq.len() - 1] == v@[i as int]);
                if i == 0 {
                    assert(sq[0] == v@[0]);
                }
                reveal_strlit(", ");
                assert(", "@ =~= seq![',', ' ']);
                assert(out@ =~= seq!['['] + items_text(self.entries@, v@.subrange(0, i + 1)));
            }
            i = i + 1;
        }
        assert(v@.subrange(0, v@.len() as int) =~= v@);
        out.push(']');
        out
    }

    /// What `bi_next_token` guarantees, as a relation between the state before
    /// and the state after.
    pub open spec fn post_bi_next_token(pre: State, post: State, r: Result<(), Error>) -> bool {
        &&& (kept(pre, post))
        &&& (pre.input_tokens@.len() == 0 ==> r == Err::<(), Error>(Error::EndOfInput)
                && post.stack == pre.stack)
        &&& (pre.input_tokens@.len() > 0 ==> r is Ok
                && post.input_tokens@ == pre.input_tokens@.drop_first()
                && stack_view(post.stack@) == stack_view(pre.stack@).push(OView::String(pre.input_tokens@[0]@)))
    }

    /// `next_token ( -- token)`: pushes the next token of the input.
    pub fn bi_next_token(&mut self) -> (r: Result<(), Error>)
        requires
            old(self).wf(),
        ensures
            kept(*old(self), *final(self)),
            old(self).input_tokens@.len() == 0 ==> r == Err::<(), Error>(Error::EndOfInput)
                && final(self).stack == old(self).stack,
            old(self).input_tokens@.len() > 0 ==> r is Ok
                && final(self).input_tokens@ == old(self).input_tokens@.drop_first()
                && stack_view(final(self).stack@) == stack_view(old(self).stack@).push(OView::String(old(self).input_tokens@[0]@)),
    {
        match self.next_token() {
            Some(t) => self.push_string(t),
            None => Err(Error::EndOfInput),
        }
    }

    /// Makes a submodule of the current module, registered under the name,
    /// with its own `END-MODULE` word, and enters it.
    pub fn new_mod(&mut self, name: &[char]) -> (r: Result<(), Error>)
        requires
            old(self).wf(),
        ensures
            kept(*old(self), *final(self)),
            final(self).stack == old(self).stack,
            final(self).input_tokens == old(self).input_tokens,
            old(self).current_module.0 >= old(self).modules.mods@.len() ==> r == Err::<(), Error>(Error::PathError)
                && *final(self) == *old(self),
            old(self).current_module.0 < old(self).modules.mods@.len() ==> {
                let p = old(self).current_module.0;
                let m = old(self).modules.mods@.len();
                &&& r is Ok
                &&& final(self).current_module.0 == m
                &&& final(self).modules.mods@.len() == m + 1
                &&& final(self).modules.mods@[m as int].parent == Some(p)
                &&& sub_get(final(self).modules.mods@[p as int].submodules@, name@) == Some(m as usize)
                &&& final(self).entries@.len() == old(self).entries@.len() + 1
                &&& final(self).entries@.last().word == Word::ParsingWord(Object::Function(Callable::Const(Builtin::EndModule)))
                &&& final(self).modules.mods@[m as int].dict@
                    == crate::dictionary::spec_insert(Seq::empty(), "END-MODULE"@, WordId(old(self).entries@.len() as usize))
            },
    {
        if self.current_module.0 >= self.modules.mods.len() {
            return Err(Error::PathError);
        }
        let m = self.current_module.new_submodule(&mut self.modules, name);
        self.current_module = m;
        self.add_native_parse_word("END-MODULE", Builtin::EndModule);
        Ok(())
    }

    /// What `bi_module` guarantees, as a relation between the state before
    /// and the state after.
    pub open spec fn post_bi_module(pre: State, post: State, r: Result<(), Error>) -> bool {
        &&& (kept(pre, post))
        &&& (pre.input_tokens@.len() == 0 ==> r == Err::<(), Error>(Error::EndOfInput))
        &&& (pre.input_tokens@.len() > 0 && pre.current_module.0 < pre.modules.mods@.len() ==> {
                let p = pre.current_module.0;
                let m = pre.modules.mods@.len();
                &&& r is Ok
                &&& post.input_tokens@ == pre.input_tokens@.drop_first()
                &&& post.current_module.0 == m
                &&& post.modules.mods@[m as int].parent == Some(p)
                &&& sub_get(post.modules.mods@[p as int].submodules@, pre.input_tokens@[0]@) == Some(m as usize)
            })
    }

    /// `MODULE name`: makes and enters a submodule.
    pub fn bi_module(&mut self) -> (r: Result<(), Error>)
        requires
            old(self).wf(),
        ensures
            kept(*old(self), *final(self)),
            old(self).input_tokens@.len() == 0 ==> r == Err::<(), Error>(Error::EndOfInput),
            old(self).input_tokens@.len() > 0 && old(self).current_module.0 < old(self).modules.mods@.len() ==> {
                let p = old(self).current_module.0;
                let m = old(self).modules.mods@.len();
                &&& r is Ok
                &&& final(self).input_tokens@ == old(self).input_tokens@.drop_first()
                &&& final(self).current_module.0 == m
                &&& final(self).modules.mods@[m as int].parent == Some(p)
                &&& sub_get(final(self).modules.mods@[p as int].submodules@, old(self).input_tokens@[0]@) == Some(m as usize)
            },
    {
        let name = match self.next_token() {
            Some(t) => t,
            None => {
                return Err(Error::EndOfInput);
            },
        };
        self.new_mod(name.as_slice())
    }

    /// What `bi_end_module` guarantees, as a relation between the state before
    /// and the state after.
    pub open spec fn post_bi_end_module(pre: State, post: State, r: Result<(), Error>) -> bool {
        &&& (kept(pre, post))
        &&& (post.stack == pre.stack)
        &&& (post.modules == pre.modules)
        &&& (pre.current_module.0 < pre.modules.mods@.len()
                && pre.modules.mods@[pre.current_module.0 as int].parent is Some ==> r is Ok
                && post.current_module.0 == pre.modules.mods@[pre.current_module.0 as int].parent->0)
        &&& (!(pre.current_module.0 < pre.modules.mods@.len()
                && pre.modules.mods@[pre.current_module.0 as int].parent is Some) ==> r is Err
                && post.current_module == pre.current_module)
    }

    /// `END-MODULE`: returns to the parent module.
    pub fn bi_end_module(&mut self) -> (r: Result<(), Error>)
        requires
            old(self).wf(),
        ensures
            kept(*old(self), *final(self)),
            final(self).stack == old(self).stack,
            final(self).modules == old(self).modules,
            old(self).current_module.0 < old(self).modules.mods@.len()
                && old(self).modules.mods@[old(self).current_module.0 as int].parent is Some ==> r is Ok
                && final(self).current_module.0 == old(self).modules.mods@[old(self).current_module.0 as int].parent->0,
            !(old(self).current_module.0 < old(self).modules.mods@.len()
                && old(self).modules.mods@[old(self).current_module.0 as int].parent is Some) ==> r is Err
                && final(self).current_module == old(self).current_module,
    {
        match self.exit_mod() {
            Some(_) => Ok(()),
            None => Err(Error::RuntimeError(chars_of("attempt to end root module"))),
        }
    }

    /// Makes the entry's own name stand for it in the current module.
    fn import_entry(&mut self, id: WordId, fullpath: &[char]) -> (r: Result<(), Error>)
        requires
            old(self).wf(),
        ensures
            kept(*old(self), *final(self)),
            final(self).stack == old(self).stack,
            final(self).input_tokens == old(self).input_tokens,
            final(self).entries == old(self).entries,
            final(self).current_module == old(self).current_module,
            final(self).root_module == old(self).root_module,
            id.0 >= old(self).entries@.len() ==> (r matches Err(Error::UnknownWord(f)) && f@ == fullpath@),
            id.0 < old(self).entries@.len() ==> r is Ok && (old(self).current_module.0 < old(self).modules.mods@.len()
                ==> imported(*old(self), *final(self), old(self).entries@[id.0 as int].name@, id)),
    {
        if id.0 >= self.entries.len() {
            return Err(Error::UnknownWord(copy_chars(fullpath)));
        }
        let name = copy_chars(self.entries[id.0].name.as_slice());
        let cm = self.current_module;
        let ghost before = self.modules.mods@;
        cm.insert(&mut self.modules, name.as_slice(), id);
        proof {
            let c = cm.0 as int;
            if c < before.len() {
                crate::module::law_module_lookup_after_insert(before, self.modules.mods@, c, name@, id, name@);
                assert forall|n: Seq<char>| n != name@ implies #[trigger] mod_lookup(self.modules.mods@, c, n)
                    == mod_lookup(before, c, n) by {
                    crate::module::law_module_lookup_after_insert(before, self.modules.mods@, c, name@, id, n);
                }
            }
        }
        Ok(())
    }

    /// What `bi_use` guarantees, as a relation between the state before
    /// and the state after.
    pub open spec fn post_bi_use(pre: State, post: State, r: Result<(), Error>) -> bool {
        &&& (kept(pre, post))
        &&& (post.stack == pre.stack)
        &&& (pre.input_tokens@.len() == 0 ==> r == Err::<(), Error>(Error::EndOfInput))
        &&& (pre.input_tokens@.len() > 0 ==> {
                let full = pre.input_tokens@[0]@;
                &&& post.input_tokens@ == pre.input_tokens@.drop_first()
                &&& match use_target(pre, full) {
                    None => r == Err::<(), Error>(Error::PathError),
                    Some((t, word)) => word.len() > 0 ==> match mod_lookup(pre.modules.mods@, t, word) {
                        None => (r matches Err(Error::UnknownWord(f)) && f@ == full),
                        Some(id) => if id.0 < pre.entries@.len() {
                            r is Ok && (pre.current_module.0 < pre.modules.mods@.len() ==> imported(
                                pre,
                                post,
                                pre.entries@[id.0 as int].name@,
                                id,
                            ))
                        } else {
                            r is Err
                        },
                    },
                }
            })
    }

    /// `USE path:word` imports a word, `USE path:` all words of a module;
    /// a path that starts with `:` starts at the root module.
    pub fn bi_use(&mut self) -> (r: Result<(), Error>)
        requires
            old(self).wf(),
        ensures
            kept(*old(self), *final(self)),
            final(self).stack == old(self).stack,
            old(self).input_tokens@.len() == 0 ==> r == Err::<(), Error>(Error::EndOfInput),
            old(self).input_tokens@.len() > 0 ==> {
                let full = old(self).input_tokens@[0]@;
                &&& final(self).input_tokens@ == old(self).input_tokens@.drop_first()
                &&& match use_target(*old(self), full) {
                    None => r == Err::<(), Error>(Error::PathError),
                    Some((t, word)) => word.len() > 0 ==> match mod_lookup(old(self).modules.mods@, t, word) {
                        None => (r matches Err(Error::UnknownWord(f)) && f@ == full),
                        Some(id) => if id.0 < old(self).entries@.len() {
                            r is Ok && (old(self).current_module.0 < old(self).modules.mods@.len() ==> imported(
                                *old(self),
                                *final(self),
                                old(self).entries@[id.0 as int].name@,
                                id,
                            ))
                        } else {
                            r is Err
                        },
                    },
                }
            },
    {
        let fullpath = match self.next_token() {
            Some(t) => t,
            None => {
                return Err(Error::EndOfInput);
            },
        };
        let k = match last_colon(fullpath.as_slice()) {
            Some(k) => k,
            None => {
                return Err(Error::PathError);
            },
        };
        let n = fullpath.len();
        assert(k < n);
        let word = suffix_from(fullpath.as_slice(), k + 1);
        let path = slice_chars(fullpath.as_slice(), 0, k);
        let ghost path0 = path@;
        let (relative, path) = if path.len() > 0 && path[0] == ':' {
            (self.root_module, suffix_from(path.as_slice(), 1))
        } else {
            (self.current_module, path)
        };
        proof {
            if path0.len() > 0 && path0[0] == ':' {
                assert(path@ =~= path0.drop_first());
            }
        }
        let ghost ut = use_target(*old(self), fullpath@);
        proof {
            let f = fullpath@;
            assert(k as int == last_colon_at(f));
            assert(path0 =~= f.subrange(0, k as int));
            assert(self.modules == old(self).modules);
            assert(self.root_module == old(self).root_module);
            assert(self.current_module == old(self).current_module);
            let rel = if path0.len() > 0 && path0[0] == ':' {
                old(self).root_module.0 as int
            } else {
                old(self).current_module.0 as int
            };
            let p = if path0.len() > 0 && path0[0] == ':' {
                path0.drop_first()
            } else {
                path0
            };
            assert(relative.0 as int == rel);
            assert(path@ == p);
        }
        let target = match relative.access_path(&self.modules, path.as_slice()) {
            Some(t) => t,
            None => {
                assert(ut is None);
                return Err(Error::PathError);
            },
        };
        proof {
            crate::module::lemma_access_range(self.modules.mods@, relative.0 as int, path@);
            let f = fullpath@;
            let sa = spec_access(old(self).modules.mods@, relative.0 as int, path@);
            assert(self.modules.mods.len() == self.modules.mods@.len());
            assert(sa is Some);
            assert(target.0 as int == sa->Some_0);
            assert(word@ =~= f.subrange(k + 1, f.len() as int));
        }
        assert(ut == Some((target.0 as int, word@)));
        if word.len() > 0 {
            let id = match target.lookup(&self.modules, word.as_slice()) {
                Some(id) => id,
                None => {
                    return Err(Error::UnknownWord(fullpath));
                },
            };
            self.import_entry(id, fullpath.as_slice())
        } else {
            let names = target.local_keys(&self.modules);
            let mut i: usize = 0;
            while i < names.len()
                invariant
                    i <= names@.len(),
                    self.wf(),
                    self.budget == old(self).budget,
                    self.stack == old(self).stack,
                    old(self).input_tokens@.len() > 0,
                    self.input_tokens@ == old(self).input_tokens@.drop_first(),
                    use_target(*old(self), old(self).input_tokens@[0]@) == Some((target.0 as int, word@)),
                    word@.len() == 0,
                decreases names@.len() - i,
            {
                let id = match target.lookup(&self.modules, names[i].as_slice()) {
                    Some(id) => id,
                    None => {
                        return Err(Error::UnknownWord(fullpath));
                    },
                };
                self.import_entry(id, fullpath.as_slice())?;
                i = i + 1;
            }
            Ok(())
        }
    }

    /// What `bi_comment` guarantees, as a relation between the state before
    /// and the state after.
    pub open spec fn post_bi_comment(pre: State, post: State, r: Result<(), Error>) -> bool {
        &&& (kept(pre, post))
        &&& (post.stack == pre.stack)
        &&& (post.mode == pre.mode)
        &&& (match comment_close(names_of(pre.input_tokens@), 0, 1) {
                Some(j) => r is Ok && post.input_tokens@ == pre.input_tokens@.skip(j + 1),
                None => r == Err::<(), Error>(Error::EndOfInput) && post.input_tokens@.len() == 0,
            })
    }

    /// `( ... )`: skips a comment, which may contain nested parentheses.
    pub fn bi_comment(&mut self) -> (r: Result<(), Error>)
        requires
            old(self).wf(),
        ensures
            kept(*old(self), *final(self)),
            final(self).stack == old(self).stack,
            final(self).mode == old(self).mode,
            match comment_close(names_of(old(self).input_tokens@), 0, 1) {
                Some(j) => r is Ok && final(self).input_tokens@ == old(self).input_tokens@.skip(j + 1),
                None => r == Err::<(), Error>(Error::EndOfInput) && final(self).input_tokens@.len() == 0,
            },
    {
        let ghost tv = names_of(self.input_tokens@);
        let ghost mut c: int = 0;
        let mut nesting: usize = 1;
        while nesting > 0
            invariant
                self.wf(),
                self.budget == old(self).budget,
                self.stack == old(self).stack,
                self.mode == old(self).mode,
                tv == names_of(old(self).input_tokens@),
                0 <= c <= tv.len(),
                self.input_tokens@ == old(self).input_tokens@.skip(c),
                nesting > 0 ==> comment_close(tv, 0, 1) == comment_close(tv, c, nesting as int),
                nesting == 0 ==> c > 0 && comment_close(tv, 0, 1) == Some(c - 1),
            decreases self.input_tokens@.len(),
        {
            proof {
                if c < tv.len() {
                    assert(self.input_tokens@[0] == old(self).input_tokens@[c]);
                    assert(tv[c] == old(self).input_tokens@[c]@);
                }
            }
            match self.next_token() {
                None => {
                    proof {
                        assert(c == tv.len());
                    }
                    return Err(Error::EndOfInput);
                },
                Some(t) => {
                    proof {
                        assert(self.input_tokens@ =~= old(self).input_tokens@.skip(c + 1));
                    }
                    if t.len() == 1 && t[0] == '(' {
                        proof {
                            assert(tv[c] =~= seq!['(']);
                        }
                        if nesting < usize::MAX {
                            nesting = nesting + 1;
                        }
                    } else if t.len() == 1 && t[0] == ')' {
                        proof {
                            assert(tv[c] =~= seq![')']);
                        }
                        nesting = nesting - 1;
                    } else {
                        proof {
                            assert(tv[c] != seq!['(']);
                            assert(tv[c] != seq![')']);
                        }
                    }
                    proof {
                        c = c + 1;
                    }
                },
            }
        }
        Ok(())
    }

    /// What `bi_push_frame` guarantees, as a relation between the state before
    /// and the state after.
    pub open spec fn post_bi_push_frame(pre: State, post: State, r: Result<(), Error>) -> bool {
        &&& (kept(pre, post))
        &&& (!top_is_i32(pre.stack@) ==> r is Err && post.frames == pre.frames)
        &&& (top_is_i32(pre.stack@) ==> post.stack@ == pre.stack@.drop_last() && {
                let n = pre.stack@.last()->I32_0;
                if n < 0 {
                    r is Err && post.frames == pre.frames
                } else {
                    r is Ok && post.frames@.len() == pre.frames@.len() + 1
                        && post.frames@.subrange(0, pre.frames@.len() as int) == pre.frames@
                        && post.frames@.last()@ == Seq::new(n as nat, |i: int| Object::Nil)
                }
            })
    }

    /// `push_frame (n -- )`: a frame of `n` empty local variables.
    pub fn bi_push_frame(&mut self) -> (r: Result<(), Error>)
        requires
            old(self).wf(),
        ensures
            kept(*old(self), *final(self)),
            !top_is_i32(old(self).stack@) ==> r is Err && final(self).frames == old(self).frames,
            top_is_i32(old(self).stack@) ==> final(self).stack@ == old(self).stack@.drop_last() && {
                let n = old(self).stack@.last()->I32_0;
                if n < 0 {
                    r is Err && final(self).frames == old(self).frames
                } else {
                    r is Ok && final(self).frames@.len() == old(self).frames@.len() + 1
                        && final(self).frames@.subrange(0, old(self).frames@.len() as int) == old(self).frames@
                        && final(self).frames@.last()@ == Seq::new(n as nat, |i: int| Object::Nil)
                }
            },
    {
        let n = self.pop_i32()?;
        if n < 0 {
            return Err(Error::RuntimeError(chars_of("negative frame size")));
        }
        let mut frame: Vec<Object> = Vec::new();
        let mut i: i32 = 0;
        while i < n
            invariant
                0 <= i <= n,
                frame@ == Seq::new(i as nat, |j: int| Object::Nil),
            decreases n - i,
        {
            frame.push(Object::Nil);
            i = i + 1;
            assert(frame@ =~= Seq::new(i as nat, |j: int| Object::Nil));
        }
        let ghost f0 = self.frames@;
        self.frames.push(frame);
        assert(self.frames@.subrange(0, f0.len() as int) =~= f0);
        Ok(())
    }

    /// What `bi_pop_frame` guarantees, as a relation between the state before
    /// and the state after.
    pub open spec fn post_bi_pop_frame(pre: State, post: State, r: Result<(), Error>) -> bool {
        &&& (kept(pre, post))
        &&& (!top_is_i32(pre.stack@) ==> r is Err && post.frames == pre.frames)
        &&& (top_is_i32(pre.stack@) ==> post.stack@ == pre.stack@.drop_last() && {
                let n = pre.stack@.last()->I32_0;
                if pre.frames@.len() == 0 {
                    r is Err && post.frames@ == pre.frames@
                } else {
                    &&& post.frames@ == pre.frames@.drop_last()
                    &&& (r is Ok <==> (n >= 0 && pre.frames@.last()@.len() == n))
                }
            })
    }

    /// `pop_frame (n -- )`: drops the innermost frame, which must have `n`
    /// variables.
    pub fn bi_pop_frame(&mut self) -> (r: Result<(), Error>)
        requires
            old(self).wf(),
        ensures
            kept(*old(self), *final(self)),
            !top_is_i32(old(self).stack@) ==> r is Err && final(self).frames == old(self).frames,
            top_is_i32(old(self).stack@) ==> final(self).stack@ == old(self).stack@.drop_last() && {
                let n = old(self).stack@.last()->I32_0;
                if old(self).frames@.len() == 0 {
                    r is Err && final(self).frames@ == old(self).frames@
                } else {
                    &&& final(self).frames@ == old(self).frames@.drop_last()
                    &&& (r is Ok <==> (n >= 0 && old(self).frames@.last()@.len() == n))
                }
            },
    {
        let n = self.pop_i32()?;
        match self.frames.pop() {
            Some(f) => {
                if n >= 0 && f.len() == n as usize {
                    Ok(())
                } else {
                    Err(Error::RuntimeError(chars_of("frame size mismatch")))
                }
            },
            None => Err(Error::RuntimeError(chars_of("no frame"))),
        }
    }

    /// What `bi_store` guarantees, as a relation between the state before
    /// and the state after.
    pub open spec fn post_bi_store(pre: State, post: State, r: Result<(), Error>) -> bool {
        &&& (kept(pre, post))
        &&& (!top_is_i32(pre.stack@) ==> r is Err)
        &&& (top_is_i32(pre.stack@) && pre.stack@.len() >= 2 ==> {
                let s = pre.stack@;
                let a = s.last()->I32_0;
                let x = s[s.len() - 2];
                &&& post.stack@ == s.drop_last().drop_last()
                &&& pre.frames@.len() == 0 ==> r is Err && post.frames@ == pre.frames@
                &&& pre.frames@.len() > 0 ==> {
                    let f = pre.frames@.last()@;
                    &&& post.frames@.len() == pre.frames@.len()
                    &&& post.frames@.drop_last() == pre.frames@.drop_last()
                    &&& if 0 <= a < f.len() {
                        r is Ok && post.frames@.last()@ == f.update(a as int, x)
                    } else {
                        r is Err && post.frames@.last()@ == f
                    }
                }
            })
    }

    /// `store (x addr -- )`: stores into a local variable.
    pub fn bi_store(&mut self) -> (r: Result<(), Error>)
        requires
            old(self).wf(),
        ensures
            kept(*old(self), *final(self)),
            !top_is_i32(old(self).stack@) ==> r is Err,
            top_is_i32(old(self).stack@) && old(self).stack@.len() >= 2 ==> {
                let s = old(self).stack@;
                let a = s.last()->I32_0;
                let x = s[s.len() - 2];
                &&& final(self).stack@ == s.drop_last().drop_last()
                &&& old(self).frames@.len() == 0 ==> r is Err && final(self).frames@ == old(self).frames@
                &&& old(self).frames@.len() > 0 ==> {
                    let f = old(self).frames@.last()@;
                    &&& final(self).frames@.len() == old(self).frames@.len()
                    &&& final(self).frames@.drop_last() == old(self).frames@.drop_last()
                    &&& if 0 <= a < f.len() {
                        r is Ok && final(self).frames@.last()@ == f.update(a as int, x)
                    } else {
                        r is Err && final(self).frames@.last()@ == f
                    }
                }
            },
    {
        let addr = self.pop_i32()?;
        let x = self.pop()?;
        let nf = self.frames.len();
        if nf == 0 {
            return Err(Error::RuntimeError(chars_of("no frame")));
        }
        let mut frame: Vec<Object> = Vec::new();
        std::mem::swap(&mut frame, &mut self.frames[nf - 1]);
        let len = frame.len();
        let res = if addr >= 0 && (addr as usize) < len {
            frame.set(addr as usize, x);
            Ok(())
        } else {
            Err(Error::IndexError(addr as usize, len))
        };
        std::mem::swap(&mut frame, &mut self.frames[nf - 1]);
        res
    }

    /// What `bi_fetch` guarantees, as a relation between the state before
    /// and the state after.
    pub open spec fn post_bi_fetch(pre: State, post: State, r: Result<(), Error>) -> bool {
        &&& (kept(pre, post))
        &&& (post.frames == pre.frames)
        &&& (!top_is_i32(pre.stack@) ==> r is Err)
        &&& (top_is_i32(pre.stack@) ==> {
                let a = pre.stack@.last()->I32_0;
                if pre.frames@.len() > 0 && 0 <= a < pre.frames@.last()@.len() {
                    r is Ok && stack_view(post.stack@)
                        == stack_view(pre.stack@.drop_last()).push(view_obj(pre.frames@.last()@[a as int]))
                } else {
                    r is Err
                }
            })
    }

    /// `fetch (addr -- x)`: pushes a copy of a local variable.
    pub fn bi_fetch(&mut self) -> (r: Result<(), Error>)
        requires
            old(self).wf(),
        ensures
            kept(*old(self), *final(self)),
            final(self).frames == old(self).frames,
            !top_is_i32(old(self).stack@) ==> r is Err,
            top_is_i32(old(self).stack@) ==> {
                let a = old(self).stack@.last()->I32_0;
                if old(self).frames@.len() > 0 && 0 <= a < old(self).frames@.last()@.len() {
                    r is Ok && stack_view(final(self).stack@)
                        == stack_view(old(self).stack@.drop_last()).push(view_obj(old(self).frames@.last()@[a as int]))
                } else {
                    r is Err
                }
            },
    {
        let addr = self.pop_i32()?;
        let nf = self.frames.len();
        if nf == 0 {
            return Err(Error::RuntimeError(chars_of("no frame")));
        }
        let len = self.frames[nf - 1].len();
        if addr >= 0 && (addr as usize) < len {
            let x = clone_object(&self.frames[nf - 1][addr as usize]);
            let ghost s1 = self.stack@;
            self.push(x)?;
            assert(self.stack@.subrange(0, self.stack@.len() - 1) =~= s1);
            Ok(())
        } else {
            Err(Error::IndexError(addr as usize, len))
        }
    }

    /// What `bi_var` guarantees, as a relation between the state before
    /// and the state after.
    pub open spec fn post_bi_var(pre: State, post: State, r: Result<(), Error>, word: WordId) -> bool {
        &&& (kept(pre, post))
        &&& (pre.input_tokens@.len() == 0 ==> r == Err::<(), Error>(Error::EndOfInput))
        &&& (pre.input_tokens@.len() > 0 && pre.scopes@.len() == 0 ==> r is Err)
        &&& (pre.input_tokens@.len() > 0 && pre.scopes@.len() > 0 ==> {
                let name = pre.input_tokens@[0]@;
                let vars = names_of(pre.scopes@.last().variables@);
                let i = storage_index(vars, name);
                &&& post.input_tokens@ == pre.input_tokens@.drop_first()
                &&& post.scopes@.len() == pre.scopes@.len()
                &&& post.scopes@.drop_last() == pre.scopes@.drop_last()
                &&& names_of(post.scopes@.last().variables@) == vars_after_use(vars, name)
                &&& i > i32::MAX ==> r is Err
                &&& i <= i32::MAX ==> match top_list(pre.stack@) {
                    Some(v) => r is Ok && replaced_top_list(
                        pre.stack@,
                        post.stack@,
                        v.push(Object::I32(i as i32)).push(Object::Word(word)),
                    ),
                    None => r is Err,
                }
            })
    }

    /// `set name` and `get name`: compile storing into, or fetching from, the
    /// local variable of that name in the innermost scope.
    pub fn bi_var(&mut self, word: WordId) -> (r: Result<(), Error>)
        requires
            old(self).wf(),
        ensures
            kept(*old(self), *final(self)),
            old(self).input_tokens@.len() == 0 ==> r == Err::<(), Error>(Error::EndOfInput),
            old(self).input_tokens@.len() > 0 && old(self).scopes@.len() == 0 ==> r is Err,
            old(self).input_tokens@.len() > 0 && old(self).scopes@.len() > 0 ==> {
                let name = old(self).input_tokens@[0]@;
                let vars = names_of(old(self).scopes@.last().variables@);
                let i = storage_index(vars, name);
                &&& final(self).input_tokens@ == old(self).input_tokens@.drop_first()
                &&& final(self).scopes@.len() == old(self).scopes@.len()
                &&& final(self).scopes@.drop_last() == old(self).scopes@.drop_last()
                &&& names_of(final(self).scopes@.last().variables@) == vars_after_use(vars, name)
                &&& i > i32::MAX ==> r is Err
                &&& i <= i32::MAX ==> match top_list(old(self).stack@) {
                    Some(v) => r is Ok && replaced_top_list(
                        old(self).stack@,
                        final(self).stack@,
                        v.push(Object::I32(i as i32)).push(Object::Word(word)),
                    ),
                    None => r is Err,
                }
            },
    {
        let name = match self.next_token() {
            Some(t) => t,
            None => {
                return Err(Error::EndOfInput);
            },
        };
        let ns = self.scopes.len();
        if ns == 0 {
            return Err(Error::RuntimeError(chars_of("no scope")));
        }
        let ghost vars = names_of(self.scopes@[ns - 1].variables@);
        let ghost sc0 = self.scopes@;
        let mut sc = CompilerScope::new();
        std::mem::swap(&mut sc, &mut self.scopes[ns - 1]);
        let i = sc.get_storage_location(name.as_slice());
        std::mem::swap(&mut sc, &mut self.scopes[ns - 1]);
        proof {
            assert(self.scopes@.drop_last() =~= sc0.drop_last());
            if vars.contains(name@) {
                let k = storage_index(vars, name@);
                assert(k == i) by {
                    if k < i {
                        assert(vars[k] == name@);
                    } else if i < k {
                        assert(vars[i as int] == name@);
                    }
                }
            }
        }
        let iv: i32 = if i <= 2147483647 {
            i as i32
        } else {
            return Err(Error::RuntimeError(chars_of("too many variables")));
        };
        self.compile_object(Object::I32(iv))?;
        self.compile_object(Object::Word(word))
    }

    /// What `bi_attr_word` guarantees, as a relation between the state before
    /// and the state after.
    pub open spec fn post_bi_attr_word(pre: State, post: State, r: Result<(), Error>, f: Builtin) -> bool {
        &&& (kept(pre, post))
        &&& (pre.input_tokens@.len() == 0 ==> r == Err::<(), Error>(Error::EndOfInput))
        &&& (pre.input_tokens@.len() > 0 ==> post.input_tokens@ == pre.input_tokens@.drop_first()
                && match top_list(pre.stack@) {
                Some(v) => r is Ok && post.stack@.len() == pre.stack@.len()
                    && post.stack@.drop_last() == pre.stack@.drop_last()
                    && compiled_attr(post.stack@.last(), v, pre.input_tokens@[0]@, f),
                None => r is Err,
            })
    }

    /// Parsing words that compile a named attribute access: the name, then
    /// the native function that uses it.
    pub fn bi_attr_word(&mut self, f: Builtin) -> (r: Result<(), Error>)
        requires
            old(self).wf(),
        ensures
            kept(*old(self), *final(self)),
            old(self).input_tokens@.len() == 0 ==> r == Err::<(), Error>(Error::EndOfInput),
            old(self).input_tokens@.len() > 0 ==> final(self).input_tokens@ == old(self).input_tokens@.drop_first()
                && match top_list(old(self).stack@) {
                Some(v) => r is Ok && final(self).stack@.len() == old(self).stack@.len()
                    && final(self).stack@.drop_last() == old(self).stack@.drop_last()
                    && compiled_attr(final(self).stack@.last(), v, old(self).input_tokens@[0]@, f),
                None => r is Err,
            },
    {
        let name = match self.next_token() {
            Some(t) => t,
            None => {
                return Err(Error::EndOfInput);
            },
        };
        let n = self.factory.get_string(name.as_slice());
        let ghost ns = n@;
        self.compile_object(Object::String(n))?;
        let ghost mid = self.stack@.last();
        self.compile_object(Object::Function(Callable::new_const(f)))?;
        proof {
            let v = top_list(old(self).stack@)->Some_0;
            match self.stack@.last() {
                Object::List(w) => {
                    match mid {
                        Object::List(u) => {
                            assert(u@.len() == v.len() + 1);
                            assert(w@ == u@.push(Object::Function(Callable::Const(f))));
                            assert(w@.subrange(0, v.len() as int) =~= v);
                        },
                        _ => {},
                    }
                },
                _ => {},
            }
        }
        Ok(())
    }

    /// What `bi_push_none` guarantees, as a relation between the state before
    /// and the state after.
    pub open spec fn post_bi_push_none(pre: State, post: State, r: Result<(), Error>) -> bool {
        &&& (kept(pre, post))
        &&& (match top_list(pre.stack@) {
                Some(v) => r is Ok && replaced_top_list(pre.stack@, post.stack@, v.push(Object::Nil)),
                None => r is Err,
            })
    }

    /// `None`: compiles the value `None`.
    pub fn bi_push_none(&mut self) -> (r: Result<(), Error>)
        requires
            old(self).wf(),
        ensures
            kept(*old(self), *final(self)),
            match top_list(old(self).stack@) {
                Some(v) => r is Ok && replaced_top_list(old(self).stack@, final(self).stack@, v.push(Object::Nil)),
                None => r is Err,
            },
    {
        self.compile_object(Object::Nil)
    }

    /// What `bi_same` guarantees, as a relation between the state before
    /// and the state after.
    pub open spec fn post_bi_same(pre: State, post: State, r: Result<(), Error>) -> bool {
        &&& (kept(pre, post))
        &&& (pre.stack@.len() >= 2 ==> r is Ok && stack_view(post.stack@) == stack_view(
                pre.stack@.drop_last().drop_last(),
            ).push(
                if view_obj(pre.stack@.last()) == view_obj(pre.stack@[pre.stack@.len() - 2]) {
                    OView::True
                } else {
                    OView::False
                },
            ))
    }

    /// `same? (a b -- ?)`: whether the two top values are the same.
    pub fn bi_same(&mut self) -> (r: Result<(), Error>)
        requires
            old(self).wf(),
        ensures
            kept(*old(self), *final(self)),
            old(self).stack@.len() >= 2 ==> r is Ok && stack_view(final(self).stack@) == stack_view(
                old(self).stack@.drop_last().drop_last(),
            ).push(
                if view_obj(old(self).stack@.last()) == view_obj(old(self).stack@[old(self).stack@.len() - 2]) {
                    OView::True
                } else {
                    OView::False
                },
            ),
    {
        let ghost s0 = self.stack@;
        let b = self.pop()?;
        let a = self.pop()?;
        let same = b.is_same(&a);
        self.push(Object::from_bool(same))?;
        proof {
            lemma_view_objs(s0.drop_last().drop_last());
            lemma_view_objs(self.stack@);
            assert(stack_view(self.stack@) =~= stack_view(s0.drop_last().drop_last()).push(
                if view_obj(s0.last()) == view_obj(s0[s0.len() - 2]) {
                    OView::True
                } else {
                    OView::False
                },
            ));
        }
        Ok(())
    }

    /// What `bi_new_table` guarantees, as a relation between the state before
    /// and the state after.
    pub open spec fn post_bi_new_table(pre: State, post: State, r: Result<(), Error>) -> bool {
        &&& (kept(pre, post))
        &&& (r is Ok)
        &&& (post.stack@ == pre.stack@.push(Object::Table(pre.tables@.len() as usize)))
        &&& (post.tables@.len() == pre.tables@.len() + 1)
        &&& (forall|i: int| 0 <= i < pre.tables@.len() ==> post.tables@[i] == pre.tables@[i])
        &&& (post.tables@[pre.tables@.len() as int].attributes@.len() == 0)
        &&& (post.tables@[pre.tables@.len() as int].meta is None)
    }

    /// `{} ( -- t)`: a new table.
    pub fn bi_new_table(&mut self) -> (r: Result<(), Error>)
        requires
            old(self).wf(),
        ensures
            kept(*old(self), *final(self)),
            r is Ok,
            final(self).stack@ == old(self).stack@.push(Object::Table(old(self).tables@.len() as usize)),
            final(self).tables@.len() == old(self).tables@.len() + 1,
            forall|i: int| 0 <= i < old(self).tables@.len() ==> final(self).tables@[i] == old(self).tables@[i],
            final(self).tables@[old(self).tables@.len() as int].attributes@.len() == 0,
            final(self).tables@[old(self).tables@.len() as int].meta is None,
    {
        let t = self.new_table();
        self.push(t)
    }

    /// What `bi_set_metatable` guarantees, as a relation between the state before
    /// and the state after.
    pub open spec fn post_bi_set_metatable(pre: State, post: State, r: Result<(), Error>) -> bool {
        &&& (kept(pre, post))
        &&& (pre.stack@.len() == 0 ==> r is Err)
        &&& (pre.stack@.len() > 0 ==> post.stack@ == pre.stack@.drop_last())
        &&& (pre.stack@.len() >= 2 ==> {
                let s = pre.stack@;
                let meta = match s.last() {
                    Object::Table(m) => Some(Some(m)),
                    Object::Nil => Some(None::<usize>),
                    _ => None,
                };
                match (meta, s[s.len() - 2]) {
                    (Some(mt), Object::Table(t)) => if t < pre.tables@.len() {
                        &&& r is Ok
                        &&& post.tables@.len() == pre.tables@.len()
                        &&& post.tables@[t as int].meta == mt
                        &&& post.tables@[t as int].attributes == pre.tables@[t as int].attributes
                        &&& forall|i: int| 0 <= i < pre.tables@.len() && i != t ==> post.tables@[i] == pre.tables@[i]
                    } else {
                        r matches Err(Error::TypeError(_))
                    },
                    _ => (r matches Err(Error::TypeError(_))) && post.tables == pre.tables,
                }
            })
    }

    /// `set_metatable (t mt -- t')`: sets or, with `None`, clears the meta
    /// table of the table below.
    pub fn bi_set_metatable(&mut self) -> (r: Result<(), Error>)
        requires
            old(self).wf(),
        ensures
            kept(*old(self), *final(self)),
            old(self).stack@.len() == 0 ==> r is Err,
            old(self).stack@.len() > 0 ==> final(self).stack@ == old(self).stack@.drop_last(),
            old(self).stack@.len() >= 2 ==> {
                let s = old(self).stack@;
                let meta = match s.last() {
                    Object::Table(m) => Some(Some(m)),
                    Object::Nil => Some(None::<usize>),
                    _ => None,
                };
                match (meta, s[s.len() - 2]) {
                    (Some(mt), Object::Table(t)) => if t < old(self).tables@.len() {
                        &&& r is Ok
                        &&& final(self).tables@.len() == old(self).tables@.len()
                        &&& final(self).tables@[t as int].meta == mt
                        &&& final(self).tables@[t as int].attributes == old(self).tables@[t as int].attributes
                        &&& forall|i: int| 0 <= i < old(self).tables@.len() && i != t ==> final(self).tables@[i] == old(self).tables@[i]
                    } else {
                        r matches Err(Error::TypeError(_))
                    },
                    _ => (r matches Err(Error::TypeError(_))) && final(self).tables == old(self).tables,
                }
            },
    {
        let mt = self.pop()?;
        let meta = match mt {
            Object::Table(m) => Some(m),
            Object::Nil => None,
            _ => {
                return Err(type_error("meta table must be a table"));
            },
        };
        let t = match self.top()? {
            Object::Table(t) => *t,
            _ => {
                return Err(type_error("can't have a meta table"));
            },
        };
        if t >= self.tables.len() {
            return Err(type_error("no such table"));
        }
        let mut tab = crate::objects::TableImpl::new();
        std::mem::swap(&mut tab, &mut self.tables[t]);
        tab.set_metatable(meta);
        std::mem::swap(&mut tab, &mut self.tables[t]);
        Ok(())
    }

    /// What `bi_get_metatable` guarantees, as a relation between the state before
    /// and the state after.
    pub open spec fn post_bi_get_metatable(pre: State, post: State, r: Result<(), Error>) -> bool {
        &&& (kept(pre, post))
        &&& (post.tables == pre.tables)
        &&& (pre.stack@.len() == 0 ==> r is Err)
        &&& (pre.stack@.len() > 0 ==> r is Ok && post.stack@ == pre.stack@.push(
                match pre.stack@.last() {
                    Object::Table(t) => if t < pre.tables@.len() {
                        match pre.tables@[t as int].meta {
                            Some(m) => Object::Table(m),
                            None => Object::Nil,
                        }
                    } else {
                        Object::Nil
                    },
                    _ => Object::Nil,
                }))
    }

    /// `get_metatable (t -- t mt)`: pushes the meta table, or `None`.
    pub fn bi_get_metatable(&mut self) -> (r: Result<(), Error>)
        requires
            old(self).wf(),
        ensures
            kept(*old(self), *final(self)),
            final(self).tables == old(self).tables,
            old(self).stack@.len() == 0 ==> r is Err,
            old(self).stack@.len() > 0 ==> r is Ok && final(self).stack@ == old(self).stack@.push(
                match old(self).stack@.last() {
                    Object::Table(t) => if t < old(self).tables@.len() {
                        match old(self).tables@[t as int].meta {
                            Some(m) => Object::Table(m),
                            None => Object::Nil,
                        }
                    } else {
                        Object::Nil
                    },
                    _ => Object::Nil,
                }),
    {
        let meta = match self.top()? {
            Object::Table(t) => {
                if *t < self.tables.len() {
                    self.tables[*t].get_metatable()
                } else {
                    None
                }
            },
            _ => None,
        };
        match meta {
            Some(m) => self.push(Object::Table(m)),
            None => self.push(Object::Nil),
        }
    }

    /// Pops a string.
    fn pop_chars(&mut self) -> (r: Result<Vec<char>, Error>)
        requires
            old(self).wf(),
        ensures
            kept(*old(self), *final(self)),
            old(self).stack@.len() == 0 ==> r is Err && final(self).stack@ == old(self).stack@,
            old(self).stack@.len() > 0 ==> final(self).stack@ == old(self).stack@.drop_last() && match old(self).stack@.last() {
                Object::String(st) => r matches Ok(t) && t@ == st@,
                _ => r is Err,
            },
            final(self).tables == old(self).tables,
            final(self).frames == old(self).frames,
    {
        let o = self.pop()?;
        o.try_into_rc_string()
    }

    /// What `bi_set_attr_named` guarantees, as a relation between the state before
    /// and the state after.
    pub open spec fn post_bi_set_attr_named(pre: State, post: State, r: Result<(), Error>) -> bool {
        &&& (kept(pre, post))
        &&& (pre.stack@.len() >= 3 ==> {
                let s = pre.stack@;
                match (s.last(), s[s.len() - 3]) {
                    (Object::String(name), Object::Table(t)) => if t < pre.tables@.len() {
                        &&& r is Ok
                        &&& post.stack@ == s.drop_last().drop_last()
                        &&& post.tables@.len() == pre.tables@.len()
                        &&& attrs_set(pre.tables@[t as int].attributes@, post.tables@[t as int].attributes@, name@, s[s.len() - 2])
                        &&& forall|i: int| 0 <= i < pre.tables@.len() && i != t ==> post.tables@[i] == pre.tables@[i]
                    } else {
                        r is Err
                    },
                    _ => r is Err,
                }
            })
    }

    /// `(obj val name -- obj')`: sets the named attribute of the table.
    pub fn bi_set_attr_named(&mut self) -> (r: Result<(), Error>)
        requires
            old(self).wf(),
        ensures
            kept(*old(self), *final(self)),
            old(self).stack@.len() >= 3 ==> {
                let s = old(self).stack@;
                match (s.last(), s[s.len() - 3]) {
                    (Object::String(name), Object::Table(t)) => if t < old(self).tables@.len() {
                        &&& r is Ok
                        &&& final(self).stack@ == s.drop_last().drop_last()
                        &&& final(self).tables@.len() == old(self).tables@.len()
                        &&& attrs_set(old(self).tables@[t as int].attributes@, final(self).tables@[t as int].attributes@, name@, s[s.len() - 2])
                        &&& forall|i: int| 0 <= i < old(self).tables@.len() && i != t ==> final(self).tables@[i] == old(self).tables@[i]
                    } else {
                        r is Err
                    },
                    _ => r is Err,
                }
            },
    {
        let ghost s0 = self.stack@;
        let name = self.pop_chars()?;
        let value = self.pop()?;
        proof {
            if s0.len() >= 3 {
                assert(value == s0[s0.len() - 2]);
                assert(self.stack@ == s0.drop_last().drop_last());
                assert(self.stack@.last() == s0[s0.len() - 3]);
            }
        }
        let t = match self.top()? {
            Object::Table(t) => *t,
            _ => {
                return Err(type_error("set attribute not implemented"));
            },
        };
        self.table_set_attr(t, name.as_slice(), value)
    }

    /// What `bi_get_attr_raw_named` guarantees, as a relation between the state before
    /// and the state after.
    pub open spec fn post_bi_get_attr_raw_named(pre: State, post: State, r: Result<(), Error>) -> bool {
        &&& (kept(pre, post))
        &&& (post.tables == pre.tables)
        &&& (pre.stack@.len() >= 2 ==> {
                let s = pre.stack@;
                match (s.last(), s[s.len() - 2]) {
                    (Object::String(name), Object::Table(t)) => if t < pre.tables@.len() {
                        match attr_lookup(pre.tables@[t as int].attributes@, name@) {
                            Some(v) => r is Ok && stack_view(post.stack@) == stack_view(s.drop_last()).push(v@),
                            None => r is Err,
                        }
                    } else {
                        r is Err
                    },
                    (Object::String(_), _) => r is Err,
                    _ => r is Err,
                }
            })
    }

    /// `(obj name -- obj val)`: pushes the named attribute of the table.
    pub fn bi_get_attr_raw_named(&mut self) -> (r: Result<(), Error>)
        requires
            old(self).wf(),
        ensures
            kept(*old(self), *final(self)),
            final(self).tables == old(self).tables,
            old(self).stack@.len() >= 2 ==> {
                let s = old(self).stack@;
                match (s.last(), s[s.len() - 2]) {
                    (Object::String(name), Object::Table(t)) => if t < old(self).tables@.len() {
                        match attr_lookup(old(self).tables@[t as int].attributes@, name@) {
                            Some(v) => r is Ok && stack_view(final(self).stack@) == stack_view(s.drop_last()).push(v@),
                            None => r is Err,
                        }
                    } else {
                        r is Err
                    },
                    (Object::String(_), _) => r is Err,
                    _ => r is Err,
                }
            },
    {
        let name = self.pop_chars()?;
        let value = match self.top()? {
            Object::Table(t) => self.table_get_attr(*t, name.as_slice()),
            _ => None,
        };
        match value {
            Some(v) => {
                let ghost s1 = self.stack@;
                self.push(v)?;
                assert(self.stack@.subrange(0, self.stack@.len() - 1) =~= s1);
                Ok(())
            },
            None => Err(Error::AttributeError(name)),
        }
    }

    /// What `bi_has_attr_named` guarantees, as a relation between the state before
    /// and the state after.
    pub open spec fn post_bi_has_attr_named(pre: State, post: State, r: Result<(), Error>) -> bool {
        &&& (kept(pre, post))
        &&& (post.tables == pre.tables)
        &&& (pre.stack@.len() >= 2 ==> {
                let s = pre.stack@;
                match s.last() {
                    Object::String(name) => r is Ok && post.stack@ == s.drop_last().push(
                        match s[s.len() - 2] {
                            Object::Table(t) => if t < pre.tables@.len()
                                && attr_lookup(pre.tables@[t as int].attributes@, name@) is Some {
                                Object::True
                            } else {
                                Object::False
                            },
                            _ => Object::False,
                        }),
                    _ => r is Err,
                }
            })
    }

    /// `(obj name -- obj ?)`: whether the table has the named attribute.
    pub fn bi_has_attr_named(&mut self) -> (r: Result<(), Error>)
        requires
            old(self).wf(),
        ensures
            kept(*old(self), *final(self)),
            final(self).tables == old(self).tables,
            old(self).stack@.len() >= 2 ==> {
                let s = old(self).stack@;
                match s.last() {
                    Object::String(name) => r is Ok && final(self).stack@ == s.drop_last().push(
                        match s[s.len() - 2] {
                            Object::Table(t) => if t < old(self).tables@.len()
                                && attr_lookup(old(self).tables@[t as int].attributes@, name@) is Some {
                                Object::True
                            } else {
                                Object::False
                            },
                            _ => Object::False,
                        }),
                    _ => r is Err,
                }
            },
    {
        let name = self.pop_chars()?;
        let has = match self.top()? {
            Object::Table(t) => self.table_get_attr(*t, name.as_slice()).is_some(),
            _ => false,
        };
        self.push(Object::from_bool(has))
    }

    /// What `bi_str_to_list` guarantees, as a relation between the state before
    /// and the state after.
    pub open spec fn post_bi_str_to_list(pre: State, post: State, r: Result<(), Error>) -> bool {
        &&& (kept(pre, post))
        &&& (pre.stack@.len() == 0 ==> r is Err)
        &&& (pre.stack@.len() > 0 ==> match pre.stack@.last() {
                Object::String(st) => r is Ok && post.stack@.len() == pre.stack@.len()
                    && post.stack@.drop_last() == pre.stack@.drop_last()
                    && char_strings(post.stack@.last(), st@),
                _ => r is Err,
            })
    }

    /// `str-to-list (s -- l)`: the characters of a string as strings.
    pub fn bi_str_to_list(&mut self) -> (r: Result<(), Error>)
        requires
            old(self).wf(),
        ensures
            kept(*old(self), *final(self)),
            old(self).stack@.len() == 0 ==> r is Err,
            old(self).stack@.len() > 0 ==> match old(self).stack@.last() {
                Object::String(st) => r is Ok && final(self).stack@.len() == old(self).stack@.len()
                    && final(self).stack@.drop_last() == old(self).stack@.drop_last()
                    && char_strings(final(self).stack@.last(), st@),
                _ => r is Err,
            },
    {
        let s = self.pop_chars()?;
        let mut list: Vec<Object> = Vec::new();
        let mut i: usize = 0;
        while i < s.len()
            invariant
                i <= s@.len(),
                kept(*old(self), *self),
                self.stack@ == old(self).stack@.drop_last(),
                list@.len() == i,
                forall|k: int| 0 <= k < i ==> is_char_string(#[trigger] list@[k], s@[k]),
            decreases s@.len() - i,
        {
            let mut c: Vec<char> = Vec::new();
            c.push(s[i]);
            let st = self.factory.get_string(c.as_slice());
            assert(st@ =~= seq![s@[i as int]]);
            list.push(Object::String(st));
            i = i + 1;
        }
        let ghost s1 = self.stack@;
        assert(list@.len() == s@.len());
        self.push(Object::List(list))?;
        assert(self.stack@.drop_last() =~= s1);
        Ok(())
    }

    /// What `bi_list_make` guarantees, as a relation between the state before
    /// and the state after.
    pub open spec fn post_bi_list_make(pre: State, post: State, r: Result<(), Error>) -> bool {
        &&& (kept(pre, post))
        &&& (!top_is_i32(pre.stack@) ==> r is Err)
        &&& (top_is_i32(pre.stack@) ==> {
                let s = pre.stack@.drop_last();
                let n = pre.stack@.last()->I32_0;
                let k = if n < 0 { 0 } else { n as int };
                if k <= s.len() {
                    r is Ok && post.stack@.len() == s.len() - k + 1
                        && post.stack@.drop_last() == s.subrange(0, s.len() - k)
                        && holds_list(post.stack@.last(), s.subrange(s.len() - k, s.len() as int))
                } else {
                    r == Err::<(), Error>(Error::StackUnderflow)
                }
            })
    }

    /// `list-make (* n -- l)`: a list of the `n` values under the count,
    /// bottom first; none when `n` is not positive.
    pub fn bi_list_make(&mut self) -> (r: Result<(), Error>)
        requires
            old(self).wf(),
        ensures
            kept(*old(self), *final(self)),
            !top_is_i32(old(self).stack@) ==> r is Err,
            top_is_i32(old(self).stack@) ==> {
                let s = old(self).stack@.drop_last();
                let n = old(self).stack@.last()->I32_0;
                let k = if n < 0 { 0 } else { n as int };
                if k <= s.len() {
                    r is Ok && final(self).stack@.len() == s.len() - k + 1
                        && final(self).stack@.drop_last() == s.subrange(0, s.len() - k)
                        && holds_list(final(self).stack@.last(), s.subrange(s.len() - k, s.len() as int))
                } else {
                    r == Err::<(), Error>(Error::StackUnderflow)
                }
            },
    {
        let n = self.pop_i32()?;
        let ghost s = self.stack@;
        let ghost k: int = if n < 0 { 0 } else { n as int };
        assert(top_is_i32(old(self).stack@));
        let mut rev: Vec<Object> = Vec::new();
        let mut i: i32 = 0;
        while i < n
            invariant
                self.wf(),
                self.budget == old(self).budget,
                kept(*old(self), *self),
                0 <= i,
                n >= 0 ==> i <= n,
                n < 0 ==> i == 0,
                k == (if n < 0 { 0int } else { n as int }),
                old(self).stack@.len() > 0,
                s == old(self).stack@.drop_last(),
                old(self).stack@.last() == Object::I32(n),
                i <= s.len(),
                self.stack@ == s.subrange(0, s.len() - i),
                rev@.len() == i,
                forall|j: int| 0 <= j < i ==> rev@[j] == s[s.len() - 1 - j],
            decreases n - i,
        {
            if self.stack.len() == 0 {
                assert(k > s.len());
                return Err(Error::StackUnderflow);
            }
            let x = self.pop()?;
            rev.push(x);
            i = i + 1;
        }
        let ghost rv = rev@;
        let mut list: Vec<Object> = Vec::new();
        while rev.len() > 0
            invariant
                list@.len() + rev@.len() == rv.len(),
                rev@ == rv.subrange(0, rev@.len() as int),
                forall|j: int| 0 <= j < list@.len() ==> list@[j] == rv[rv.len() - 1 - j],
            decreases rev@.len(),
        {
            let x = rev.pop().unwrap();
            list.push(x);
        }
        assert(list@ =~= s.subrange(s.len() - k, s.len() as int));
        let ghost s1 = self.stack@;
        self.push(Object::List(list))?;
        assert(self.stack@.drop_last() =~= s1);
        Ok(())
    }

    /// What `bi_list_destructure` guarantees, as a relation between the state before
    /// and the state after.
    pub open spec fn post_bi_list_destructure(pre: State, post: State, r: Result<(), Error>) -> bool {
        &&& (kept(pre, post))
        &&& (match top_list(pre.stack@) {
                Some(v) => r is Ok && post.stack@ == pre.stack@.drop_last() + v + seq![Object::I32(v.len() as i32)],
                None => r is Err,
            })
    }

    /// `list-destructure (l -- * n)`: the elements of a list, then their
    /// number.
    pub fn bi_list_destructure(&mut self) -> (r: Result<(), Error>)
        requires
            old(self).wf(),
        ensures
            kept(*old(self), *final(self)),
            match top_list(old(self).stack@) {
                Some(v) => r is Ok && final(self).stack@ == old(self).stack@.drop_last() + v + seq![Object::I32(v.len() as i32)],
                None => r is Err,
            },
    {
        let l = self.pop()?;
        let v = l.into_rc_vec()?;
        let ghost v0 = v@;
        let ghost s = self.stack@;
        let n = v.len();
        let mut rev: Vec<Object> = Vec::new();
        let mut v = v;
        while v.len() > 0
            invariant
                rev@.len() + v@.len() == v0.len(),
                v@ == v0.subrange(0, v@.len() as int),
                forall|j: int| 0 <= j < rev@.len() ==> rev@[j] == v0[v0.len() - 1 - j],
            decreases v@.len(),
        {
            let x = v.pop().unwrap();
            rev.push(x);
        }
        let ghost rv = rev@;
        while rev.len() > 0
            invariant
                self.wf(),
                self.budget == old(self).budget,
                kept(*old(self), *self),
                rev@.len() <= rv.len(),
                rev@ == rv.subrange(0, rev@.len() as int),
                rv.len() == v0.len(),
                forall|j: int| 0 <= j < rv.len() ==> rv[j] == v0[v0.len() - 1 - j],
                self.stack@ == s + v0.subrange(0, v0.len() - rev@.len()),
            decreases rev@.len(),
        {
            let ghost before = self.stack@;
            let x = rev.pop().unwrap();
            self.push(x)?;
            assert(self.stack@ =~= s + v0.subrange(0, v0.len() - rev@.len()));
        }
        #[verifier::truncate]
        let ni = n as i32;
        self.push(Object::I32(ni))?;
        assert(self.stack@ =~= s + v0 + seq![Object::I32(v0.len() as i32)]);
        Ok(())
    }

    /// The list on top of the stack, taken off for a change in place; an
    /// empty list stands in its place meanwhile.
    fn take_top_list(&mut self) -> (r: Result<Vec<Object>, Error>)
        requires
            old(self).wf(),
        ensures
            kept(*old(self), *final(self)),
            match top_list(old(self).stack@) {
                Some(v) => r matches Ok(w) && w@ == v
                    && final(self).stack@.len() == old(self).stack@.len()
                    && final(self).stack@.drop_last() == old(self).stack@.drop_last(),
                None => r is Err && final(self).stack@ == old(self).stack@,
            },
    {
        let top = self.top_mut()?;
        let v = top.as_vec_mut()?;
        let mut out: Vec<Object> = Vec::new();
        std::mem::swap(&mut out, v);
        Ok(out)
    }

    /// Puts a list back on top of the stack.
    fn put_top_list(&mut self, list: Vec<Object>)
        requires
            old(self).wf(),
            old(self).stack@.len() > 0,
        ensures
            kept(*old(self), *final(self)),
            final(self).stack@ == old(self).stack@.update(old(self).stack@.len() - 1, Object::List(list)),
            final(self).stack@.len() == old(self).stack@.len(),
            final(self).stack@.drop_last() == old(self).stack@.drop_last(),
            final(self).stack@.last() == Object::List(list),
    {
        let n = self.stack.len();
        self.stack.set(n - 1, Object::List(list));
        assert(self.stack@.drop_last() =~= old(self).stack@.drop_last());
    }

    /// What `bi_list_reverse` guarantees, as a relation between the state before
    /// and the state after.
    pub open spec fn post_bi_list_reverse(pre: State, post: State, r: Result<(), Error>) -> bool {
        &&& (kept(pre, post))
        &&& (match top_list(pre.stack@) {
                Some(v) => r is Ok && replaced_top_list(pre.stack@, post.stack@, v.reverse()),
                None => r is Err && post.stack@ == pre.stack@,
            })
    }

    /// `list-reverse (l -- l')`.
    pub fn bi_list_reverse(&mut self) -> (r: Result<(), Error>)
        requires
            old(self).wf(),
        ensures
            kept(*old(self), *final(self)),
            match top_list(old(self).stack@) {
                Some(v) => r is Ok && replaced_top_list(old(self).stack@, final(self).stack@, v.reverse()),
                None => r is Err && final(self).stack@ == old(self).stack@,
            },
    {
        let mut v = self.take_top_list()?;
        let ghost v0 = v@;
        let mut out: Vec<Object> = Vec::new();
        while v.len() > 0
            invariant
                out@.len() + v@.len() == v0.len(),
                v@ == v0.subrange(0, v@.len() as int),
                forall|j: int| 0 <= j < out@.len() ==> out@[j] == v0[v0.len() - 1 - j],
            decreases v@.len(),
        {
            let x = v.pop().unwrap();
            out.push(x);
        }
        assert(out@ =~= v0.reverse());
        self.put_top_list(out);
        Ok(())
    }

    /// What `bi_list_empty` guarantees, as a relation between the state before
    /// and the state after.
    pub open spec fn post_bi_list_empty(pre: State, post: State, r: Result<(), Error>) -> bool {
        &&& (kept(pre, post))
        &&& (match top_list(pre.stack@) {
                Some(v) => r is Ok && post.stack@ == pre.stack@.push(
                    if v.len() == 0 { Object::True } else { Object::False }),
                None => r is Err && post.stack@ == pre.stack@,
            })
    }

    /// `list-empty? (l -- l ?)`.
    pub fn bi_list_empty(&mut self) -> (r: Result<(), Error>)
        requires
            old(self).wf(),
        ensures
            kept(*old(self), *final(self)),
            match top_list(old(self).stack@) {
                Some(v) => r is Ok && final(self).stack@ == old(self).stack@.push(
                    if v.len() == 0 { Object::True } else { Object::False }),
                None => r is Err && final(self).stack@ == old(self).stack@,
            },
    {
        let empty = self.top()?.as_slice()?.len() == 0;
        self.push(Object::from_bool(empty))
    }

    /// What `bi_list_len` guarantees, as a relation between the state before
    /// and the state after.
    pub open spec fn post_bi_list_len(pre: State, post: State, r: Result<(), Error>) -> bool {
        &&& (kept(pre, post))
        &&& (match top_list(pre.stack@) {
                Some(v) => r is Ok && post.stack@ == pre.stack@.push(Object::I32(v.len() as i32)),
                None => r is Err && post.stack@ == pre.stack@,
            })
    }

    /// `list-len (l -- l n)`.
    pub fn bi_list_len(&mut self) -> (r: Result<(), Error>)
        requires
            old(self).wf(),
        ensures
            kept(*old(self), *final(self)),
            match top_list(old(self).stack@) {
                Some(v) => r is Ok && final(self).stack@ == old(self).stack@.push(Object::I32(v.len() as i32)),
                None => r is Err && final(self).stack@ == old(self).stack@,
            },
    {
        let n = self.top()?.as_slice()?.len();
        #[verifier::truncate]
        let ni = n as i32;
        self.push(Object::I32(ni))
    }

    /// What `bi_list_get` guarantees, as a relation between the state before
    /// and the state after.
    pub open spec fn post_bi_list_get(pre: State, post: State, r: Result<(), Error>) -> bool {
        &&& (kept(pre, post))
        &&& (!top_is_i32(pre.stack@) ==> r is Err)
        &&& (top_is_i32(pre.stack@) && top_list(pre.stack@.drop_last()) is None ==> r is Err)
        &&& (top_is_i32(pre.stack@) ==> match top_list(pre.stack@.drop_last()) {
                Some(v) => {
                    let i = pre.stack@.last()->I32_0;
                    if 0 <= i < v.len() {
                        r is Ok && stack_view(post.stack@)
                            == stack_view(pre.stack@.drop_last()).push(view_obj(v[i as int]))
                    } else {
                        r == Err::<(), Error>(Error::IndexError(i as usize, v.len() as usize))
                    }
                },
                None => true,
            })
    }

    /// `list-get (l i -- l x)`: the element at index `i`, which must be
    /// in range.
    pub fn bi_list_get(&mut self) -> (r: Result<(), Error>)
        requires
            old(self).wf(),
        ensures
            kept(*old(self), *final(self)),
            !top_is_i32(old(self).stack@) ==> r is Err,
            top_is_i32(old(self).stack@) && top_list(old(self).stack@.drop_last()) is None ==> r is Err,
            top_is_i32(old(self).stack@) ==> match top_list(old(self).stack@.drop_last()) {
                Some(v) => {
                    let i = old(self).stack@.last()->I32_0;
                    if 0 <= i < v.len() {
                        r is Ok && stack_view(final(self).stack@)
                            == stack_view(old(self).stack@.drop_last()).push(view_obj(v[i as int]))
                    } else {
                        r == Err::<(), Error>(Error::IndexError(i as usize, v.len() as usize))
                    }
                },
                None => true,
            },
    {
        let ghost s0 = self.stack@;
        let i = self.pop_i32()?;
        #[verifier::truncate]
        let iu = i as usize;
        proof {
            assert(0 <= i ==> iu == i);
            assert(i < 0 ==> iu as int != i as int);
        }
        let x = {
            let list = self.top()?.as_slice()?;
            if i >= 0 && iu < list.len() {
                clone_object(&list[iu])
            } else {
                return Err(Error::IndexError(iu, list.len()));
            }
        };
        let ghost s1 = self.stack@;
        self.push(x)?;
        assert(self.stack@.subrange(0, self.stack@.len() - 1) =~= s1);
        Ok(())
    }

    /// What `bi_list_set` guarantees, as a relation between the state before
    /// and the state after.
    pub open spec fn post_bi_list_set(pre: State, post: State, r: Result<(), Error>) -> bool {
        &&& (kept(pre, post))
        &&& (!top_is_i32(pre.stack@) ==> r is Err)
        &&& (top_is_i32(pre.stack@) && pre.stack@.len() >= 2
                && top_list(pre.stack@.drop_last().drop_last()) is Some ==> {
                let s = pre.stack@;
                let i = s.last()->I32_0;
                let x = s[s.len() - 2];
                let v = top_list(s.drop_last().drop_last())->Some_0;
                if 0 <= i < v.len() {
                    r is Ok && replaced_top_list(s.drop_last().drop_last(), post.stack@, v.update(i as int, x))
                } else {
                    r == Err::<(), Error>(Error::IndexError(i as usize, v.len() as usize))
                        && replaced_top_list(s.drop_last().drop_last(), post.stack@, v)
                }
            })
    }

    /// `list-set (l x i -- l')`: puts `x` at index `i`, which must be in
    /// range; the index is on top.
    pub fn bi_list_set(&mut self) -> (r: Result<(), Error>)
        requires
            old(self).wf(),
        ensures
            kept(*old(self), *final(self)),
            !top_is_i32(old(self).stack@) ==> r is Err,
            top_is_i32(old(self).stack@) && old(self).stack@.len() >= 2
                && top_list(old(self).stack@.drop_last().drop_last()) is Some ==> {
                let s = old(self).stack@;
                let i = s.last()->I32_0;
                let x = s[s.len() - 2];
                let v = top_list(s.drop_last().drop_last())->Some_0;
                if 0 <= i < v.len() {
                    r is Ok && replaced_top_list(s.drop_last().drop_last(), final(self).stack@, v.update(i as int, x))
                } else {
                    r == Err::<(), Error>(Error::IndexError(i as usize, v.len() as usize))
                        && replaced_top_list(s.drop_last().drop_last(), final(self).stack@, v)
                }
            },
    {
        let i = self.pop_i32()?;
        #[verifier::truncate]
        let iu = i as usize;
        proof {
            assert(0 <= i ==> iu == i);
        }
        let x = self.pop()?;
        let mut v = self.take_top_list()?;
        let ghost v0 = v@;
        let len = v.len();
        let res = if i >= 0 && iu < len {
            v.set(iu, x);
            Ok(())
        } else {
            Err(Error::IndexError(iu, len))
        };
        self.put_top_list(v);
        res
    }

    /// What `bi_pop_back` guarantees, as a relation between the state before
    /// and the state after.
    pub open spec fn post_bi_pop_back(pre: State, post: State, r: Result<(), Error>) -> bool {
        &&& (kept(pre, post))
        &&& (match top_list(pre.stack@) {
                Some(v) => if v.len() > 0 {
                    r is Ok && post.stack@.len() == pre.stack@.len() + 1
                        && post.stack@.last() == v.last()
                        && replaced_top_list(pre.stack@, post.stack@.drop_last(), v.drop_last())
                } else {
                    r == Err::<(), Error>(Error::IndexError(0, 0)) && replaced_top_list(pre.stack@, post.stack@, v)
                },
                None => r is Err && post.stack@ == pre.stack@,
            })
    }

    /// `pop-back (l -- l' x)`: the last element, taken out.
    pub fn bi_pop_back(&mut self) -> (r: Result<(), Error>)
        requires
            old(self).wf(),
        ensures
            kept(*old(self), *final(self)),
            match top_list(old(self).stack@) {
                Some(v) => if v.len() > 0 {
                    r is Ok && final(self).stack@.len() == old(self).stack@.len() + 1
                        && final(self).stack@.last() == v.last()
                        && replaced_top_list(old(self).stack@, final(self).stack@.drop_last(), v.drop_last())
                } else {
                    r == Err::<(), Error>(Error::IndexError(0, 0)) && replaced_top_list(old(self).stack@, final(self).stack@, v)
                },
                None => r is Err && final(self).stack@ == old(self).stack@,
            },
    {
        let mut v = self.take_top_list()?;
        let ghost v0 = v@;
        let x = v.pop();
        self.put_top_list(v);
        match x {
            Some(x) => {
                let ghost s1 = self.stack@;
                self.push(x)?;
                assert(self.stack@.drop_last() =~= s1);
                Ok(())
            },
            None => {
                assert(v@ =~= v0);
                Err(Error::IndexError(0, 0))
            },
        }
    }

    /// What `bi_pop_front` guarantees, as a relation between the state before
    /// and the state after.
    pub open spec fn post_bi_pop_front(pre: State, post: State, r: Result<(), Error>) -> bool {
        &&& (kept(pre, post))
        &&& (match top_list(pre.stack@) {
                Some(v) => if v.len() > 0 {
                    r is Ok && post.stack@.len() == pre.stack@.len() + 1
                        && post.stack@.last() == v[0]
                        && replaced_top_list(pre.stack@, post.stack@.drop_last(), v.drop_first())
                } else {
                    r == Err::<(), Error>(Error::IndexError(0, 0)) && replaced_top_list(pre.stack@, post.stack@, v)
                },
                None => r is Err && post.stack@ == pre.stack@,
            })
    }

    /// `pop-front (l -- l' x)`: the first element, taken out.
    pub fn bi_pop_front(&mut self) -> (r: Result<(), Error>)
        requires
            old(self).wf(),
        ensures
            kept(*old(self), *final(self)),
            match top_list(old(self).stack@) {
                Some(v) => if v.len() > 0 {
                    r is Ok && final(self).stack@.len() == old(self).stack@.len() + 1
                        && final(self).stack@.last() == v[0]
                        && replaced_top_list(old(self).stack@, final(self).stack@.drop_last(), v.drop_first())
                } else {
                    r == Err::<(), Error>(Error::IndexError(0, 0)) && replaced_top_list(old(self).stack@, final(self).stack@, v)
                },
                None => r is Err && final(self).stack@ == old(self).stack@,
            },
    {
        let mut v = self.take_top_list()?;
        if v.len() == 0 {
            self.put_top_list(v);
            return Err(Error::IndexError(0, 0));
        }
        let ghost v0 = v@;
        let x = v.remove(0);
        assert(v@ =~= v0.drop_first());
        self.put_top_list(v);
        let ghost s1 = self.stack@;
        self.push(x)?;
        assert(self.stack@.drop_last() =~= s1);
        Ok(())
    }

    /// What `bi_push_back` guarantees, as a relation between the state before
    /// and the state after.
    pub open spec fn post_bi_push_back(pre: State, post: State, r: Result<(), Error>) -> bool {
        &&& (kept(pre, post))
        &&& (pre.stack@.len() == 0 ==> r is Err)
        &&& (pre.stack@.len() > 0 ==> match top_list(pre.stack@.drop_last()) {
                Some(v) => r is Ok && replaced_top_list(pre.stack@.drop_last(), post.stack@, v.push(pre.stack@.last())),
                None => r is Err && post.stack@ == pre.stack@.drop_last(),
            })
    }

    /// `push-back (l x -- l')`: appends `x`.
    pub fn bi_push_back(&mut self) -> (r: Result<(), Error>)
        requires
            old(self).wf(),
        ensures
            kept(*old(self), *final(self)),
            old(self).stack@.len() == 0 ==> r is Err,
            old(self).stack@.len() > 0 ==> match top_list(old(self).stack@.drop_last()) {
                Some(v) => r is Ok && replaced_top_list(old(self).stack@.drop_last(), final(self).stack@, v.push(old(self).stack@.last())),
                None => r is Err && final(self).stack@ == old(self).stack@.drop_last(),
            },
    {
        let x = self.pop()?;
        let mut v = self.take_top_list()?;
        v.push(x);
        self.put_top_list(v);
        Ok(())
    }

    /// What `bi_push_front` guarantees, as a relation between the state before
    /// and the state after.
    pub open spec fn post_bi_push_front(pre: State, post: State, r: Result<(), Error>) -> bool {
        &&& (kept(pre, post))
        &&& (pre.stack@.len() == 0 ==> r is Err)
        &&& (pre.stack@.len() > 0 ==> match top_list(pre.stack@.drop_last()) {
                Some(v) => r is Ok && replaced_top_list(pre.stack@.drop_last(), post.stack@, v.insert(0, pre.stack@.last())),
                None => r is Err && post.stack@ == pre.stack@.drop_last(),
            })
    }

    /// `push-front (l x -- l')`: puts `x` first.
    pub fn bi_push_front(&mut self) -> (r: Result<(), Error>)
        requires
            old(self).wf(),
        ensures
            kept(*old(self), *final(self)),
            old(self).stack@.len() == 0 ==> r is Err,
            old(self).stack@.len() > 0 ==> match top_list(old(self).stack@.drop_last()) {
                Some(v) => r is Ok && replaced_top_list(old(self).stack@.drop_last(), final(self).stack@, v.insert(0, old(self).stack@.last())),
                None => r is Err && final(self).stack@ == old(self).stack@.drop_last(),
            },
    {
        let x = self.pop()?;
        let mut v = self.take_top_list()?;
        v.insert(0, x);
        self.put_top_list(v);
        Ok(())
    }
}

/// The elements of the list on top of the stack, if the top is a list.
pub open spec fn top_list(s: Seq<Object>) -> Option<Seq<Object>> {
    if s.len() > 0 {
        match s.last() {
            Object::List(v) => Some(v@),
            _ => None,
        }
    } else {
        None
    }
}

/// Whether `o` is the list `v` with the name `name` and the native
/// function `f` appended.
pub open spec fn compiled_attr(o: Object, v: Seq<Object>, name: Seq<char>, f: Builtin) -> bool {
    match o {
        Object::List(w) => {
            &&& w@.len() == v.len() + 2
            &&& w@.subrange(0, v.len() as int) == v
            &&& (w@[v.len() as int] matches Object::String(n) && n@ == name)
            &&& w@[v.len() + 1int] == Object::Function(Callable::Const(f))
        },
        _ => false,
    }
}

/// Whether `o` is the string of the one character `c`.
pub open spec fn is_char_string(o: Object, c: char) -> bool {
    match o {
        Object::String(t) => t@ == seq![c],
        _ => false,
    }
}

/// Whether `o` is a list of the characters of `st`, each as a string.
pub open spec fn char_strings(o: Object, st: Seq<char>) -> bool {
    match o {
        Object::List(w) => w@.len() == st.len() && forall|k: int| 0 <= k < st.len() ==> is_char_string(#[trigger] w@[k], st[k]),
        _ => false,
    }
}

/// Whether `o` is a list holding `elems`.
pub open spec fn holds_list(o: Object, elems: Seq<Object>) -> bool {
    match o {
        Object::List(w) => w@ == elems,
        _ => false,
    }
}

/// Whether the top of the stack is an integer.
pub open spec fn top_is_i32(s: Seq<Object>) -> bool {
    s.len() > 0 && s.last() is I32
}

/// `after` is `before` with the list on top now holding `elems`.
pub open spec fn replaced_top_list(before: Seq<Object>, after: Seq<Object>, elems: Seq<Object>) -> bool {
    &&& after.len() == before.len()
    &&& after.len() > 0
    &&& after.drop_last() == before.drop_last()
    &&& after.last() matches Object::List(w) && w@ == elems
}


/// `s` padded with spaces on the left to `width` characters.
fn pad_left(s: &[char], width: usize) -> (r: Vec<char>)
    ensures
        r@ == Seq::new(if s@.len() < width { (width - s@.len()) as nat } else { 0 }, |i: int| ' ') + s@,
{
    let mut out: Vec<char> = Vec::new();
    let n = if s.len() < width { width - s.len() } else { 0 };
    let mut i: usize = 0;
    while i < n
        invariant
            i <= n,
            out@ == Seq::new(i as nat, |j: int| ' '),
        decreases n - i,
    {
        out.push(' ');
        assert(out@ =~= Seq::new((i + 1) as nat, |j: int| ' '));
        i = i + 1;
    }
    append_chars(&mut out, s);
    out
}

/// `out` padded with spaces on the right to `width` characters.
fn pad_right(out: &mut Vec<char>, width: usize)
    ensures
        final(out)@ == old(out)@ + Seq::new(if old(out)@.len() < width { (width - old(out)@.len()) as nat } else { 0 }, |i: int| ' '),
{
    let ghost o = out@;
    let n = if out.len() < width { width - out.len() } else { 0 };
    let mut i: usize = 0;
    while i < n
        invariant
            i <= n,
            out@ == o + Seq::new(i as nat, |j: int| ' '),
        decreases n - i,
    {
        out.push(' ');
        assert(out@ =~= o + Seq::new((i + 1) as nat, |j: int| ' '));
        i = i + 1;
    }
}

impl State {
    /// What `bi_print_stack` guarantees, as a relation between the state before
    /// and the state after.
    pub open spec fn post_bi_print_stack(pre: State, post: State, r: Result<(), Error>) -> bool {
        &&& (r is Ok)
        &&& (kept(pre, post))
        &&& (post.stack == pre.stack)
        &&& (post.output@.len() == pre.output@.len() + 1)
    }

    /// `.s ( -- )`: writes the stack, bottom first, as a line of output
    /// such as `[1, "a"]`.
    pub fn bi_print_stack(&mut self) -> (r: Result<(), Error>)
        requires
            old(self).wf(),
        ensures
            r is Ok,
            kept(*old(self), *final(self)),
            final(self).stack == old(self).stack,
            final(self).output@.len() == old(self).output@.len() + 1,
    {
        let mut line: Vec<char> = Vec::new();
        line.push('[');
        let mut i: usize = 0;
        while i < self.stack.len()
            invariant
                i <= self.stack@.len(),
            decreases self.stack@.len() - i,
        {
            if i > 0 {
                line.push(',');
                line.push(' ');
            }
            let t = self.repr_sys(&self.stack[i]);
            append_chars(&mut line, t.as_slice());
            i = i + 1;
        }
        line.push(']');
        self.output.push(line);
        Ok(())
    }

    /// The line that describes a word: its name right-aligned in twenty
    /// columns, then its stack effect and what it runs, or that it is
    /// undefined.
    pub fn format_word(&self, name: &[char]) -> (r: Vec<char>)
        requires
            self.wf(),
        ensures
            mod_lookup(self.modules.mods@, self.current_module.0 as int, name@) is None ==>
                r@ == Seq::new(if name@.len() < 20 { (20 - name@.len()) as nat } else { 0 }, |i: int| ' ') + name@
                    + "  undefined!"@,
    {
        let mut line = pad_left(name, 20);
        match self.lookup(name) {
            Some(w) => {
                if w.0 < self.entries.len() {
                    let e = &self.entries[w.0];
                    let se = e.stack_effect.to_text();
                    let mut field: Vec<char> = Vec::new();
                    field.push('(');
                    let se_chars = chars_of(se.as_str());
                    append_chars(&mut field, se_chars.as_slice());
                    field.push(')');
                    pad_right(&mut field, 50);
                    let sep = chars_of("   ");
                    append_chars(&mut line, sep.as_slice());
                    append_chars(&mut line, field.as_slice());
                    append_chars(&mut line, sep.as_slice());
                    let body = self.repr_sys(e.word.inner());
                    append_chars(&mut line, body.as_slice());
                } else {
                    let u = chars_of("  undefined!");
                    append_chars(&mut line, u.as_slice());
                }
            },
            None => {
                let u = chars_of("  undefined!");
                append_chars(&mut line, u.as_slice());
            },
        }
        line
    }

    /// One line for each name visible in the current module (see
    /// `format_word`), in dictionary order.
    pub fn dictionary_lines(&self) -> (r: Vec<Vec<char>>)
        requires
            self.wf(),
        ensures
            r@.len() == mod_keys(self.modules.mods@, self.current_module.0 as int).len(),
    {
        let keys = self.current_module.keys(&self.modules);
        let sorted = sort_names(&keys);
        proof {
            vstd::seq_lib::to_multiset_len(sorted@.map_values(|t: Vec<char>| t@));
            vstd::seq_lib::to_multiset_len(keys@.map_values(|t: Vec<char>| t@));
        }
        let mut lines: Vec<Vec<char>> = Vec::new();
        let mut i: usize = 0;
        while i < sorted.len()
            invariant
                self.wf(),
                i <= sorted@.len(),
                lines@.len() == i,
            decreases sorted@.len() - i,
        {
            let line = self.format_word(sorted[i].as_slice());
            lines.push(line);
            i = i + 1;
        }
        lines
    }

    /// What `print_dictionary` guarantees, as a relation between the state before
    /// and the state after.
    pub open spec fn post_print_dictionary(pre: State, post: State) -> bool {
        &&& (kept(pre, post))
        &&& (post.stack == pre.stack)
        &&& (post.output@.len() == pre.output@.len()
                + mod_keys(pre.modules.mods@, pre.current_module.0 as int).len())
    }

    /// Writes the lines of `dictionary_lines` to the output.
    pub fn print_dictionary(&mut self)
        requires
            old(self).wf(),
        ensures
            kept(*old(self), *final(self)),
            final(self).stack == old(self).stack,
            final(self).output@.len() == old(self).output@.len()
                + mod_keys(old(self).modules.mods@, old(self).current_module.0 as int).len(),
    {
        let lines = self.dictionary_lines();
        let mut i: usize = 0;
        while i < lines.len()
            invariant
                self.wf(),
                self.budget == old(self).budget,
                self.stack == old(self).stack,
                self.output@.len() == old(self).output@.len() + i,
                i <= lines@.len(),
            decreases lines@.len() - i,
        {
            self.output.push(copy_chars(lines[i].as_slice()));
            i = i + 1;
        }
    }
}

} // verus!
