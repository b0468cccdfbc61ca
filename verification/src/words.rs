//! The word sets of the language, each loaded into an interpreter by a
//! function of its own.
use vstd::prelude::*;
use crate::errors::Error;
use crate::objects::{Object, Opcode, ByteCode, Builtin, WordId};
use crate::state::{State, provides, native, native_parse, parses};
use crate::stack_effect::spec_parse;
use crate::dictionary::Word;
use crate::stack_effect::StackEffect;
use crate::text::chars_of;
use crate::module::{sub_get, mod_lookup};
use crate::parsing::{spec_tokens, skip_ws, word_end, token_end};
use crate::object_factory::spec_literal;
use crate::interp::{unknown_first, unchanged_words};

verus! {

impl State {
    /// Adds a word that pushes a value.
    pub fn add_constant_word(&mut self, name: &str, stack_effect: &str, value: Object) -> (r: Result<WordId, Error>)
        requires
            old(self).wf(),
        ensures
            final(self).wf(),
            final(self).budget == old(self).budget,
            r matches Ok(id) ==> id.0 == old(self).entries@.len() && final(self).entries@[id.0 as int].name@ == name@,
            final(self).stack == old(self).stack,
            r is Ok <==> parses(stack_effect@),
            r matches Err(e) ==> spec_parse(stack_effect@) == Err::<crate::stack_effect::SEffect, Error>(e),
            r matches Ok(id) ==> (old(self).current_module.0 < old(self).modules.mods@.len() ==> mod_lookup(
                final(self).modules.mods@,
                old(self).current_module.0 as int,
                name@,
            ) == Some(id)),
            r matches Ok(id) ==> (final(self).entries@[id.0 as int].word matches Word::Word(Object::ByteCode(bc))
                && bc.ops@ == seq![Opcode::Push(value)]),
    {
        let se = StackEffect::parse(stack_effect)?;
        let mut ops: Vec<Opcode> = Vec::new();
        ops.push(Opcode::Push(value));
        let n = chars_of(name);
        Ok(self.add_compound_word(n.as_slice(), se, Object::ByteCode(ByteCode { ops })))
    }

    /// Leaves a module that a loader entered.
    fn leave_module(&mut self) -> (r: Result<(), Error>)
        requires
            old(self).wf(),
        ensures
            final(self).wf(),
            final(self).budget == old(self).budget,
            final(self).modules == old(self).modules,
            final(self).entries == old(self).entries,
            final(self).stack == old(self).stack,
            old(self).current_module.0 < old(self).modules.mods@.len() && old(self).modules.mods@[old(self).current_module.0 as int].parent is Some ==> r is Ok && final(self).current_module.0 == old(self).modules.mods@[old(self).current_module.0 as int].parent->0,
            !(old(self).current_module.0 < old(self).modules.mods@.len() && old(self).modules.mods@[old(self).current_module.0 as int].parent is Some) ==> r is Err,
    {
        match self.exit_mod() {
            Some(_) => Ok(()),
            None => Err(Error::PathError),
        }
    }
}

/// Language tier 0: the low-level words needed to extend the language:
/// `;` `]` `next_token` `MODULE` `USE` `SYNTAX:` `LET:` `:` `[` `(` `call` `if`.
pub fn tier0(state: &mut State) -> (r: Result<(), Error>)
    requires
        old(state).wf(),
    ensures
        final(state).wf(),
        final(state).budget == old(state).budget,
        final(state).stack == old(state).stack,
        final(state).current_module == old(state).current_module,
        final(state).modules.mods@.len() == old(state).modules.mods@.len(),
        r is Ok && old(state).current_module.0 < old(state).modules.mods@.len() ==> {
            let st = *final(state);
            let m = old(state).current_module.0 as int;
            &&& provides(st, m, ";"@, native_parse(Builtin::Semicolon))
            &&& provides(st, m, "]"@, native_parse(Builtin::CloseBracket))
            &&& provides(st, m, "next_token"@, native(Builtin::NextToken))
            &&& provides(st, m, "MODULE"@, native_parse(Builtin::Module))
            &&& provides(st, m, "USE"@, native_parse(Builtin::Use))
            &&& provides(st, m, "SYNTAX:"@, native_parse(Builtin::Syntax))
            &&& provides(st, m, "LET:"@, native_parse(Builtin::Let))
            &&& provides(st, m, ":"@, native_parse(Builtin::Colon))
            &&& provides(st, m, "["@, native_parse(Builtin::OpenBracket))
            &&& provides(st, m, "("@, native_parse(Builtin::Comment))
            &&& provides(st, m, "call"@, native(Builtin::Call))
            &&& provides(st, m, "if"@, native(Builtin::If))
        },
        r is Ok <==> (parses("( -- token)"@) && parses("(..a func(..a -- ..b) -- ..b)"@) && parses("(..a ? true(..a -- ..b) false(..a -- ..b) -- ..b)"@)),
{
    proof {
        reveal_strlit(";");
        reveal_strlit("]");
        reveal_strlit("next_token");
        reveal_strlit("MODULE");
        reveal_strlit("USE");
        reveal_strlit("SYNTAX:");
        reveal_strlit("LET:");
        reveal_strlit(":");
        reveal_strlit("[");
        reveal_strlit("(");
        reveal_strlit("call");
        reveal_strlit("if");
        assert(";"@.len() == 1 && ";"@[0] == ';');
        assert("]"@.len() == 1 && "]"@[0] == ']');
        assert("next_token"@.len() == 10);
        assert("MODULE"@.len() == 6);
        assert("USE"@.len() == 3);
        assert("SYNTAX:"@.len() == 7);
        assert("LET:"@.len() == 4 && "LET:"@[0] == 'L');
        assert(":"@.len() == 1 && ":"@[0] == ':');
        assert("["@.len() == 1 && "["@[0] == '[');
        assert("("@.len() == 1 && "("@[0] == '(');
        assert("call"@.len() == 4 && "call"@[0] == 'c');
        assert("if"@.len() == 2);
    }
    state.add_native_parse_word(";", Builtin::Semicolon);
    state.add_native_parse_word("]", Builtin::CloseBracket);
    state.add_native_word("next_token", "( -- token)", Builtin::NextToken)?;
    state.add_native_parse_word("MODULE", Builtin::Module);
    state.add_native_parse_word("USE", Builtin::Use);
    state.add_native_parse_word("SYNTAX:", Builtin::Syntax);
    state.add_native_parse_word("LET:", Builtin::Let);
    state.add_native_parse_word(":", Builtin::Colon);
    state.add_native_parse_word("[", Builtin::OpenBracket);
    state.add_native_parse_word("(", Builtin::Comment);
    state.add_native_word("call", "(..a func(..a -- ..b) -- ..b)", Builtin::Call)?;
    state.add_native_word("if", "(..a ? true(..a -- ..b) false(..a -- ..b) -- ..b)", Builtin::If)?;
    Ok(())
}

/// The module `scope`: words with local variables (`::`, `set`, `get`) and
/// the frames they use.
pub fn scope(state: &mut State) -> (r: Result<(), Error>)
    requires
        old(state).wf(),
    ensures
        final(state).wf(),
        final(state).budget == old(state).budget,
        final(state).stack == old(state).stack,
        r is Ok && old(state).current_module.0 < old(state).modules.mods@.len() ==> {
            let st = *final(state);
            let p = old(state).current_module.0 as int;
            let m = old(state).modules.mods@.len() as int;
            &&& st.current_module == old(state).current_module
            &&& sub_get(st.modules.mods@[p].submodules@, "scope"@) == Some(m as usize)
            &&& mod_lookup(st.modules.mods@, m, "push_frame"@) is Some
            &&& mod_lookup(st.modules.mods@, m, "pop_frame"@) is Some
            &&& mod_lookup(st.modules.mods@, m, "store"@) is Some
            &&& mod_lookup(st.modules.mods@, m, "fetch"@) is Some
            &&& provides(st, m, "push_frame"@, native(Builtin::PushFrame))
            &&& provides(st, m, "pop_frame"@, native(Builtin::PopFrame))
            &&& provides(st, m, "store"@, native(Builtin::Store))
            &&& provides(st, m, "fetch"@, native(Builtin::Fetch))
            &&& provides(st, m, "set"@, native_parse(Builtin::SetVar(mod_lookup(st.modules.mods@, m, "store"@)->Some_0)))
            &&& provides(st, m, "get"@, native_parse(Builtin::GetVar(mod_lookup(st.modules.mods@, m, "fetch"@)->Some_0)))
            &&& provides(st, m, "::"@, native_parse(Builtin::DoubleColon(mod_lookup(st.modules.mods@, m, "push_frame"@)->Some_0, mod_lookup(st.modules.mods@, m, "pop_frame"@)->Some_0)))
        },
        old(state).current_module.0 >= old(state).modules.mods@.len() ==> r == Err::<(), Error>(Error::PathError),
        old(state).current_module.0 < old(state).modules.mods@.len() ==> (r is Ok <==> (parses("(n -- )"@) && parses("(x addr -- )"@) && parses("(addr -- x)"@))),
{
    proof {
        reveal_strlit("push_frame");
        reveal_strlit("pop_frame");
        reveal_strlit("store");
        reveal_strlit("fetch");
        reveal_strlit("set");
        reveal_strlit("get");
        reveal_strlit("::");
        reveal_strlit("scope");
        assert("push_frame"@.len() == 10);
        assert("pop_frame"@.len() == 9);
        assert("store"@.len() == 5 && "store"@[0] == 's' && "store"@[1] == 't');
        assert("fetch"@.len() == 5 && "fetch"@[0] == 'f');
        assert("set"@.len() == 3 && "set"@[0] == 's');
        assert("get"@.len() == 3 && "get"@[0] == 'g');
        assert("::"@.len() == 2);
        assert("scope"@.len() == 5 && "scope"@[0] == 's' && "scope"@[1] == 'c');
    }
    let ghost s0 = *state;
    state.new_mod(chars_of("scope").as_slice())?;
    let push_frame = state.add_native_word("push_frame", "(n -- )", Builtin::PushFrame)?;
    let pop_frame = state.add_native_word("pop_frame", "(n -- )", Builtin::PopFrame)?;
    let store = state.add_native_word("store", "(x addr -- )", Builtin::Store)?;
    let fetch = state.add_native_word("fetch", "(addr -- x)", Builtin::Fetch)?;
    state.add_native_parse_word("set", Builtin::SetVar(store));
    state.add_native_parse_word("get", Builtin::GetVar(fetch));
    state.add_native_parse_word("::", Builtin::DoubleColon(push_frame, pop_frame));
    proof {
        if s0.current_module.0 < s0.modules.mods@.len() {
            let p = s0.current_module.0 as int;
            let m = s0.modules.mods@.len() as int;
            assert(state.modules.mods@[m].parent == Some(p as usize));
            assert(sub_get(state.modules.mods@[p].submodules@, "scope"@) == Some(m as usize));
            assert(mod_lookup(state.modules.mods@, m, "push_frame"@) == Some(push_frame));
            assert(mod_lookup(state.modules.mods@, m, "pop_frame"@) == Some(pop_frame));
            assert(mod_lookup(state.modules.mods@, m, "store"@) == Some(store));
            assert(mod_lookup(state.modules.mods@, m, "fetch"@) == Some(fetch));
            assert(provides(*state, m, "push_frame"@, native(Builtin::PushFrame)));
            assert(provides(*state, m, "pop_frame"@, native(Builtin::PopFrame)));
            assert(provides(*state, m, "store"@, native(Builtin::Store)));
            assert(provides(*state, m, "fetch"@, native(Builtin::Fetch)));
            assert(provides(*state, m, "set"@, native_parse(Builtin::SetVar(store))));
            assert(provides(*state, m, "get"@, native_parse(Builtin::GetVar(fetch))));
            assert(provides(*state, m, "::"@, native_parse(Builtin::DoubleColon(push_frame, pop_frame))));
        }
    }
    state.leave_module()
}

/// The module `branch`: `if` and `cond`.
pub fn branch(state: &mut State) -> (r: Result<(), Error>)
    requires
        old(state).wf(),
    ensures
        final(state).wf(),
        final(state).budget == old(state).budget,
        final(state).stack == old(state).stack,
        r is Ok && old(state).current_module.0 < old(state).modules.mods@.len() ==> {
            let st = *final(state);
            let p = old(state).current_module.0 as int;
            let m = old(state).modules.mods@.len() as int;
            &&& st.current_module == old(state).current_module
            &&& sub_get(st.modules.mods@[p].submodules@, "branch"@) == Some(m as usize)
            &&& provides(st, m, "if"@, native(Builtin::If))
            &&& provides(st, m, "cond"@, native(Builtin::Cond))
        },
        old(state).current_module.0 >= old(state).modules.mods@.len() ==> r == Err::<(), Error>(Error::PathError),
        old(state).current_module.0 < old(state).modules.mods@.len() ==> (r is Ok <==> (parses("(..a ? true(..a -- ..b) false(..a -- ..b) -- ..b)"@) && parses("(..a list -- ..b)"@))),
{
    proof {
        reveal_strlit("if");
        reveal_strlit("cond");
        reveal_strlit("branch");
        assert("if"@.len() == 2);
        assert("cond"@.len() == 4);
        assert("branch"@.len() == 6);
    }
    let ghost s0 = *state;
    state.new_mod(chars_of("branch").as_slice())?;
    state.add_native_word("if", "(..a ? true(..a -- ..b) false(..a -- ..b) -- ..b)", Builtin::If)?;
    state.add_native_word("cond", "(..a list -- ..b)", Builtin::Cond)?;
    proof {
        if s0.current_module.0 < s0.modules.mods@.len() {
            let p = s0.current_module.0 as int;
            let m = s0.modules.mods@.len() as int;
            assert(state.modules.mods@[m].parent == Some(p as usize));
            assert(sub_get(state.modules.mods@[p].submodules@, "branch"@) == Some(m as usize));
            assert(provides(*state, m, "if"@, native(Builtin::If)));
            assert(provides(*state, m, "cond"@, native(Builtin::Cond)));
        }
    }
    state.leave_module()
}

/// The module `loop`: `repeat`, `for` and `while`.
pub fn loops(state: &mut State) -> (r: Result<(), Error>)
    requires
        old(state).wf(),
    ensures
        final(state).wf(),
        final(state).budget == old(state).budget,
        final(state).stack == old(state).stack,
        r is Ok && old(state).current_module.0 < old(state).modules.mods@.len() ==> {
            let st = *final(state);
            let p = old(state).current_module.0 as int;
            let m = old(state).modules.mods@.len() as int;
            &&& st.current_module == old(state).current_module
            &&& sub_get(st.modules.mods@[p].submodules@, "loop"@) == Some(m as usize)
            &&& provides(st, m, "repeat"@, native(Builtin::Repeat))
            &&& provides(st, m, "for"@, native(Builtin::For))
            &&& provides(st, m, "while"@, native(Builtin::While))
        },
        old(state).current_module.0 >= old(state).modules.mods@.len() ==> r == Err::<(), Error>(Error::PathError),
        old(state).current_module.0 < old(state).modules.mods@.len() ==> (r is Ok <==> (parses("(..x n f(..x -- ..y) -- ..y)"@) && parses("(..x a b f(..x i -- ..y) -- ..y)"@) && parses("(..a cond(..a -- ..b ?) f(..b -- ..c) -- ..c)"@))),
{
    proof {
        reveal_strlit("repeat");
        reveal_strlit("for");
        reveal_strlit("while");
        reveal_strlit("loop");
        assert("repeat"@.len() == 6);
        assert("for"@.len() == 3);
        assert("while"@.len() == 5);
        assert("loop"@.len() == 4);
    }
    let ghost s0 = *state;
    state.new_mod(chars_of("loop").as_slice())?;
    state.add_native_word("repeat", "(..x n f(..x -- ..y) -- ..y)", Builtin::Repeat)?;
    state.add_native_word("for", "(..x a b f(..x i -- ..y) -- ..y)", Builtin::For)?;
    state.add_native_word("while", "(..a cond(..a -- ..b ?) f(..b -- ..c) -- ..c)", Builtin::While)?;
    proof {
        if s0.current_module.0 < s0.modules.mods@.len() {
            let p = s0.current_module.0 as int;
            let m = s0.modules.mods@.len() as int;
            assert(state.modules.mods@[m].parent == Some(p as usize));
            assert(sub_get(state.modules.mods@[p].submodules@, "loop"@) == Some(m as usize));
            assert(provides(*state, m, "repeat"@, native(Builtin::Repeat)));
            assert(provides(*state, m, "for"@, native(Builtin::For)));
            assert(provides(*state, m, "while"@, native(Builtin::While)));
        }
    }
    state.leave_module()
}

/// The module `ops`: comparisons, arithmetic, `not`, `same?` and `repr`.
pub fn ops(state: &mut State) -> (r: Result<(), Error>)
    requires
        old(state).wf(),
    ensures
        final(state).wf(),
        final(state).budget == old(state).budget,
        final(state).stack == old(state).stack,
        r is Ok && old(state).current_module.0 < old(state).modules.mods@.len() ==> {
            let st = *final(state);
            let p = old(state).current_module.0 as int;
            let m = old(state).modules.mods@.len() as int;
            &&& st.current_module == old(state).current_module
            &&& sub_get(st.modules.mods@[p].submodules@, "ops"@) == Some(m as usize)
            &&& provides(st, m, "repr"@, native(Builtin::Repr))
            &&& provides(st, m, "same?"@, native(Builtin::Same))
            &&& provides(st, m, "not"@, native(Builtin::Not))
            &&& provides(st, m, "=="@, native(Builtin::Eq))
            &&& provides(st, m, "!="@, native(Builtin::Ne))
            &&& provides(st, m, "<"@, native(Builtin::Lt))
            &&& provides(st, m, ">"@, native(Builtin::Gt))
            &&& provides(st, m, "<="@, native(Builtin::Le))
            &&& provides(st, m, ">="@, native(Builtin::Ge))
            &&& provides(st, m, "+"@, native(Builtin::Add))
            &&& provides(st, m, "-"@, native(Builtin::Sub))
            &&& provides(st, m, "*"@, native(Builtin::Mul))
            &&& provides(st, m, "/"@, native(Builtin::Div))
        },
        old(state).current_module.0 >= old(state).modules.mods@.len() ==> r == Err::<(), Error>(Error::PathError),
        old(state).current_module.0 < old(state).modules.mods@.len() ==> (r is Ok <==> (parses("(x -- s)"@) && parses("(a b -- ?)"@) && parses("(? -- !?)"@) && parses("( a b -- sum )"@) && parses("( a b -- diff )"@) && parses("( a b -- prod )"@) && parses("( a b -- quot )"@))),
{
    proof {
        reveal_strlit("repr");
        reveal_strlit("same?");
        reveal_strlit("not");
        reveal_strlit("==");
        reveal_strlit("!=");
        reveal_strlit("<");
        reveal_strlit(">");
        reveal_strlit("<=");
        reveal_strlit(">=");
        reveal_strlit("+");
        reveal_strlit("-");
        reveal_strlit("*");
        reveal_strlit("/");
        reveal_strlit("ops");
        assert("repr"@.len() == 4);
        assert("same?"@.len() == 5);
        assert("not"@.len() == 3 && "not"@[0] == 'n');
        assert("=="@.len() == 2 && "=="@[0] == '=');
        assert("!="@.len() == 2 && "!="@[0] == '!');
        assert("<"@.len() == 1 && "<"@[0] == '<');
        assert(">"@.len() == 1 && ">"@[0] == '>');
        assert("<="@.len() == 2 && "<="@[0] == '<');
        assert(">="@.len() == 2 && ">="@[0] == '>');
        assert("+"@.len() == 1 && "+"@[0] == '+');
        assert("-"@.len() == 1 && "-"@[0] == '-');
        assert("*"@.len() == 1 && "*"@[0] == '*');
        assert("/"@.len() == 1 && "/"@[0] == '/');
        assert("ops"@.len() == 3 && "ops"@[0] == 'o');
    }
    let ghost s0 = *state;
    state.new_mod(chars_of("ops").as_slice())?;
    state.add_native_word("repr", "(x -- s)", Builtin::Repr)?;
    state.add_native_word("same?", "(a b -- ?)", Builtin::Same)?;
    state.add_native_word("not", "(? -- !?)", Builtin::Not)?;
    state.add_native_word("==", "(a b -- ?)", Builtin::Eq)?;
    state.add_native_word("!=", "(a b -- ?)", Builtin::Ne)?;
    state.add_native_word("<", "(a b -- ?)", Builtin::Lt)?;
    state.add_native_word(">", "(a b -- ?)", Builtin::Gt)?;
    state.add_native_word("<=", "(a b -- ?)", Builtin::Le)?;
    state.add_native_word(">=", "(a b -- ?)", Builtin::Ge)?;
    state.add_native_word("+", "( a b -- sum )", Builtin::Add)?;
    state.add_native_word("-", "( a b -- diff )", Builtin::Sub)?;
    state.add_native_word("*", "( a b -- prod )", Builtin::Mul)?;
    state.add_native_word("/", "( a b -- quot )", Builtin::Div)?;
    proof {
        if s0.current_module.0 < s0.modules.mods@.len() {
            let p = s0.current_module.0 as int;
            let m = s0.modules.mods@.len() as int;
            assert(state.modules.mods@[m].parent == Some(p as usize));
            assert(sub_get(state.modules.mods@[p].submodules@, "ops"@) == Some(m as usize));
            assert(provides(*state, m, "repr"@, native(Builtin::Repr)));
            assert(provides(*state, m, "same?"@, native(Builtin::Same)));
            assert(provides(*state, m, "not"@, native(Builtin::Not)));
            assert(provides(*state, m, "=="@, native(Builtin::Eq)));
            assert(provides(*state, m, "!="@, native(Builtin::Ne)));
            assert(provides(*state, m, "<"@, native(Builtin::Lt)));
            assert(provides(*state, m, ">"@, native(Builtin::Gt)));
            assert(provides(*state, m, "<="@, native(Builtin::Le)));
            assert(provides(*state, m, ">="@, native(Builtin::Ge)));
            assert(provides(*state, m, "+"@, native(Builtin::Add)));
            assert(provides(*state, m, "-"@, native(Builtin::Sub)));
            assert(provides(*state, m, "*"@, native(Builtin::Mul)));
            assert(provides(*state, m, "/"@, native(Builtin::Div)));
        }
    }
    state.leave_module()
}

/// Tier 1: the words that print (`.s` the stack, `.` the top value) and
/// the stack operations, in the current module.
pub fn tier1(state: &mut State) -> (r: Result<(), Error>)
    requires
        old(state).wf(),
    ensures
        final(state).wf(),
        final(state).budget == old(state).budget,
        final(state).stack == old(state).stack,
        final(state).current_module == old(state).current_module,
        final(state).modules.mods@.len() == old(state).modules.mods@.len(),
        forall|i: int|
            0 <= i < old(state).modules.mods@.len() ==> #[trigger] final(state).modules.mods@[i].parent == old(state).modules.mods@[i].parent
                && final(state).modules.mods@[i].submodules == old(state).modules.mods@[i].submodules,
        r is Ok && old(state).current_module.0 < old(state).modules.mods@.len() ==> {
            let st = *final(state);
            let m = old(state).current_module.0 as int;
            &&& provides(st, m, ".s"@, native(Builtin::PrintStack))
            &&& provides(st, m, "."@, native(Builtin::PrintTop))
            &&& provides(st, m, "dup"@, native(Builtin::Dup))
            &&& provides(st, m, "drop"@, native(Builtin::Drop))
            &&& provides(st, m, "swap"@, native(Builtin::Swap))
            &&& provides(st, m, "over"@, native(Builtin::Over))
            &&& provides(st, m, "rot"@, native(Builtin::Rot))
        },
        r is Ok <==> (parses("( -- )"@) && parses("( x -- )"@) && parses("(a -- a a)"@) && parses("(a -- )"@) && parses("(a b -- b a)"@) && parses("(a b -- a b a)"@) && parses("(a b c -- b c a)"@)),
{
    proof {
        reveal_strlit(".s");
        reveal_strlit(".");
        reveal_strlit("dup");
        reveal_strlit("drop");
        reveal_strlit("swap");
        reveal_strlit("over");
        reveal_strlit("rot");
        assert(".s"@.len() == 2);
        assert("."@.len() == 1);
        assert("dup"@.len() == 3 && "dup"@[0] == 'd');
        assert("drop"@.len() == 4 && "drop"@[0] == 'd');
        assert("swap"@.len() == 4 && "swap"@[0] == 's');
        assert("over"@.len() == 4 && "over"@[0] == 'o');
        assert("rot"@.len() == 3 && "rot"@[0] == 'r');
    }
    state.add_native_word(".s", "( -- )", Builtin::PrintStack)?;
    state.add_native_word(".", "( x -- )", Builtin::PrintTop)?;
    state.add_native_word("dup", "(a -- a a)", Builtin::Dup)?;
    state.add_native_word("drop", "(a -- )", Builtin::Drop)?;
    state.add_native_word("swap", "(a b -- b a)", Builtin::Swap)?;
    state.add_native_word("over", "(a b -- a b a)", Builtin::Over)?;
    state.add_native_word("rot", "(a b c -- b c a)", Builtin::Rot)?;
    Ok(())
}

impl State {
    /// Tier 0 of the language core (see `tier0`), with the words of scoped
    /// definitions in the current module as well: `push_frame`,
    /// `pop_frame`, `store`, `fetch`, and the parsing words `set`, `get` and
    /// `::`.
    pub fn tier0(&mut self) -> (r: Result<(), Error>)
        requires
            old(self).wf(),
        ensures
            final(self).wf(),
            final(self).budget == old(self).budget,
            final(self).stack == old(self).stack,
            final(self).current_module == old(self).current_module,
            r is Ok <==> (parses("( -- token)"@) && parses("(..a func(..a -- ..b) -- ..b)"@) && parses("(..a ? true(..a -- ..b) false(..a -- ..b) -- ..b)"@)
                && parses("(n -- )"@) && parses("(x addr -- )"@) && parses("(addr -- x)"@)),
            r is Ok && old(self).current_module.0 < old(self).modules.mods@.len() ==> {
                let st = *final(self);
                let m = old(self).current_module.0 as int;
                &&& provides(st, m, ";"@, native_parse(Builtin::Semicolon))
                &&& provides(st, m, "]"@, native_parse(Builtin::CloseBracket))
                &&& provides(st, m, "next_token"@, native(Builtin::NextToken))
                &&& provides(st, m, "MODULE"@, native_parse(Builtin::Module))
                &&& provides(st, m, "USE"@, native_parse(Builtin::Use))
                &&& provides(st, m, "SYNTAX:"@, native_parse(Builtin::Syntax))
                &&& provides(st, m, "LET:"@, native_parse(Builtin::Let))
                &&& provides(st, m, ":"@, native_parse(Builtin::Colon))
                &&& provides(st, m, "["@, native_parse(Builtin::OpenBracket))
                &&& provides(st, m, "("@, native_parse(Builtin::Comment))
                &&& provides(st, m, "call"@, native(Builtin::Call))
                &&& provides(st, m, "if"@, native(Builtin::If))
                &&& provides(st, m, "push_frame"@, native(Builtin::PushFrame))
                &&& provides(st, m, "pop_frame"@, native(Builtin::PopFrame))
                &&& provides(st, m, "store"@, native(Builtin::Store))
                &&& provides(st, m, "fetch"@, native(Builtin::Fetch))
                &&& provides(st, m, "set"@, native_parse(Builtin::SetVar(mod_lookup(st.modules.mods@, m, "store"@)->Some_0)))
                &&& provides(st, m, "get"@, native_parse(Builtin::GetVar(mod_lookup(st.modules.mods@, m, "fetch"@)->Some_0)))
                &&& provides(st, m, "::"@, native_parse(Builtin::DoubleColon(
                    mod_lookup(st.modules.mods@, m, "push_frame"@)->Some_0,
                    mod_lookup(st.modules.mods@, m, "pop_frame"@)->Some_0,
                )))
            },
    {
        proof {
            reveal_strlit("next_token");
            reveal_strlit("USE");
            reveal_strlit("if");
            reveal_strlit("push_frame");
            reveal_strlit("pop_frame");
            reveal_strlit("store");
            reveal_strlit("fetch");
            reveal_strlit("set");
            reveal_strlit("get");
            reveal_strlit("::");
            reveal_strlit(";");
            reveal_strlit("]");
            reveal_strlit("MODULE");
            reveal_strlit("SYNTAX:");
            reveal_strlit("LET:");
            reveal_strlit(":");
            reveal_strlit("[");
            reveal_strlit("(");
            reveal_strlit("call");
            assert("next_token"@.len() == 10 && "next_token"@[0] == 'n');
            assert("push_frame"@.len() == 10 && "push_frame"@[0] == 'p');
            assert("pop_frame"@.len() == 9);
            assert("store"@.len() == 5 && "store"@[0] == 's');
            assert("fetch"@.len() == 5 && "fetch"@[0] == 'f');
            assert("USE"@.len() == 3 && "USE"@[0] == 'U');
            assert("set"@.len() == 3 && "set"@[0] == 's');
            assert("get"@.len() == 3 && "get"@[0] == 'g');
            assert("if"@.len() == 2 && "if"@[0] == 'i');
            assert("::"@.len() == 2 && "::"@[0] == ':');
            assert(";"@.len() == 1);
            assert("]"@.len() == 1);
            assert("MODULE"@.len() == 6);
            assert("SYNTAX:"@.len() == 7);
            assert("LET:"@.len() == 4 && "LET:"@[0] == 'L');
            assert(":"@.len() == 1);
            assert("["@.len() == 1);
            assert("("@.len() == 1);
            assert("call"@.len() == 4 && "call"@[0] == 'c');
        }
        tier0(self)?;
        let push_frame = self.add_native_word("push_frame", "(n -- )", Builtin::PushFrame)?;
        let pop_frame = self.add_native_word("pop_frame", "(n -- )", Builtin::PopFrame)?;
        let store = self.add_native_word("store", "(x addr -- )", Builtin::Store)?;
        let fetch = self.add_native_word("fetch", "(addr -- x)", Builtin::Fetch)?;
        self.add_native_parse_word("set", Builtin::SetVar(store));
        self.add_native_parse_word("get", Builtin::GetVar(fetch));
        self.add_native_parse_word("::", Builtin::DoubleColon(push_frame, pop_frame));
        Ok(())
    }

    /// Tier 1 of the language core: the words that print and the stack
    /// operations but `rot`, in the current module.
    pub fn tier1(&mut self) -> (r: Result<(), Error>)
        requires
            old(self).wf(),
        ensures
            final(self).wf(),
            final(self).budget == old(self).budget,
            final(self).stack == old(self).stack,
            final(self).current_module == old(self).current_module,
            r is Ok && old(self).current_module.0 < old(self).modules.mods@.len() ==> {
                let st = *final(self);
                let m = old(self).current_module.0 as int;
                &&& provides(st, m, ".s"@, native(Builtin::PrintStack))
                &&& provides(st, m, "."@, native(Builtin::PrintTop))
                &&& provides(st, m, "dup"@, native(Builtin::Dup))
                &&& provides(st, m, "drop"@, native(Builtin::Drop))
                &&& provides(st, m, "swap"@, native(Builtin::Swap))
                &&& provides(st, m, "over"@, native(Builtin::Over))
            },
        r is Ok <==> (parses("( -- )"@) && parses("( x -- )"@) && parses("(a -- a a)"@) && parses("(a -- )"@) && parses("(a b -- b a)"@) && parses("(a b -- a b a)"@)),
    {
        proof {
            reveal_strlit(".s");
            reveal_strlit(".");
            reveal_strlit("dup");
            reveal_strlit("drop");
            reveal_strlit("swap");
            reveal_strlit("over");
            assert(".s"@.len() == 2);
            assert("."@.len() == 1);
            assert("dup"@.len() == 3);
            assert("drop"@.len() == 4 && "drop"@[0] == 'd');
            assert("swap"@.len() == 4 && "swap"@[0] == 's');
            assert("over"@.len() == 4 && "over"@[0] == 'o');
        }
        self.add_native_word(".s", "( -- )", Builtin::PrintStack)?;
        self.add_native_word(".", "( x -- )", Builtin::PrintTop)?;
        self.add_native_word("dup", "(a -- a a)", Builtin::Dup)?;
        self.add_native_word("drop", "(a -- )", Builtin::Drop)?;
        self.add_native_word("swap", "(a b -- b a)", Builtin::Swap)?;
        self.add_native_word("over", "(a b -- a b a)", Builtin::Over)?;
        Ok(())
    }
}

/// The module `stack`: `dup`, `drop`, `swap`, `over` and `rot`.
pub fn stack(state: &mut State) -> (r: Result<(), Error>)
    requires
        old(state).wf(),
    ensures
        final(state).wf(),
        final(state).budget == old(state).budget,
        final(state).stack == old(state).stack,
        r is Ok && old(state).current_module.0 < old(state).modules.mods@.len() ==> {
            let st = *final(state);
            let p = old(state).current_module.0 as int;
            let m = old(state).modules.mods@.len() as int;
            &&& st.current_module == old(state).current_module
            &&& sub_get(st.modules.mods@[p].submodules@, "stack"@) == Some(m as usize)
            &&& provides(st, m, "dup"@, native(Builtin::Dup))
            &&& provides(st, m, "drop"@, native(Builtin::Drop))
            &&& provides(st, m, "swap"@, native(Builtin::Swap))
            &&& provides(st, m, "over"@, native(Builtin::Over))
            &&& provides(st, m, "rot"@, native(Builtin::Rot))
        },
        old(state).current_module.0 >= old(state).modules.mods@.len() ==> r == Err::<(), Error>(Error::PathError),
        old(state).current_module.0 < old(state).modules.mods@.len() ==> (r is Ok <==> (parses("(x -- x x)"@) && parses("(x -- )"@) && parses("(a b -- b a)"@) && parses("(a b -- a b a)"@) && parses("(a b c -- b c a)"@))),
{
    proof {
        reveal_strlit("dup");
        reveal_strlit("drop");
        reveal_strlit("swap");
        reveal_strlit("over");
        reveal_strlit("rot");
        reveal_strlit("stack");
        assert("dup"@.len() == 3 && "dup"@[0] == 'd');
        assert("drop"@.len() == 4 && "drop"@[0] == 'd');
        assert("swap"@.len() == 4 && "swap"@[0] == 's');
        assert("over"@.len() == 4 && "over"@[0] == 'o');
        assert("rot"@.len() == 3 && "rot"@[0] == 'r');
        assert("stack"@.len() == 5);
    }
    let ghost s0 = *state;
    state.new_mod(chars_of("stack").as_slice())?;
    state.add_native_word("dup", "(x -- x x)", Builtin::Dup)?;
    state.add_native_word("drop", "(x -- )", Builtin::Drop)?;
    state.add_native_word("swap", "(a b -- b a)", Builtin::Swap)?;
    state.add_native_word("over", "(a b -- a b a)", Builtin::Over)?;
    state.add_native_word("rot", "(a b c -- b c a)", Builtin::Rot)?;
    proof {
        if s0.current_module.0 < s0.modules.mods@.len() {
            let p = s0.current_module.0 as int;
            let m = s0.modules.mods@.len() as int;
            assert(state.modules.mods@[m].parent == Some(p as usize));
            assert(sub_get(state.modules.mods@[p].submodules@, "stack"@) == Some(m as usize));
            assert(provides(*state, m, "dup"@, native(Builtin::Dup)));
            assert(provides(*state, m, "drop"@, native(Builtin::Drop)));
            assert(provides(*state, m, "swap"@, native(Builtin::Swap)));
            assert(provides(*state, m, "over"@, native(Builtin::Over)));
            assert(provides(*state, m, "rot"@, native(Builtin::Rot)));
        }
    }
    state.leave_module()
}

/// The module `list`: making, taking apart and changing lists.
pub fn list(state: &mut State) -> (r: Result<(), Error>)
    requires
        old(state).wf(),
    ensures
        final(state).wf(),
        final(state).budget == old(state).budget,
        final(state).stack == old(state).stack,
        r is Ok && old(state).current_module.0 < old(state).modules.mods@.len() ==> {
            let st = *final(state);
            let p = old(state).current_module.0 as int;
            let m = old(state).modules.mods@.len() as int;
            &&& st.current_module == old(state).current_module
            &&& sub_get(st.modules.mods@[p].submodules@, "list"@) == Some(m as usize)
            &&& provides(st, m, "str-to-list"@, native(Builtin::StrToList))
            &&& provides(st, m, "list-make"@, native(Builtin::ListMake))
            &&& provides(st, m, "list-destructure"@, native(Builtin::ListDestructure))
            &&& provides(st, m, "list-reverse"@, native(Builtin::ListReverse))
            &&& provides(st, m, "list-empty?"@, native(Builtin::ListEmpty))
            &&& provides(st, m, "list-len"@, native(Builtin::ListLen))
            &&& provides(st, m, "list-get"@, native(Builtin::ListGet))
            &&& provides(st, m, "list-set"@, native(Builtin::ListSet))
            &&& provides(st, m, "pop-back"@, native(Builtin::PopBack))
            &&& provides(st, m, "pop-front"@, native(Builtin::PopFront))
            &&& provides(st, m, "push-back"@, native(Builtin::PushBack))
            &&& provides(st, m, "push-front"@, native(Builtin::PushFront))
        },
        old(state).current_module.0 >= old(state).modules.mods@.len() ==> r == Err::<(), Error>(Error::PathError),
        old(state).current_module.0 < old(state).modules.mods@.len() ==> (r is Ok <==> (parses("(s -- l)"@) && parses("(* n -- l)"@) && parses("(l -- * n)"@) && parses("(l -- l')"@) && parses("(l -- l ?)"@) && parses("(l -- l n)"@) && parses("(l i -- l x)"@) && parses("(l i x -- l')"@) && parses("(l -- l' x)"@) && parses("(l x -- l')"@))),
{
    proof {
        reveal_strlit("str-to-list");
        reveal_strlit("list-make");
        reveal_strlit("list-destructure");
        reveal_strlit("list-reverse");
        reveal_strlit("list-empty?");
        reveal_strlit("list-len");
        reveal_strlit("list-get");
        reveal_strlit("list-set");
        reveal_strlit("pop-back");
        reveal_strlit("pop-front");
        reveal_strlit("push-back");
        reveal_strlit("push-front");
        reveal_strlit("list");
        assert("str-to-list"@.len() == 11 && "str-to-list"@[0] == 's');
        assert("list-make"@.len() == 9 && "list-make"@[0] == 'l');
        assert("list-destructure"@.len() == 16);
        assert("list-reverse"@.len() == 12);
        assert("list-empty?"@.len() == 11 && "list-empty?"@[0] == 'l');
        assert("list-len"@.len() == 8 && "list-len"@[0] == 'l' && "list-len"@[5] == 'l');
        assert("list-get"@.len() == 8 && "list-get"@[0] == 'l' && "list-get"@[5] == 'g');
        assert("list-set"@.len() == 8 && "list-set"@[0] == 'l' && "list-set"@[5] == 's');
        assert("pop-back"@.len() == 8 && "pop-back"@[0] == 'p');
        assert("pop-front"@.len() == 9 && "pop-front"@[0] == 'p' && "pop-front"@[1] == 'o');
        assert("push-back"@.len() == 9 && "push-back"@[0] == 'p' && "push-back"@[1] == 'u');
        assert("push-front"@.len() == 10);
        assert("list"@.len() == 4);
    }
    let ghost s0 = *state;
    state.new_mod(chars_of("list").as_slice())?;
    state.add_native_word("str-to-list", "(s -- l)", Builtin::StrToList)?;
    state.add_native_word("list-make", "(* n -- l)", Builtin::ListMake)?;
    state.add_native_word("list-destructure", "(l -- * n)", Builtin::ListDestructure)?;
    state.add_native_word("list-reverse", "(l -- l')", Builtin::ListReverse)?;
    state.add_native_word("list-empty?", "(l -- l ?)", Builtin::ListEmpty)?;
    state.add_native_word("list-len", "(l -- l n)", Builtin::ListLen)?;
    state.add_native_word("list-get", "(l i -- l x)", Builtin::ListGet)?;
    state.add_native_word("list-set", "(l i x -- l')", Builtin::ListSet)?;
    state.add_native_word("pop-back", "(l -- l' x)", Builtin::PopBack)?;
    state.add_native_word("pop-front", "(l -- l' x)", Builtin::PopFront)?;
    state.add_native_word("push-back", "(l x -- l')", Builtin::PushBack)?;
    state.add_native_word("push-front", "(l x -- l')", Builtin::PushFront)?;
    proof {
        if s0.current_module.0 < s0.modules.mods@.len() {
            let p = s0.current_module.0 as int;
            let m = s0.modules.mods@.len() as int;
            assert(state.modules.mods@[m].parent == Some(p as usize));
            assert(sub_get(state.modules.mods@[p].submodules@, "list"@) == Some(m as usize));
            assert(provides(*state, m, "str-to-list"@, native(Builtin::StrToList)));
            assert(provides(*state, m, "list-make"@, native(Builtin::ListMake)));
            assert(provides(*state, m, "list-destructure"@, native(Builtin::ListDestructure)));
            assert(provides(*state, m, "list-reverse"@, native(Builtin::ListReverse)));
            assert(provides(*state, m, "list-empty?"@, native(Builtin::ListEmpty)));
            assert(provides(*state, m, "list-len"@, native(Builtin::ListLen)));
            assert(provides(*state, m, "list-get"@, native(Builtin::ListGet)));
            assert(provides(*state, m, "list-set"@, native(Builtin::ListSet)));
            assert(provides(*state, m, "pop-back"@, native(Builtin::PopBack)));
            assert(provides(*state, m, "pop-front"@, native(Builtin::PopFront)));
            assert(provides(*state, m, "push-back"@, native(Builtin::PushBack)));
            assert(provides(*state, m, "push-front"@, native(Builtin::PushFront)));
        }
    }
    state.leave_module()
}

/// The names of the table words.
pub open spec fn table_word_name(n: Seq<char>) -> bool {
    ||| n == "{}"@
    ||| n == "set_metatable"@
    ||| n == "get_metatable"@
    ||| n == "set_attr"@
    ||| n == "get_attr"@
    ||| n == "has_attr"@
}

/// Adds the table words to the current module.
fn table_words(state: &mut State) -> (r: Result<(), Error>)
    requires
        old(state).wf(),
    ensures
        final(state).wf(),
        final(state).budget == old(state).budget,
        final(state).stack == old(state).stack,
        final(state).current_module == old(state).current_module,
        final(state).modules.mods@.len() == old(state).modules.mods@.len(),
        forall|i: int|
            0 <= i < old(state).modules.mods@.len() ==> #[trigger] final(state).modules.mods@[i].parent == old(state).modules.mods@[i].parent
                && final(state).modules.mods@[i].submodules == old(state).modules.mods@[i].submodules,
        r is Ok && old(state).current_module.0 < old(state).modules.mods@.len() ==> {
            let st = *final(state);
            let m = old(state).current_module.0 as int;
            &&& provides(st, m, "{}"@, native(Builtin::NewTable))
            &&& provides(st, m, "set_metatable"@, native(Builtin::SetMetatable))
            &&& provides(st, m, "get_metatable"@, native(Builtin::GetMetatable))
            &&& provides(st, m, "set_attr"@, native_parse(Builtin::SetAttr))
            &&& provides(st, m, "get_attr"@, native_parse(Builtin::GetAttr))
            &&& provides(st, m, "has_attr"@, native_parse(Builtin::HasAttr))
        },
        r is Ok <==> (parses("( -- t)"@) && parses("(t mt -- t')"@) && parses("(t -- t mt)"@)),
        final(state).input_tokens == old(state).input_tokens,
        forall|n: Seq<char>|
            !table_word_name(n) ==> #[trigger] mod_lookup(final(state).modules.mods@, old(state).current_module.0 as int, n)
                == mod_lookup(old(state).modules.mods@, old(state).current_module.0 as int, n),
        forall|n: Seq<char>, w: Word|
            !table_word_name(n) && provides(*old(state), old(state).current_module.0 as int, n, w) ==> #[trigger] provides(
                *final(state),
                old(state).current_module.0 as int,
                n,
                w,
            ),
{
    proof {
        reveal_strlit("{}");
        reveal_strlit("set_metatable");
        reveal_strlit("get_metatable");
        reveal_strlit("set_attr");
        reveal_strlit("get_attr");
        reveal_strlit("has_attr");
        assert("{}"@.len() == 2);
        assert("set_metatable"@.len() == 13 && "set_metatable"@[0] == 's');
        assert("get_metatable"@.len() == 13 && "get_metatable"@[0] == 'g');
        assert("set_attr"@.len() == 8 && "set_attr"@[0] == 's');
        assert("get_attr"@.len() == 8 && "get_attr"@[0] == 'g');
        assert("has_attr"@.len() == 8 && "has_attr"@[0] == 'h');
    }
    state.add_native_word("{}", "( -- t)", Builtin::NewTable)?;
    state.add_native_word("set_metatable", "(t mt -- t')", Builtin::SetMetatable)?;
    state.add_native_word("get_metatable", "(t -- t mt)", Builtin::GetMetatable)?;
    state.add_native_parse_word("set_attr", Builtin::SetAttr);
    state.add_native_parse_word("get_attr", Builtin::GetAttr);
    state.add_native_parse_word("has_attr", Builtin::HasAttr);
    Ok(())
}

/// The module `table`: tables with attributes and meta tables.
pub fn table(state: &mut State) -> (r: Result<(), Error>)
    requires
        old(state).wf(),
    ensures
        final(state).wf(),
        final(state).budget == old(state).budget,
        final(state).stack == old(state).stack,
        r is Ok && old(state).current_module.0 < old(state).modules.mods@.len() ==> {
            let st = *final(state);
            let p = old(state).current_module.0 as int;
            let m = old(state).modules.mods@.len() as int;
            &&& st.current_module == old(state).current_module
            &&& sub_get(st.modules.mods@[p].submodules@, "table"@) == Some(m as usize)
            &&& provides(st, m, "{}"@, native(Builtin::NewTable))
            &&& provides(st, m, "set_metatable"@, native(Builtin::SetMetatable))
            &&& provides(st, m, "get_metatable"@, native(Builtin::GetMetatable))
            &&& provides(st, m, "set_attr"@, native_parse(Builtin::SetAttr))
            &&& provides(st, m, "get_attr"@, native_parse(Builtin::GetAttr))
            &&& provides(st, m, "has_attr"@, native_parse(Builtin::HasAttr))
            &&& provides(st, m, "get_attr_raw"@, native_parse(Builtin::GetAttrRaw))
            &&& provides(st, m, "get_attribute"@, native(Builtin::GetAttribute))
        },
        old(state).current_module.0 >= old(state).modules.mods@.len() ==> r == Err::<(), Error>(Error::PathError),
        old(state).current_module.0 < old(state).modules.mods@.len() ==> (r is Ok <==> (parses("(t s -- t v)"@) && parses("( -- t)"@) && parses("(t mt -- t')"@) && parses("(t -- t mt)"@))),
{
    proof {
        reveal_strlit("get_attr_raw");
        reveal_strlit("get_attribute");
        reveal_strlit("{}");
        reveal_strlit("set_metatable");
        reveal_strlit("get_metatable");
        reveal_strlit("set_attr");
        reveal_strlit("get_attr");
        reveal_strlit("has_attr");
        assert("get_attr_raw"@.len() == 12);
        assert("get_attribute"@.len() == 13 && "get_attribute"@[0] == 'g' && "get_attribute"@[4] == 'a');
        assert("{}"@.len() == 2);
        assert("set_metatable"@.len() == 13 && "set_metatable"@[0] == 's');
        assert("get_metatable"@.len() == 13 && "get_metatable"@[0] == 'g' && "get_metatable"@[4] == 'm');
        assert("set_attr"@.len() == 8 && "set_attr"@[0] == 's');
        assert("get_attr"@.len() == 8 && "get_attr"@[0] == 'g');
        assert("has_attr"@.len() == 8 && "has_attr"@[0] == 'h');
    }
    let ghost s0 = *state;
    state.new_mod(chars_of("table").as_slice())?;
    table_words(state)?;
    state.add_native_parse_word("get_attr_raw", Builtin::GetAttrRaw);
    state.add_native_word("get_attribute", "(t s -- t v)", Builtin::GetAttribute)?;
    proof {
        if s0.current_module.0 < s0.modules.mods@.len() {
            let p = s0.current_module.0 as int;
            let m = s0.modules.mods@.len() as int;
            assert(state.modules.mods@[m].parent == Some(p as usize));
            assert(sub_get(state.modules.mods@[p].submodules@, "table"@) == Some(m as usize));
            assert(provides(*state, m, "{}"@, native(Builtin::NewTable)));
            assert(provides(*state, m, "set_metatable"@, native(Builtin::SetMetatable)));
            assert(provides(*state, m, "get_metatable"@, native(Builtin::GetMetatable)));
            assert(provides(*state, m, "set_attr"@, native_parse(Builtin::SetAttr)));
            assert(provides(*state, m, "get_attr"@, native_parse(Builtin::GetAttr)));
            assert(provides(*state, m, "has_attr"@, native_parse(Builtin::HasAttr)));
            assert(provides(*state, m, "get_attr_raw"@, native_parse(Builtin::GetAttrRaw)));
            assert(provides(*state, m, "get_attribute"@, native(Builtin::GetAttribute)));
        }
    }
    state.leave_module()
}

/// A state in which the class script stops at its first token: `:` names
/// no word in the current module, as before tier 0 is loaded, nothing is
/// pending, and the stack effects of the table words parse.
pub open spec fn class_script_refused(st: State) -> bool {
    &&& st.current_module.0 < st.modules.mods@.len()
    &&& parses("( -- t)"@) && parses("(t mt -- t')"@) && parses("(t -- t mt)"@)
    &&& st.input_tokens@.len() == 0
    &&& st.budget > 0
    &&& mod_lookup(st.modules.mods@, st.current_module.0 as int, ":"@) is None
}

/// Classes on tables: the table words, `None`, and the words `class` and
/// `Complex` written in the language itself.
pub fn class(state: &mut State) -> (r: Result<(), Error>)
    requires
        old(state).wf(),
    ensures
        final(state).wf(),
        final(state).budget <= old(state).budget,
        !(parses("( -- t)"@) && parses("(t mt -- t')"@) && parses("(t -- t mt)"@)) ==> r is Err,
        class_script_refused(*old(state)) ==> {
            let m = old(state).current_module.0 as int;
            &&& r matches Err(Error::UnknownWord(t)) && t@ == ":"@
            &&& final(state).stack@ == old(state).stack@
            &&& provides(*final(state), m, "None"@, native_parse(Builtin::PushNone))
            &&& provides(*final(state), m, "{}"@, native(Builtin::NewTable))
            &&& provides(*final(state), m, "set_metatable"@, native(Builtin::SetMetatable))
            &&& provides(*final(state), m, "get_metatable"@, native(Builtin::GetMetatable))
            &&& provides(*final(state), m, "set_attr"@, native_parse(Builtin::SetAttr))
            &&& provides(*final(state), m, "get_attr"@, native_parse(Builtin::GetAttr))
            &&& provides(*final(state), m, "has_attr"@, native_parse(Builtin::HasAttr))
        },
{
    proof {
        reveal_strlit("None");
        reveal_strlit(":");
        reveal_strlit("{}");
        reveal_strlit("set_metatable");
        reveal_strlit("get_metatable");
        reveal_strlit("set_attr");
        reveal_strlit("get_attr");
        reveal_strlit("has_attr");
        assert("None"@.len() == 4 && "None"@[0] == 'N');
        assert(":"@.len() == 1 && ":"@[0] == ':');
        assert(!table_word_name(":"@));
        assert(!table_word_name("None"@));
    }
    state.add_native_parse_word("None", Builtin::PushNone);
    table_words(state)?;
    let ghost before = *state;
    proof {
        reveal_strlit("
        : class {} ;

        : Complex class
            [
                {}
                swap set_metatable
                1 set_attr real
                2 set_attr imag
            ] set_attr new

            [
                get_attr real
                swap
                get_attr imag
                rot swap
            ] set_attr get

            [
                get_attr real
                swap
                get_attr imag
                swap drop
                rot
                get_attr real
                swap
                get_attr imag
                swap drop

                rot +
                rot rot +
                swap
            ] set_attr __add__
        ;
    ");
        let s = "
        : class {} ;

        : Complex class
            [
                {}
                swap set_metatable
                1 set_attr real
                2 set_attr imag
            ] set_attr new

            [
                get_attr real
                swap
                get_attr imag
                rot swap
            ] set_attr get

            [
                get_attr real
                swap
                get_attr imag
                swap drop
                rot
                get_attr real
                swap
                get_attr imag
                swap drop

                rot +
                rot rot +
                swap
            ] set_attr __add__
        ;
    "@;
        assert(s.len() > 10);
        assert(s[9] == ':' && s[10] == ' ');
        assert(skip_ws(s, 9) == 9);
        assert(skip_ws(s, 8) == 9);
        assert(skip_ws(s, 7) == 9);
        assert(skip_ws(s, 6) == 9);
        assert(skip_ws(s, 5) == 9);
        assert(skip_ws(s, 4) == 9);
        assert(skip_ws(s, 3) == 9);
        assert(skip_ws(s, 2) == 9);
        assert(skip_ws(s, 1) == 9);
        assert(skip_ws(s, 0) == 9);
        assert(word_end(s, 10) == 10);
        assert(word_end(s, 9) == 10);
        assert(token_end(s, 9) == 10);
        assert(spec_tokens(s)[0] =~= ":"@);
        assert(spec_literal(":"@) is None);
        if class_script_refused(*old(state)) {
            assert(unknown_first(before, spec_tokens(s)));
        }
    }
    let r = state.run_checked(
        "
        : class {} ;

        : Complex class
            [
                {}
                swap set_metatable
                1 set_attr real
                2 set_attr imag
            ] set_attr new

            [
                get_attr real
                swap
                get_attr imag
                rot swap
            ] set_attr get

            [
                get_attr real
                swap
                get_attr imag
                swap drop
                rot
                get_attr real
                swap
                get_attr imag
                swap drop

                rot +
                rot rot +
                swap
            ] set_attr __add__
        ;
    ",
    )
;
    proof {
        if class_script_refused(*old(state)) {
            let m = old(state).current_module.0 as int;
            assert(unchanged_words(before, *state));
            assert(provides(before, m, "None"@, native_parse(Builtin::PushNone)));
            assert(provides(*state, m, "None"@, native_parse(Builtin::PushNone)));
            assert(provides(*state, m, "{}"@, native(Builtin::NewTable)));
            assert(state.stack@ == old(state).stack@);
        }
    }
    r
}

/// The standard library: tier 0, and the module `std` with `branch`,
/// `loop`, `ops`, `scope`, `stack` and `table`, all of them also in use in
/// `std` itself.
pub fn stdlib(state: &mut State) -> (r: Result<(), Error>)
    requires
        old(state).wf(),
    ensures
        final(state).wf(),
        final(state).budget <= old(state).budget,
        old(state).current_module.0 >= old(state).modules.mods@.len() ==> r is Err,
        !(parses("( -- token)"@) && parses("(..a func(..a -- ..b) -- ..b)"@) && parses(
            "(..a ? true(..a -- ..b) false(..a -- ..b) -- ..b)"@,
        )) ==> r is Err,
{
    tier0(state)?;
    state.new_mod(chars_of("std").as_slice())?;
    branch(state)?;
    loops(state)?;
    ops(state)?;
    scope(state)?;
    stack(state)?;
    table(state)?;
    state.run_checked(
        "
        USE branch:
        USE loop:
        USE ops:
        USE scope:
        USE stack:
        USE table:
    ",
    )?;
    state.leave_module()
}

/// A Brainfuck interpreter written in the language, with an example
/// program that prints `Hello World!`.
pub fn brainfuck(state: &mut State) -> (r: Result<(), Error>)
    requires
        old(state).wf(),
    ensures
        final(state).wf(),
        final(state).budget <= old(state).budget,
        old(state).input_tokens@.len() == 0 && old(state).budget > 0 && mod_lookup(
            old(state).modules.mods@,
            old(state).current_module.0 as int,
            "MODULE"@,
        ) is None ==> (r matches Err(Error::UnknownWord(t)) && t@ == "MODULE"@ && *final(state) == *old(state)),
{
    proof {
        reveal_strlit("MODULE");
        reveal_strlit("
        MODULE brainfuck

        USE :std:

        (limitations:
            - no , command for input
            - individual commands must be separated by spaces because they are implemented as words,
              or they must be preceded by the BF parse word
            - storing tape in a table because we lack arrays
            - need one more word to use quotations as [ ] loops )

        : init (-- tape pos)
            0 list-make
            30000 [ 0 push-back ] repeat
            0
        ;

        :: query   (tape pos -- tape pos x)   set pos get pos list-get get pos swap ;
        :: update   (tape pos x -- tape' pos)   set x set pos get pos get x list-set get pos ;

        : > (tape pos -- tape pos') 1 + ;
        : < (tape pos -- tape pos') 1 - ;
        : + (tape pos -- tape' pos) query 1 + update ;
        : - (tape pos -- tape' pos) query 1 - update ;
        : . (tape pos -- tape pos') query emit ;

        :: loop   (tape pos -- tape' pos')   set inner [ query 0 != ] [ get inner call ] while ;

        :: insert-cmd (ops cmds current -- ops' cmds) swap set cmds lookup bake get cmds ;

        (todo: in order to parse [ ... ] loops we will need
            a. either macros (hard?) or
            b. or compilation words (easy?)
        )
        : process-bf-token (ops token -- ops')
            str-to-list
            [ list-empty? not ]
            [
                pop-front
                [
                    [ [ dup \"<\" == ] [ insert-cmd ] ]
                    [ [ dup \">\" == ] [ insert-cmd ] ]
                    [ [ dup \"+\" == ] [ insert-cmd ] ]
                    [ [ dup \"-\" == ] [ insert-cmd ] ]
                    [ [ dup \".\" == ] [ insert-cmd ] ]
                    [ True [ drop ] ]
                ] cond
            ] while
            drop
        ;

        SYNTAX: BF next_token process-bf-token ;

        SYNTAX: BF-BEGIN
            next_token
            [ dup \"BF-END\" != ]
            [
                process-bf-token
                next_token
            ]
            while
            drop
         ;


        (Brainfuck Example)

        : hello   (tape pos -- tape' pos')
            + + + + + + + + + +
            [
               BF >+++++++>++++++++++>+++>+<<<<-
            ] loop
            BF-BEGIN
                >++.                (H)
                >+.                 (e)
                +++++++..           (ll)
                +++.                (o)
                >++.                ( )
                <<+++++++++++++++.  (W)
                >.                  (o)
                +++.                (r)
                ------.             (l)
                --------.           (d)
                >+.                 (!)
                >.                  (LF)
                +++.                (CR)
            BF-END
        ;

        init hello
        drop drop

        END-MODULE
    ");
        let s = "
        MODULE brainfuck

        USE :std:

        (limitations:
            - no , command for input
            - individual commands must be separated by spaces because they are implemented as words,
              or they must be preceded by the BF parse word
            - storing tape in a table because we lack arrays
            - need one more word to use quotations as [ ] loops )

        : init (-- tape pos)
            0 list-make
            30000 [ 0 push-back ] repeat
            0
        ;

        :: query   (tape pos -- tape pos x)   set pos get pos list-get get pos swap ;
        :: update   (tape pos x -- tape' pos)   set x set pos get pos get x list-set get pos ;

        : > (tape pos -- tape pos') 1 + ;
        : < (tape pos -- tape pos') 1 - ;
        : + (tape pos -- tape' pos) query 1 + update ;
        : - (tape pos -- tape' pos) query 1 - update ;
        : . (tape pos -- tape pos') query emit ;

        :: loop   (tape pos -- tape' pos')   set inner [ query 0 != ] [ get inner call ] while ;

        :: insert-cmd (ops cmds current -- ops' cmds) swap set cmds lookup bake get cmds ;

        (todo: in order to parse [ ... ] loops we will need
            a. either macros (hard?) or
            b. or compilation words (easy?)
        )
        : process-bf-token (ops token -- ops')
            str-to-list
            [ list-empty? not ]
            [
                pop-front
                [
                    [ [ dup \"<\" == ] [ insert-cmd ] ]
                    [ [ dup \">\" == ] [ insert-cmd ] ]
                    [ [ dup \"+\" == ] [ insert-cmd ] ]
                    [ [ dup \"-\" == ] [ insert-cmd ] ]
                    [ [ dup \".\" == ] [ insert-cmd ] ]
                    [ True [ drop ] ]
                ] cond
            ] while
            drop
        ;

        SYNTAX: BF next_token process-bf-token ;

        SYNTAX: BF-BEGIN
            next_token
            [ dup \"BF-END\" != ]
            [
                process-bf-token
                next_token
            ]
            while
            drop
         ;


        (Brainfuck Example)

        : hello   (tape pos -- tape' pos')
            + + + + + + + + + +
            [
               BF >+++++++>++++++++++>+++>+<<<<-
            ] loop
            BF-BEGIN
                >++.                (H)
                >+.                 (e)
                +++++++..           (ll)
                +++.                (o)
                >++.                ( )
                <<+++++++++++++++.  (W)
                >.                  (o)
                +++.                (r)
                ------.             (l)
                --------.           (d)
                >+.                 (!)
                >.                  (LF)
                +++.                (CR)
            BF-END
        ;

        init hello
        drop drop

        END-MODULE
    "@;
        assert(s.len() > 16);
        assert(skip_ws(s, 9) == 9);
        assert(skip_ws(s, 8) == 9);
        assert(skip_ws(s, 7) == 9);
        assert(skip_ws(s, 6) == 9);
        assert(skip_ws(s, 5) == 9);
        assert(skip_ws(s, 4) == 9);
        assert(skip_ws(s, 3) == 9);
        assert(skip_ws(s, 2) == 9);
        assert(skip_ws(s, 1) == 9);
        assert(skip_ws(s, 0) == 9);
        assert(word_end(s, 15) == 15);
        assert(word_end(s, 14) == 15);
        assert(word_end(s, 13) == 15);
        assert(word_end(s, 12) == 15);
        assert(word_end(s, 11) == 15);
        assert(word_end(s, 10) == 15);
        assert(word_end(s, 9) == 15);
        assert(token_end(s, 9) == 15);
        assert(spec_tokens(s)[0] =~= "MODULE"@);
        assert(spec_literal("MODULE"@) is None) by {
            assert("MODULE"@[0] == 'M');
        }
    }
    state.run_checked(
        "
        MODULE brainfuck

        USE :std:

        (limitations:
            - no , command for input
            - individual commands must be separated by spaces because they are implemented as words,
              or they must be preceded by the BF parse word
            - storing tape in a table because we lack arrays
            - need one more word to use quotations as [ ] loops )

        : init (-- tape pos)
            0 list-make
            30000 [ 0 push-back ] repeat
            0
        ;

        :: query   (tape pos -- tape pos x)   set pos get pos list-get get pos swap ;
        :: update   (tape pos x -- tape' pos)   set x set pos get pos get x list-set get pos ;

        : > (tape pos -- tape pos') 1 + ;
        : < (tape pos -- tape pos') 1 - ;
        : + (tape pos -- tape' pos) query 1 + update ;
        : - (tape pos -- tape' pos) query 1 - update ;
        : . (tape pos -- tape pos') query emit ;

        :: loop   (tape pos -- tape' pos')   set inner [ query 0 != ] [ get inner call ] while ;

        :: insert-cmd (ops cmds current -- ops' cmds) swap set cmds lookup bake get cmds ;

        (todo: in order to parse [ ... ] loops we will need
            a. either macros (hard?) or
            b. or compilation words (easy?)
        )
        : process-bf-token (ops token -- ops')
            str-to-list
            [ list-empty? not ]
            [
                pop-front
                [
                    [ [ dup \"<\" == ] [ insert-cmd ] ]
                    [ [ dup \">\" == ] [ insert-cmd ] ]
                    [ [ dup \"+\" == ] [ insert-cmd ] ]
                    [ [ dup \"-\" == ] [ insert-cmd ] ]
                    [ [ dup \".\" == ] [ insert-cmd ] ]
                    [ True [ drop ] ]
                ] cond
            ] while
            drop
        ;

        SYNTAX: BF next_token process-bf-token ;

        SYNTAX: BF-BEGIN
            next_token
            [ dup \"BF-END\" != ]
            [
                process-bf-token
                next_token
            ]
            while
            drop
         ;


        (Brainfuck Example)

        : hello   (tape pos -- tape' pos')
            + + + + + + + + + +
            [
               BF >+++++++>++++++++++>+++>+<<<<-
            ] loop
            BF-BEGIN
                >++.                (H)
                >+.                 (e)
                +++++++..           (ll)
                +++.                (o)
                >++.                ( )
                <<+++++++++++++++.  (W)
                >.                  (o)
                +++.                (r)
                ------.             (l)
                --------.           (d)
                >+.                 (!)
                >.                  (LF)
                +++.                (CR)
            BF-END
        ;

        init hello
        drop drop

        END-MODULE
    ",
    )
}

} // verus!
