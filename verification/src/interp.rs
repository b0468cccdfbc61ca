//! Running programs: reading tokens, compiling them, calling words, and the
//! native words that run user code. Every call uses up one unit of the
//! interpreter's budget, which bounds how long a program can run.
use vstd::prelude::*;
use crate::errors::Error;
use crate::objects::{Object, Opcode, ByteCode, Builtin, Callable, WordId, clone_object, clone_objects, clone_ops, type_error};
use crate::dictionary::Word;
use crate::state::{State, Mode, lone_quote};
use crate::vm::{to_bytecode, compiled_op, attr_lookup, meta_method, spent};
use crate::builtins::kept;
use crate::parsing::{spec_tokens, tokenize_chars};
use crate::stack_effect::StackEffect;
use crate::object_factory::{spec_literal, ObjectFactory};
use crate::module::mod_lookup;
use crate::state::stack_view;
use crate::builtins::{top_list, replaced_top_list, simple_repr};
use crate::objects::{OView, OpView, view_obj, view_objs, lemma_view_objs, view_op, view_ops, lemma_view_ops};
use crate::effect_names::names_of;
use crate::text::{is_digit, all_digits};
use crate::text::{chars_of, chars_eq, copy_chars, string_of};

verus! {

/// A step of the interpreter: the state stays well formed and the budget
/// does not grow; a step that succeeds uses some of it.
pub open spec fn advanced(a: State, b: State, ok: bool) -> bool {
    &&& b.wf()
    &&& b.budget <= a.budget
    &&& ok ==> b.budget < a.budget
}

/// No token of the text is a lone `"`.
pub open spec fn no_lone_quote(s: Seq<char>) -> bool {
    forall|i: int| 0 <= i < spec_tokens(s).len() ==> #[trigger] spec_tokens(s)[i] != lone_quote()
}

impl State {
    /// Runs a line of source text: all its tokens are compiled, parsing
    /// words running as they are read, and then the compiled code runs. On
    /// an error the rest of the input is dropped.
    pub fn run(&mut self, input: &str) -> (r: Result<(), Error>)
        requires
            old(self).wf(),
            no_lone_quote(input@),
        ensures
            final(self).wf(),
            final(self).budget <= old(self).budget,
            literal_run(*old(self), spec_tokens(input@)) ==> r is Ok && stack_view(final(self).stack@)
                == stack_view(old(self).stack@) + literal_values(spec_tokens(input@)),
            plain_run(*old(self), spec_tokens(input@)) ==> compiled_then_run(*old(self), spec_tokens(input@), *final(self), r),
            unknown_first(*old(self), spec_tokens(input@)) ==> (r matches Err(Error::UnknownWord(t)) && t@
                == spec_tokens(input@)[0] && unchanged_words(*old(self), *final(self))),
            quotation_run(*old(self), spec_tokens(input@)) ==> compiled_quotations_then_run(
                *old(self),
                spec_tokens(input@),
                *final(self),
                r,
            ),
            definition_run(*old(self), spec_tokens(input@)) && r is Ok ==> defines_body(*final(self), *old(self), spec_tokens(input@))
                && final(self).stack@ == old(self).stack@,
            r is Err ==> final(self).input_tokens@.len() == 0,
            ambiguous_first(*old(self), spec_tokens(input@)) ==> (r matches Err(Error::AmbiguousWord(t)) && t@
                == spec_tokens(input@)[0] && unchanged_words(*old(self), *final(self))),
            parsing_first(*old(self), spec_tokens(input@)) ==> first_parsed(*old(self), spec_tokens(input@), *final(self), r),
            definition_run(*old(self), spec_tokens(input@)) && spec_tokens(input@).len() == 4 && spec_literal(spec_tokens(input@)[2]) is Some
                ==> r is Ok,
    {
        let cs = chars_of(input);
        let toks = tokenize_chars(cs.as_slice());
        proof {
            assert(names_of(toks@) =~= spec_tokens(input@)) by {
                assert forall|i: int| 0 <= i < toks@.len() implies names_of(toks@)[i] == spec_tokens(input@)[i] by {
                    assert(toks@.map_values(|t: Vec<char>| t@)[i] == toks@[i]@);
                }
            }
            assert forall|i: int| 0 <= i < toks@.len() implies (#[trigger] toks@[i])@ != lone_quote() by {
                assert(names_of(toks@)[i] == toks@[i]@);
            }
        }
        self.run_tokens(toks)
    }

    /// Runs source text whose tokens are checked for a lone `"` first; such
    /// a token stops the run before anything happens.
    pub fn run_checked(&mut self, input: &str) -> (r: Result<(), Error>)
        requires
            old(self).wf(),
        ensures
            final(self).wf(),
            final(self).budget <= old(self).budget,
            literal_run(*old(self), spec_tokens(input@)) ==> r is Ok && stack_view(final(self).stack@)
                == stack_view(old(self).stack@) + literal_values(spec_tokens(input@)),
            plain_run(*old(self), spec_tokens(input@)) && no_lone_quote(input@) ==> compiled_then_run(*old(self), spec_tokens(input@), *final(self), r),
            unknown_first(*old(self), spec_tokens(input@)) ==> (r matches Err(Error::UnknownWord(t)) && t@
                == spec_tokens(input@)[0] && *final(self) == *old(self)),
            quotation_run(*old(self), spec_tokens(input@)) && no_lone_quote(input@) ==> compiled_quotations_then_run(
                *old(self),
                spec_tokens(input@),
                *final(self),
                r,
            ),
            definition_run(*old(self), spec_tokens(input@)) && no_lone_quote(input@) && r is Ok ==> defines_body(
                *final(self),
                *old(self),
                spec_tokens(input@),
            ) && final(self).stack@ == old(self).stack@,
            r is Err ==> final(self).input_tokens@.len() == 0,
            ambiguous_first(*old(self), spec_tokens(input@)) && no_lone_quote(input@) ==> (r matches Err(Error::AmbiguousWord(t)) && t@
                == spec_tokens(input@)[0] && unchanged_words(*old(self), *final(self))),
            parsing_first(*old(self), spec_tokens(input@)) && no_lone_quote(input@) ==> first_parsed(
                *old(self),
                spec_tokens(input@),
                *final(self),
                r,
            ),
            definition_run(*old(self), spec_tokens(input@)) && spec_tokens(input@).len() == 4 && spec_literal(spec_tokens(input@)[2]) is Some
                && no_lone_quote(input@) ==> r is Ok,
    {
        let cs = chars_of(input);
        let toks = tokenize_chars(cs.as_slice());
        proof {
            assert(names_of(toks@) =~= spec_tokens(input@)) by {
                assert forall|i: int| 0 <= i < toks@.len() implies names_of(toks@)[i] == spec_tokens(input@)[i] by {
                    assert(toks@.map_values(|t: Vec<char>| t@)[i] == toks@[i]@);
                }
            }
        }
        if toks.len() > 0 && self.input_tokens.len() == 0 && self.budget > 0 {
            let is_quote = toks[0].len() == 1 && toks[0][0] == '"';
            let no_literal = if is_quote {
                proof {
                    assert(toks@[0]@ =~= lone_quote());
                    lemma_lone_quote_not_literal();
                }
                true
            } else {
                proof {
                    if toks@[0]@ == lone_quote() {
                        assert(toks@[0]@.len() == 1);
                    }
                }
                let mut scratch = ObjectFactory::new();
                scratch.parse(toks[0].as_slice()).is_none()
            };
            let unknown = no_literal && self.lookup(toks[0].as_slice()).is_none();
            proof {
                assert(names_of(toks@)[0] == toks@[0]@);
            }
            if unknown {
                return Err(Error::UnknownWord(copy_chars(toks[0].as_slice())));
            }
            assert(!unknown_first(*old(self), spec_tokens(input@)));
        }
        proof {
            if toks@.len() > 0 {
                assert(names_of(toks@)[0] == toks@[0]@);
            }
        }
        let mut i: usize = 0;
        while i < toks.len()
            invariant
                i <= toks@.len(),
                *self == *old(self),
                !unknown_first(*old(self), spec_tokens(input@)),
                self.wf(),
                names_of(toks@) == spec_tokens(input@),
                forall|j: int| 0 <= j < i ==> (#[trigger] toks@[j])@ != lone_quote(),
            decreases toks@.len() - i,
        {
            if toks[i].len() == 1 && toks[i][0] == '"' {
                proof {
                    assert(toks@[i as int]@ =~= lone_quote());
                    assert(names_of(toks@)[i as int] == toks@[i as int]@);
                    lemma_lone_quote_not_literal();
                    assert(spec_literal(spec_tokens(input@)[i as int]) is None);
                }
                let err = Error::UnknownWord(copy_chars(toks[i].as_slice()));
                self.input_tokens.clear();
                return Err(err);
            }
            proof {
                if toks@[i as int]@ == lone_quote() {
                    assert(toks@[i as int]@.len() == 1);
                }
            }
            i = i + 1;
        }
        self.run_tokens(toks)
    }

    /// Compiles and runs the tokens after what input is pending.
    fn run_tokens(&mut self, toks: Vec<Vec<char>>) -> (r: Result<(), Error>)
        requires
            old(self).wf(),
            forall|i: int| 0 <= i < toks@.len() ==> (#[trigger] toks@[i])@ != lone_quote(),
        ensures
            final(self).wf(),
            final(self).budget <= old(self).budget,
            literal_run(*old(self), names_of(toks@)) ==> r is Ok
                && stack_view(final(self).stack@) == stack_view(old(self).stack@) + literal_values(names_of(toks@)),
            r is Err ==> final(self).input_tokens@.len() == 0,
            plain_run(*old(self), names_of(toks@)) ==> compiled_then_run(*old(self), names_of(toks@), *final(self), r),
            quotation_run(*old(self), names_of(toks@)) ==> compiled_quotations_then_run(*old(self), names_of(toks@), *final(self), r),
            definition_run(*old(self), names_of(toks@)) && r is Ok ==> defines_body(*final(self), *old(self), names_of(toks@))
                && final(self).stack@ == old(self).stack@,
            ambiguous_first(*old(self), names_of(toks@)) ==> (r matches Err(Error::AmbiguousWord(t)) && t@ == names_of(toks@)[0]
                && unchanged_words(*old(self), *final(self))),
            unknown_first(*old(self), names_of(toks@)) ==> (r matches Err(Error::UnknownWord(t)) && t@ == names_of(toks@)[0]
                && unchanged_words(*old(self), *final(self))),
            parsing_first(*old(self), names_of(toks@)) ==> first_parsed(*old(self), names_of(toks@), *final(self), r),
            definition_run(*old(self), names_of(toks@)) && names_of(toks@).len() == 4 && spec_literal(names_of(toks@)[2]) is Some
                ==> r is Ok,
    {
        let ghost tv = names_of(toks@);
        let ghost pf = parsing_first(*self, tv);
        let ghost mut done1 = false;
        let ghost mut mid1 = *self;
        let ghost mut p1 = *self;
        let ghost mut rr1: Result<(), Error> = Ok(());
        let ghost lit = literal_run(*self, tv);
        let ghost plain = plain_run(*self, tv);
        let ghost unk = unknown_first(*self, tv);
        let ghost amb = ambiguous_first(*self, tv);
        let ghost quot = quotation_run(*self, tv);
        let ghost defn = definition_run(*self, tv);
        let ghost full = line_values(*self, tv)->Some_0;
        let ghost s0 = self.stack@;
        let mut pending = toks;
        let ghost t0 = self.input_tokens@;
        let ghost t1 = pending@;
        self.input_tokens.append(&mut pending);
        proof {
            assert forall|i: int| 0 <= i < self.input_tokens@.len() implies (#[trigger] self.input_tokens@[i])@
                != lone_quote() by {
                if i < t0.len() {
                    assert(self.input_tokens@[i] == t0[i]);
                } else {
                    assert(self.input_tokens@[i] == t1[i - t0.len()]);
                }
            }
        }
        let ghost mode0 = self.mode@;
        self.begin_compile();
        let ghost st_begin = *self;
        proof {
            if quot {
                assert(self.input_tokens@ =~= t1);
                assert(names_of(self.input_tokens@) =~= tv);
                match self.stack@.last() {
                    Object::List(w) => {
                        lemma_view_objs(w@);
                        assert(view_objs(w@) + full =~= full);
                    },
                    _ => {},
                }
            }
            if unk || amb || defn || pf {
                assert(self.input_tokens@ =~= t1);
                assert(names_of(self.input_tokens@) =~= tv);
            }
        }
        let ghost mut k: int = 0;
        proof {
            if lit {
                assert(self.input_tokens@ =~= t1);
                assert(names_of(self.input_tokens@) =~= tv.skip(0));
                lemma_view_objs_last(self.stack@);
                lemma_view_objs_last(s0);
                assert(stack_view(self.stack@) == stack_view(s0).push(OView::List(Seq::empty())));
                assert(self.stack@.len() == s0.len() + 1);
                let vv = stack_view(self.stack@);
                assert(vv.drop_last() =~= view_objs(self.stack@.drop_last()));
                assert(vv.drop_last() =~= stack_view(s0));
                assert(vv.last() == view_obj(self.stack@.last()));
                assert(stack_view(self.stack@.drop_last()) =~= stack_view(s0));
                assert(view_obj(self.stack@.last()) == OView::List(Seq::empty()));
                assert(literal_values(tv.take(0)) =~= Seq::<OView>::empty());
                match self.stack@.last() {
                    Object::List(w) => {
                        assert(view_objs(w@) == Seq::<OView>::empty());
                    },
                    _ => {},
                }
                assert(holds_literals(self.stack@.last(), literal_values(tv.take(0))));
                assert(self.budget > tv.len() - k + 1);
            }
        }
        loop
            invariant
                self.wf(),
                self.budget <= old(self).budget,
                lit == literal_run(*old(self), tv),
                plain == plain_run(*old(self), tv),
                unk == unknown_first(*old(self), tv),
                amb == ambiguous_first(*old(self), tv),
                unk || amb ==> *self == st_begin && names_of(self.input_tokens@) == tv,
                pf == parsing_first(*old(self), tv),
                pf && !done1 ==> *self == st_begin && names_of(self.input_tokens@) == tv,
                pf && done1 ==> line_started(*old(self), tv, mid1) && State::post_call_object(
                    spent(mid1),
                    first_word(*old(self), tv),
                    p1,
                    rr1,
                ) && rr1 is Ok,
                pf && done1 && p1.input_tokens@.len() == 0 ==> *self == p1,
                quot == quotation_run(*old(self), tv),
                defn == definition_run(*old(self), tv),
                defn ==> {
                    ||| (*self == st_begin && names_of(self.input_tokens@) == tv)
                    ||| {
                        &&& self.input_tokens@.len() == 0
                        &&& self.stack@ == st_begin.stack@
                        &&& self.mode@ == st_begin.mode@
                        &&& self.current_module == old(self).current_module
                        &&& defines_body(*self, *old(self), tv)
                        &&& self.budget > 0
                    }
                },
                quot ==> full == line_values(*old(self), tv)->Some_0,
                quot ==> {
                    &&& line_values(*old(self), names_of(self.input_tokens@)) is Some
                    &&& self.budget > 8 * self.input_tokens@.len() + 2
                    &&& self.mode@ == mode0.push(Mode::Compile)
                    &&& self.modules == old(self).modules
                    &&& self.entries == old(self).entries
                    &&& self.current_module == old(self).current_module
                    &&& self.stack@.len() == s0.len() + 1
                    &&& self.stack@.drop_last() == s0
                    &&& self.stack@.last() matches Object::List(w) && view_objs(w@) + line_values(
                        *old(self),
                        names_of(self.input_tokens@),
                    )->Some_0 == full
                },
                st_begin.stack@.drop_last() == old(self).stack@,
                st_begin.stack@.len() == old(self).stack@.len() + 1,
                st_begin == (State { stack: st_begin.stack, input_tokens: st_begin.input_tokens, mode: st_begin.mode, ..*old(self) }),
                st_begin.stack@.last() matches Object::List(w) && w@.len() == 0,
                st_begin.modules == old(self).modules,
                st_begin.entries == old(self).entries,
                st_begin.current_module == old(self).current_module,
                st_begin.budget == old(self).budget,
                st_begin.mode@ == mode0.push(Mode::Compile),
                mode0 == old(self).mode@,
                tv == names_of(toks@),
                s0 == old(self).stack@,
                plain ==> {
                    &&& 0 <= k <= tv.len()
                    &&& names_of(self.input_tokens@) == tv.skip(k)
                    &&& *self == (State {
                        stack: self.stack,
                        factory: self.factory,
                        budget: self.budget,
                        input_tokens: self.input_tokens,
                        mode: self.mode,
                        ..*old(self)
                    })
                    &&& self.mode@ == mode0.push(Mode::Compile)
                    &&& self.budget == old(self).budget - k
                    &&& self.stack@.len() == s0.len() + 1
                    &&& self.stack@.drop_last() == s0
                    &&& self.stack@.last() matches Object::List(w) && view_objs(w@) == plain_values(*old(self), tv.take(k))
                },
                lit ==> {
                    &&& 0 <= k <= tv.len()
                    &&& names_of(self.input_tokens@) == tv.skip(k)
                    &&& self.mode@ == mode0.push(Mode::Compile)
                    &&& self.modules == old(self).modules
                    &&& self.current_module == old(self).current_module
                    &&& self.budget > tv.len() - k + 1
                    &&& self.stack@.len() == s0.len() + 1
                    &&& stack_view(self.stack@.drop_last()) == stack_view(s0)
                    &&& holds_literals(self.stack@.last(), literal_values(tv.take(k)))
                },
            ensures
                self.wf(),
                self.budget <= old(self).budget,
                self.input_tokens@.len() == 0,
                !unk,
                !amb,
                pf ==> done1,
                pf ==> line_started(*old(self), tv, mid1) && State::post_call_object(
                    spent(mid1),
                    first_word(*old(self), tv),
                    p1,
                    rr1,
                ) && rr1 is Ok,
                pf && p1.input_tokens@.len() == 0 ==> *self == p1,
                defn ==> {
                    &&& self.input_tokens@.len() == 0
                    &&& self.stack@ == st_begin.stack@
                    &&& self.mode@ == st_begin.mode@
                    &&& self.current_module == old(self).current_module
                    &&& defines_body(*self, *old(self), tv)
                    &&& self.budget > 0
                },
                quot ==> {
                    &&& self.budget > 2
                    &&& self.mode@ == mode0.push(Mode::Compile)
                    &&& self.modules == old(self).modules
                    &&& self.entries == old(self).entries
                    &&& self.current_module == old(self).current_module
                    &&& self.input_tokens@.len() == 0
                    &&& self.stack@.len() == s0.len() + 1
                    &&& self.stack@.drop_last() == s0
                    &&& self.stack@.last() matches Object::List(w) && view_objs(w@) == full
                },
                plain ==> {
                    &&& k == tv.len()
                    &&& names_of(self.input_tokens@).len() == 0
                    &&& *self == (State {
                        stack: self.stack,
                        factory: self.factory,
                        budget: self.budget,
                        input_tokens: self.input_tokens,
                        mode: self.mode,
                        ..*old(self)
                    })
                    &&& self.mode@ == mode0.push(Mode::Compile)
                    &&& self.budget == old(self).budget - k
                    &&& self.stack@.len() == s0.len() + 1
                    &&& self.stack@.drop_last() == s0
                    &&& self.stack@.last() matches Object::List(w) && view_objs(w@) == plain_values(*old(self), tv)
                },
                lit ==> {
                    &&& k == tv.len()
                    &&& self.mode@ == mode0.push(Mode::Compile)
                    &&& self.budget > 1
                    &&& self.stack@.len() == s0.len() + 1
                    &&& stack_view(self.stack@.drop_last()) == stack_view(s0)
                    &&& holds_literals(self.stack@.last(), literal_values(tv))
                },
            decreases self.budget,
        {
            let ghost before = *self;
            match self.next_token() {
                None => {
                    proof {
                        if unk || amb || (pf && !done1) {
                            assert(names_of(before.input_tokens@).len() == before.input_tokens@.len());
                        }
                        if defn {
                            assert(names_of(before.input_tokens@).len() == before.input_tokens@.len());
                        }
                        if quot {
                            assert(names_of(before.input_tokens@).len() == before.input_tokens@.len());
                            assert(names_of(self.input_tokens@) =~= Seq::<Seq<char>>::empty());
                            match self.stack@.last() {
                                Object::List(w) => {
                                    assert(view_objs(w@) + Seq::<OView>::empty() =~= view_objs(w@));
                                },
                                _ => {},
                            }
                        }
                        if lit || plain {
                            assert(tv.skip(k).len() == 0);
                            assert(tv.take(k) =~= tv);
                        }
                    }
                    break;
                },
                Some(t) => {
                    proof {
                        if lit || plain {
                            assert(tv.skip(k)[0] == tv[k]);
                            assert(t@ == tv[k]);
                        }
                        if plain {
                            assert(plain_token(*old(self), tv[k]));
                            assert(plain_token(*self, t@));
                        }
                        if unk || amb || (pf && !done1) {
                            assert(names_of(before.input_tokens@)[0] == before.input_tokens@[0]@);
                            assert(t@ == tv[0]);
                        }
                        if pf && !done1 {
                            let rest = names_of(before.input_tokens@);
                            assert(rest.len() == before.input_tokens@.len());
                            assert(names_of(self.input_tokens@) =~= rest.drop_first());
                            assert(*self == (State { stack: self.stack, input_tokens: self.input_tokens, mode: self.mode, ..*old(self) }));
                            assert(names_of(self.input_tokens@) == tv.drop_first());
                            assert(self.stack@.drop_last() == old(self).stack@);
                            assert(self.mode@ == old(self).mode@.push(Mode::Compile));
                            assert(line_started(*old(self), tv, *self));
                        }
                        if quot || defn {
                            let rest = names_of(before.input_tokens@);
                            assert(rest.len() == before.input_tokens@.len());
                            assert(rest[0] == before.input_tokens@[0]@);
                            assert(names_of(self.input_tokens@) =~= rest.drop_first());
                        }
                    }
                    let ghost mid = *self;
                    assert(pf && !done1 ==> line_started(*old(self), tv, mid));
                    let pres = self.parse_token(t.as_slice());
                    match pres {
                        Ok(_) => {
                            proof {
                                if lit {
                                    assert(mid.mode@.last() == Mode::Compile);
                                    let v = spec_literal(tv[k])->Some_0;
                                    match mid.stack@.last() {
                                        Object::List(l) => {
                                            match self.stack@.last() {
                                                Object::List(w) => {
                                                    lemma_view_objs_last(w@);
                                                    assert(w@.drop_last() =~= l@);
                                                    assert(tv.take(k + 1) =~= tv.take(k).push(tv[k]));
                                                    assert(literal_values(tv.take(k + 1)) =~= literal_values(tv.take(k)).push(v));
                                                },
                                                _ => {},
                                            }
                                        },
                                        _ => {},
                                    }
                                    assert(names_of(before.input_tokens@).drop_first() =~= names_of(self.input_tokens@));
                                    assert(tv.skip(k).drop_first() =~= tv.skip(k + 1));
                                    k = k + 1;
                                } else if plain {
                                    let v = plain_value(*old(self), tv[k]);
                                    assert(tv.take(k + 1) =~= tv.take(k).push(tv[k]));
                                    assert(plain_values(*old(self), tv.take(k + 1)) =~= plain_values(*old(self), tv.take(k)).push(v));
                                    match (mid.stack@.last(), self.stack@.last()) {
                                        (Object::List(l), Object::List(w)) => {
                                            lemma_view_objs_last(w@);
                                            assert(w@.drop_last() =~= l@);
                                            assert(view_objs(w@) =~= view_objs(l@).push(v));
                                        },
                                        _ => {},
                                    }
                                    assert(names_of(before.input_tokens@).drop_first() =~= names_of(self.input_tokens@));
                                    assert(tv.skip(k).drop_first() =~= tv.skip(k + 1));
                                    k = k + 1;
                                }
                                if quot {
                                    lemma_quotation_step(*old(self), before, mid, *self, t@, pres, full);
                                }
                                if defn {
                                    lemma_definition_step(*old(self), mid, *self, t@, pres, tv);
                                }
                                if pf && !done1 {
                                    assert(State::post_call_object(spent(mid), first_word(*old(self), tv), *self, pres));
                                    rr1 = pres;
                                    mid1 = mid;
                                    p1 = *self;
                                    done1 = true;
                                }
                            }
                        },
                        Err(e) => {
                            proof {
                                if lit {
                                    assert(spec_literal(tv[k]) is Some);
                                    assert(mod_lookup(mid.modules.mods@, mid.current_module.0 as int, t@) is None);
                                    assert(mid.mode@.last() == Mode::Compile);
                                    assert(top_list(mid.stack@) is Some);
                                    assert(false);
                                }
                                if plain {
                                    assert(top_list(mid.stack@) is Some);
                                    assert(mid.mode@.last() == Mode::Compile);
                                    assert(false);
                                }
                                if unk || amb {
                                    assert(t@ == tv[0]);
                                }
                                if quot {
                                    lemma_quotation_step(*old(self), before, mid, *self, t@, pres, full);
                                }
                                if pf && !done1 {
                                    assert(State::post_call_object(spent(mid), first_word(*old(self), tv), *self, pres));
                                }
                                if defn {
                                    lemma_definition_step(*old(self), mid, *self, t@, pres, tv);
                                }
                            }
                            let ghost after = *self;
                            self.input_tokens.clear();
                            let _ = self.pop();
                            self.end_compile();
                            proof {
                                if pf && !done1 {
                                    assert(State::post_call_object(spent(mid), first_word(*old(self), tv), after, pres));
                                    assert(first_parsed(*old(self), tv, *self, pres));
                                }
                            }
                            return Err(e);
                        },
                    }
                },
            }
        }
        let ghost after_loop = *self;
        self.end_compile();
        let ghost s1 = self.stack@;
        let code = self.pop()?;
        let ops = code.into_rc_vec()?;
        proof {
            if lit {
                lemma_literal_values_no_calls(ops@, literal_values(tv));
            }
        }
        let ghost at_run = *self;
        proof {
            if defn {
                assert(ops@.len() == 0) by {
                    lemma_view_objs(ops@);
                }
            }
        }
        let res = self.run_sequence(&ops);
        let ghost x = *self;
        if res.is_err() {
            self.input_tokens.clear();
        }
        proof {
            if plain {
                assert(at_run.stack@ =~= old(self).stack@);
                assert(at_run.mode@ =~= old(self).mode@);
                assert(view_objs(ops@) == plain_values(*old(self), tv));
                assert(runs(spent(at_run), call_ops(plain_values(*old(self), tv)), x, res));
                assert(ended(x, *self, res));
            }
            if quot {
                assert(at_run.stack@ =~= old(self).stack@);
                assert(at_run.mode@ =~= old(self).mode@);
                assert(view_objs(ops@) == full);
                assert(runs(spent(at_run), call_ops(line_values(*old(self), tv)->Some_0), x, res));
                assert(ended(x, *self, res));
            }
            if pf && p1.input_tokens@.len() == 0 {
                assert(after_loop == p1);
                assert(at_run == (State { stack: at_run.stack, mode: at_run.mode, ..p1 }));
                if p1.budget > 0 && p1.stack@.len() > 0 {
                match p1.stack@.last() {
                    Object::List(w) => {
                        assert(ops@ == w@);
                        assert(runs(spent(at_run), call_ops(view_objs(w@)), x, res));
                        assert(ended(x, *self, res));
                        assert(compiled_list_run(p1, *self, res));
                    },
                    _ => {},
                }
                }
                assert(first_parsed(*old(self), tv, *self, res));
            }
        }
        res
    }

    /// Reads and handles tokens up to the delimiter.
    pub fn parse_until(&mut self, delimiter: &str) -> (r: Result<(), Error>)
        requires
            old(self).wf(),
        ensures
            advanced(*old(self), *final(self), r is Ok),
            old(self).budget > 0 && old(self).input_tokens@.len() == 0 ==> r == Err::<(), Error>(Error::EndOfInput),
            ({
                let j = tok_pos(names_of(old(self).input_tokens@), delimiter@);
                plain_until(*old(self), delimiter@) && old(self).budget > j + 1 && old(self).mode@.len() > 0
                    && old(self).mode@.last() == Mode::Compile && top_list(old(self).stack@) is Some ==> {
                    &&& r is Ok
                    &&& final(self).input_tokens@ == old(self).input_tokens@.skip(j + 1)
                    &&& final(self).stack@.len() == old(self).stack@.len()
                    &&& final(self).stack@.drop_last() == old(self).stack@.drop_last()
                    &&& top_list(final(self).stack@) is Some
                    &&& top_list_view(final(self).stack@) == top_list_view(old(self).stack@) + plain_before(*old(self), delimiter@)
                    &&& final(self).mode == old(self).mode
                    &&& final(self).modules == old(self).modules
                    &&& final(self).current_module == old(self).current_module
                    &&& final(self).entries == old(self).entries
                    &&& final(self).budget == old(self).budget - 1 - j
                }
            }),
        decreases old(self).budget,
    {
        let ghost tv = names_of(self.input_tokens@);
        let ghost j = tok_pos(tv, delimiter@);
        let ghost lit = plain_until(*self, delimiter@) && self.budget > j + 1 && self.mode@.len() > 0
            && self.mode@.last() == Mode::Compile && top_list(self.stack@) is Some;
        let ghost l0 = top_list_view(self.stack@);
        proof {
            lemma_tok_pos_facts(tv, delimiter@);
            lemma_view_objs(self.stack@);
        }
        self.spend()?;
        let d = chars_of(delimiter);
        let ghost mut c: int = 0;
        proof {
            if lit {
                assert(self.input_tokens@ =~= old(self).input_tokens@.skip(0));
                assert(tv.take(0) =~= Seq::<Seq<char>>::empty());
                assert(literal_values(tv.take(0)) =~= Seq::<OView>::empty());
                assert(l0 + Seq::<OView>::empty() =~= l0);
            }
        }
        loop
            invariant
                self.wf(),
                self.budget < old(self).budget,
                d@ == delimiter@,
                old(self).input_tokens@.len() == 0 ==> self.input_tokens@.len() == 0,
                tv == names_of(old(self).input_tokens@),
                j == tok_pos(tv, delimiter@),
                -1 <= j < tv.len(),
                j >= 0 ==> tv[j] == delimiter@,
                forall|k: int| 0 <= k < tv.len() && (j < 0 || k < j) ==> tv[k] != delimiter@,
                l0 == top_list_view(old(self).stack@),
                lit == (plain_until(*old(self), delimiter@) && old(self).budget > j + 1 && old(self).mode@.len() > 0
                    && old(self).mode@.last() == Mode::Compile && top_list(old(self).stack@) is Some),
                lit ==> {
                    &&& 0 <= c <= j
                    &&& self.input_tokens@ == old(self).input_tokens@.skip(c)
                    &&& self.budget == old(self).budget - 1 - c
                    &&& self.stack@.len() == old(self).stack@.len()
                    &&& self.stack@.drop_last() == old(self).stack@.drop_last()
                    &&& top_list(self.stack@) is Some
                    &&& top_list_view(self.stack@) == l0 + plain_values(*old(self), tv.take(c))
                    &&& self.mode == old(self).mode
                    &&& self.modules == old(self).modules
                    &&& self.current_module == old(self).current_module
                    &&& self.entries == old(self).entries
                },
            decreases self.budget,
        {
            proof {
                if lit {
                    assert(self.input_tokens@.len() > 0);
                    assert(self.input_tokens@[0] == old(self).input_tokens@[c]);
                    assert(tv[c] == old(self).input_tokens@[c]@);
                }
            }
            match self.next_token() {
                None => {
                    return Err(Error::EndOfInput);
                },
                Some(t) => {
                    if chars_eq(t.as_slice(), d.as_slice()) {
                        proof {
                            if lit {
                                assert(c == j);
                                assert(self.input_tokens@ =~= old(self).input_tokens@.skip(j + 1));
                            }
                        }
                        return Ok(());
                    }
                    let ghost mid = *self;
                    self.parse_token(t.as_slice())?;
                    proof {
                        if lit {
                            assert(c < j);
                            assert(plain_token(*old(self), tv[c]));
                            let v = plain_value(*old(self), tv[c]);
                            let l = top_list(mid.stack@)->Some_0;
                            lemma_view_objs(self.stack@);
                            match self.stack@.last() {
                                Object::List(w) => {
                                    lemma_view_objs_last(w@);
                                    assert(w@.drop_last() =~= l);
                                    assert(view_obj(w@.last()) == v);
                                    assert(tv.take(c + 1) =~= tv.take(c).push(tv[c]));
                                    assert(plain_values(*old(self), tv.take(c + 1)) =~= plain_values(*old(self), tv.take(c)).push(v));
                                    assert(top_list_view(self.stack@) =~= l0 + plain_values(*old(self), tv.take(c + 1)));
                                },
                                _ => {},
                            }
                            assert(self.input_tokens@ =~= old(self).input_tokens@.skip(c + 1));
                            c = c + 1;
                        }
                    }
                },
            }
        }
    }

    /// Handles a token: a literal is pushed, or compiled in compile mode; a
    /// word is called, or compiled in compile mode unless it is a parsing
    /// word; a token that is both or neither is an error.
    pub fn parse_token(&mut self, token: &[char]) -> (r: Result<(), Error>)
        requires
            old(self).wf(),
            token@ != lone_quote(),
        ensures
            advanced(*old(self), *final(self), r is Ok),
            old(self).budget > 0 ==> {
                let lit = spec_literal(token@);
                let w = mod_lookup(old(self).modules.mods@, old(self).current_module.0 as int, token@);
                let eval = old(self).mode@.len() == 0 || old(self).mode@.last() == Mode::Eval;
                match (lit, w) {
                    (None, None) => r matches Err(Error::UnknownWord(t)) && t@ == token@ && *final(self) == spent(*old(self)),
                    (Some(_), Some(_)) => r matches Err(Error::AmbiguousWord(t)) && t@ == token@
                        && *final(self) == (State { factory: final(self).factory, ..spent(*old(self)) }),
                    (Some(v), None) => (if eval {
                        r is Ok && stack_view(final(self).stack@) == stack_view(old(self).stack@).push(v)
                    } else {
                        match top_list(old(self).stack@) {
                            Some(l) => r is Ok && final(self).stack@.drop_last() == old(self).stack@.drop_last()
                                && final(self).stack@.len() == old(self).stack@.len()
                                && compiled_literal(final(self).stack@.last(), l, v),
                            None => r is Err,
                        }
                    }) && final(self).modules == old(self).modules && final(self).mode == old(self).mode
                        && final(self).current_module == old(self).current_module
                        && final(self).input_tokens == old(self).input_tokens
                        && final(self).budget == old(self).budget - 1,
                    (None, Some(id)) => {
                        &&& (!eval && id.0 < old(self).entries@.len() && old(self).entries@[id.0 as int].word is Word)
                            ==> match top_list(old(self).stack@) {
                            Some(l) => r is Ok && replaced_top_list(old(self).stack@, final(self).stack@, l.push(Object::Word(id))),
                            None => r is Err,
                        }
                        &&& (eval && id.0 < old(self).entries@.len() && old(self).budget > 4) ==> match literal_code(
                            word_body(old(self).entries@[id.0 as int].word)@,
                        ) {
                            Some(vs) => r is Ok && stack_view(final(self).stack@) == stack_view(old(self).stack@) + vs,
                            None => true,
                        }
                        &&& ((eval || old(self).entries@[id.0 as int].word is ParsingWord) && id.0 < old(self).entries@.len())
                            ==> State::post_call_object(spent(*old(self)), word_body(old(self).entries@[id.0 as int].word)@, *final(self), r)
                    },
                }
            },
            old(self).budget > 0 && old(self).mode@.len() > 0 && old(self).mode@.last() == Mode::Compile && plain_token(
                *old(self),
                token@,
            ) ==> *final(self) == (State {
                stack: final(self).stack,
                factory: final(self).factory,
                budget: (old(self).budget - 1) as u64,
                ..*old(self)
            }),
        decreases old(self).budget,
    {
        self.spend()?;
        let literal = self.factory.parse(token);
        let word = self.lookup(token);
        let mode = self.current_mode();
        match (literal, word) {
            (None, None) => Err(Error::UnknownWord(copy_chars(token))),
            (Some(_), Some(_)) => Err(Error::AmbiguousWord(copy_chars(token))),
            (Some(obj), None) => match mode {
                Mode::Eval => {
                    let ghost s0 = self.stack@;
                    self.push(obj)?;
                    assert(self.stack@.subrange(0, self.stack@.len() - 1) =~= s0);
                    Ok(())
                },
                Mode::Compile => {
                    let ghost o = obj;
                    let ghost s0 = self.stack@;
                    self.compile_object(obj)?;
                    proof {
                        match (s0.last(), self.stack@.last()) {
                            (Object::List(l), Object::List(w)) => {
                                assert(w@.subrange(0, l@.len() as int) =~= l@);
                            },
                            _ => {},
                        }
                    }
                    Ok(())
                },
            },
            (None, Some(id)) => {
                if id.0 >= self.entries.len() {
                    return Err(Error::UnknownWord(copy_chars(token)));
                }
                let (parsing, inner) = match &self.entries[id.0].word {
                    Word::Word(o) => (false, clone_object(o)),
                    Word::ParsingWord(o) => (true, clone_object(o)),
                };
                match mode {
                    Mode::Eval => self.call_object(&inner),
                    Mode::Compile => {
                        if parsing {
                            self.call_object(&inner)
                        } else {
                            self.compile_object(Object::Word(id))
                        }
                    },
                }
            },
        }
    }

    /// What `call_object` guarantees: it makes progress, code that only
    /// pushes values pushes them, and a native function, or a word that
    /// stands for one, does what the native operation does.
    pub open spec fn post_call_object(pre: State, obj: OView, post: State, r: Result<(), Error>) -> bool
        decreases pre.budget, 0nat,
    {
        &&& advanced(pre, post, r is Ok)
        &&& pre.budget > 0 ==> match obj {
            OView::Word(id) => id.0 < pre.entries@.len() ==> State::post_call_object(
                spent(pre),
                word_body(pre.entries@[id.0 as int].word)@,
                post,
                r,
            ),
            _ => true,
        }
        &&& pre.budget > 1 ==> match obj {
            OView::ByteCode(ops) => no_tail(ops) ==> runs(spent(spent(pre)), ops, post, r),
            OView::List(items) => runs(spent(spent(pre)), call_ops(items), post, r),
            _ => true,
        }
        &&& pre.budget > 2 ==> match obj {
            OView::Function(c) => builtin_post(callable_builtin(c), spent(spent(spent(pre))), post, r),
            _ => true,
        }
        &&& pre.budget > 3 ==> match obj {
            OView::Word(id) => id.0 < pre.entries@.len() ==> match word_body(pre.entries@[id.0 as int].word)@ {
                OView::Function(c) => builtin_post(callable_builtin(c), spent(spent(spent(spent(pre)))), post, r),
                _ => true,
            },
            _ => true,
        }
        &&& pre.budget > 2 ==> match literal_code(obj) {
            Some(vs) => r is Ok && stack_view(post.stack@) == stack_view(pre.stack@) + vs && post.budget == pre.budget - 2,
            None => true,
        }
    }

    /// Calls an object: a word runs what it stands for, a native function
    /// runs, code and quotations run, a table runs its `__call__` method.
    pub fn call_object(&mut self, obj: &Object) -> (r: Result<(), Error>)
        requires
            old(self).wf(),
        ensures
            advanced(*old(self), *final(self), r is Ok),
            old(self).budget > 2 ==> match literal_code(obj@) {
                Some(vs) => r is Ok && stack_view(final(self).stack@) == stack_view(old(self).stack@) + vs
                    && final(self).budget == old(self).budget - 2,
                None => true,
            },
            old(self).budget > 3 ==> match *obj {
                Object::Word(id) => id.0 < old(self).entries@.len() ==> match literal_code(
                    word_body(old(self).entries@[id.0 as int].word)@,
                ) {
                    Some(vs) => r is Ok && stack_view(final(self).stack@) == stack_view(old(self).stack@) + vs
                        && final(self).budget == old(self).budget - 3,
                    None => true,
                },
                _ => true,
            },
            State::post_call_object(*old(self), obj@, *final(self), r),
        decreases old(self).budget,
    {
        self.spend()?;
        match obj {
            Object::Word(id) => {
                if id.0 >= self.entries.len() {
                    return Err(type_error("unknown word"));
                }
                let inner = clone_object(self.entries[id.0].word.inner());
                self.call_object(&inner)
            },
            Object::Function(c) => c.call(self),
            Object::ByteCode(bc) => bc.run(self),
            Object::List(v) => {
                proof {
                    if literal_code(obj@) is Some {
                        lemma_no_calls_view(v@);
                    }
                }
                self.run_sequence(v)
            },
            Object::Table(t) => self.invoke_method(*t, "__call__"),
            _ => Err(type_error("not callable")),
        }
    }

    /// Runs compiled objects in order: words and native functions are
    /// called, every other object is pushed.
    pub fn run_sequence(&mut self, ops: &Vec<Object>) -> (r: Result<(), Error>)
        requires
            old(self).wf(),
        ensures
            advanced(*old(self), *final(self), r is Ok),
            old(self).budget > 0 && no_calls(ops@) ==> r is Ok
                && stack_view(final(self).stack@) == stack_view(old(self).stack@) + view_objs(ops@)
                && final(self).budget == old(self).budget - 1,
            old(self).budget > 0 ==> runs(spent(*old(self)), call_ops(view_objs(ops@)), *final(self), r),
        decreases old(self).budget,
    {
        self.spend()?;
        let ghost s0 = self.stack@;
        let ghost st0 = *self;
        let ghost cops = call_ops(view_objs(ops@));
        let mut i: usize = 0;
        proof {
            lemma_view_objs(s0);
            lemma_view_objs(ops@);
            assert(cops.subrange(0, 0) =~= Seq::<OpView>::empty());
        }
        while i < ops.len()
            invariant
                i <= ops@.len(),
                self.wf(),
                self.budget < old(self).budget,
                no_calls(ops@) ==> self.stack@ .len() == s0.len() + i && stack_view(self.stack@) == stack_view(s0) + view_objs(ops@.subrange(0, i as int))
                    && self.budget == old(self).budget - 1,
                s0 == old(self).stack@,
                st0 == spent(*old(self)),
                old(self).budget > 0,
                cops == call_ops(view_objs(ops@)),
                cops.len() == ops@.len(),
                forall|j: int| 0 <= j < ops@.len() ==> #[trigger] cops[j] == (if ops@[j] is Word || ops@[j] is Function {
                    OpView::Call(ops@[j]@)
                } else {
                    OpView::Push(ops@[j]@)
                }),
                runs(st0, cops.subrange(0, i as int), *self, Ok::<(), Error>(())),
            decreases ops@.len() - i,
        {
            let ghost before = *self;
            proof {
                lemma_runs_budget(st0, cops.subrange(0, i as int), *self, Ok::<(), Error>(()));
            }
            match &ops[i] {
                Object::Word(_) | Object::Function(_) => {
                    let res = self.call_object(&ops[i]);
                    proof {
                        lemma_runs_step(st0, cops, i as int, before, *self, res);
                    }
                    match res {
                        Ok(u) => {
                            assert(res == Ok::<(), Error>(()));
                        },
                        Err(e) => {
                            proof {
                                lemma_runs_err(st0, cops, i + 1, *self, res);
                            }
                            return Err(e);
                        },
                    }
                },
                o => {
                    let c = clone_object(o);
                    self.push(c)?;
                    proof {
                        lemma_view_objs_last(self.stack@);
                        assert(self.stack@.drop_last() =~= before.stack@);
                        assert(step(before, cops[i as int], *self, Ok::<(), Error>(())));
                        lemma_runs_step(st0, cops, i as int, before, *self, Ok::<(), Error>(()));
                        if no_calls(ops@) {
                            assert(self.stack@.subrange(0, self.stack@.len() - 1) =~= before.stack@);
                            assert(ops@.subrange(0, i + 1).subrange(0, i as int) =~= ops@.subrange(0, i as int));
                            assert(stack_view(self.stack@) =~= stack_view(before.stack@).push(view_obj(ops@[i as int])));
                            assert(view_objs(ops@.subrange(0, i + 1)) == view_objs(ops@.subrange(0, i as int)).push(view_obj(ops@[i as int])));
                            assert(stack_view(self.stack@) =~= stack_view(s0) + view_objs(ops@.subrange(0, i + 1)));
                        }
                    }
                },
            }
            i = i + 1;
        }
        assert(ops@.subrange(0, ops@.len() as int) =~= ops@);
        assert(cops.subrange(0, cops.len() as int) =~= cops);
        Ok(())
    }

    /// Calls the method of a table's meta table.
    pub fn invoke_method(&mut self, this: usize, name: &str) -> (r: Result<(), Error>)
        requires
            old(self).wf(),
        ensures
            advanced(*old(self), *final(self), r is Ok),
            old(self).budget > 0 ==> match meta_method(old(self).tables@, this, name@) {
                None => r matches Err(Error::AttributeError(_)),
                Some(m) => old(self).budget > 3 ==> match literal_code(m) {
                    Some(vs) => r is Ok && stack_view(final(self).stack@) == stack_view(old(self).stack@).push(
                        OView::Table(this),
                    ) + vs,
                    None => true,
                },
            },
        decreases old(self).budget,
    {
        self.spend()?;
        let n = chars_of(name);
        match self.meta_lookup(this, n.as_slice()) {
            Some(method) => {
                let ghost before = self.stack@;
                self.push(Object::Table(this))?;
                proof {
                    lemma_view_objs_last(self.stack@);
                    assert(self.stack@.drop_last() =~= before);
                }
                self.call_object(&method)
            },
            None => {
                let mut msg = chars_of("no ");
                crate::text::append_chars(&mut msg, n.as_slice());
                let rest = chars_of(" method in table");
                crate::text::append_chars(&mut msg, rest.as_slice());
                Err(Error::AttributeError(msg))
            },
        }
    }

    /// Pushes the attribute of a table named by the string on top: its own,
    /// or what the `__index__` method of its meta table gives.
    pub fn get_attribute(&mut self, this: &Object) -> (r: Result<(), Error>)
        requires
            old(self).wf(),
        ensures
            advanced(*old(self), *final(self), r is Ok),
            old(self).budget > 0 && !(*this is Table) ==> r is Err,
            old(self).budget > 0 ==> match (*this, old(self).stack@.last()) {
                (Object::Table(t), Object::String(a)) => (old(self).stack@.len() > 0 && t < old(self).tables@.len())
                    ==> match attr_lookup(old(self).tables@[t as int].attributes@, a@) {
                    Some(v) => r is Ok && stack_view(final(self).stack@) == stack_view(old(self).stack@.drop_last()).push(v@)
                        && final(self).tables == old(self).tables,
                    None => true,
                },
                _ => true,
            },
        decreases old(self).budget,
    {
        self.spend()?;
        let t = match this {
            Object::Table(t) => *t,
            _ => {
                return Err(type_error("get/set attribute not implemented"));
            },
        };
        let attr = self.pop()?.try_into_rc_string()?;
        match self.table_get_attr(t, attr.as_slice()) {
            Some(v) => {
                let ghost before = self.stack@;
                self.push(v)?;
                proof {
                    lemma_view_objs_last(self.stack@);
                    assert(self.stack@.drop_last() =~= before);
                }
                Ok(())
            },
            None => match self.meta_lookup(t, chars_of("__index__").as_slice()) {
                Some(idx) => {
                    self.push(Object::Table(t))?;
                    self.push(Object::String(attr))?;
                    self.call_object(&idx)?;
                    self.swap()?;
                    self.pop()?;
                    Ok(())
                },
                None => Err(Error::AttributeError(attr)),
            },
        }
    }

    /// Compiles up to the delimiter into a fresh list; on an error the list
    /// and the compile mode are dropped again.
    fn compile_until(&mut self, delimiter: &str) -> (r: Result<Vec<Object>, Error>)
        requires
            old(self).wf(),
        ensures
            advanced(*old(self), *final(self), r is Ok),
            old(self).budget > 1 && old(self).input_tokens@.len() == 0 ==> r == Err::<Vec<Object>, Error>(Error::EndOfInput),
            plain_until(*old(self), delimiter@) && old(self).budget > tok_pos(names_of(old(self).input_tokens@), delimiter@) + 2
                ==> {
                &&& r matches Ok(l) && view_objs(l@) == plain_before(*old(self), delimiter@)
                &&& final(self).input_tokens@ == old(self).input_tokens@.skip(tok_pos(names_of(old(self).input_tokens@), delimiter@) + 1)
                &&& final(self).stack@ == old(self).stack@
                &&& final(self).mode@ == old(self).mode@
                &&& final(self).modules == old(self).modules
                &&& final(self).current_module == old(self).current_module
                &&& final(self).entries == old(self).entries
                &&& final(self).budget == old(self).budget - 2 - tok_pos(names_of(old(self).input_tokens@), delimiter@)
            },
        decreases old(self).budget,
    {
        let ghost lit = plain_until(*self, delimiter@) && self.budget > tok_pos(names_of(self.input_tokens@), delimiter@) + 2;
        self.spend()?;
        self.begin_compile();
        let ghost s1 = *self;
        proof {
            if lit {
                assert(plain_until(s1, delimiter@));
                assert(plain_before(s1, delimiter@) == plain_before(*old(self), delimiter@));
                assert(top_list_view(s1.stack@) =~= Seq::<OView>::empty()) by {
                    assert(view_objs(s1.stack@.last()->List_0@) =~= Seq::<OView>::empty());
                }
            }
        }
        match self.parse_until(delimiter) {
            Ok(_) => {},
            Err(e) => {
                let _ = self.pop();
                self.end_compile();
                return Err(e);
            },
        }
        let ghost s2 = *self;
        let list = self.pop();
        self.end_compile();
        proof {
            if lit {
                assert(top_list_view(s2.stack@) =~= plain_before(*old(self), delimiter@));
                assert(self.stack@ =~= old(self).stack@);
            }
        }
        list?.into_rc_vec()
    }

    /// What `bi_colon` guarantees, as a relation between the state before
    /// and the state after.
    pub open spec fn post_bi_colon(pre: State, post: State, r: Result<(), Error>) -> bool {
        &&& (advanced(pre, post, r is Ok))
        &&& (pre.budget > 0 && pre.input_tokens@.len() == 0 ==> r == Err::<(), Error>(Error::EndOfInput))
        &&& (r is Ok ==> pre.input_tokens@.len() > 0 && defines_code(post, pre.input_tokens@[0]@, false))
        &&& (r is Ok && plain_definition(pre) && pre.current_module.0 < pre.modules.mods@.len() ==> (
            defined_word(post, pre.input_tokens@[0]@) matches Some(Word::Word(Object::ByteCode(bc))) && bc@
                == definition_body(pre).map_values(|v: OView| crate::vm::compiled_op(v))))
        &&& (r is Ok && plain_definition(pre) ==> definition_consumed(pre, post))
        &&& (plain_definition(pre) && tok_pos(names_of(pre.input_tokens@).drop_first(), ";"@) == 0 ==> r is Ok)
        &&& (plain_definition(pre) && tok_pos(names_of(pre.input_tokens@).drop_first(), ";"@) == 1 && spec_literal(
            names_of(pre.input_tokens@).drop_first()[0],
        ) is Some ==> r is Ok)
    }

    /// `: name ... ;` defines a word; its stack effect is that of its code.
    pub fn bi_colon(&mut self) -> (r: Result<(), Error>)
        requires
            old(self).wf(),
        ensures
            advanced(*old(self), *final(self), r is Ok),
            old(self).budget > 0 && old(self).input_tokens@.len() == 0 ==> r == Err::<(), Error>(Error::EndOfInput),
            r is Ok ==> old(self).input_tokens@.len() > 0 && defines_code(*final(self), old(self).input_tokens@[0]@, false),
            r is Ok && plain_definition(*old(self)) && old(self).current_module.0 < old(self).modules.mods@.len() ==> (
            defined_word(*final(self), old(self).input_tokens@[0]@) matches Some(Word::Word(Object::ByteCode(bc))) && bc@
                == definition_body(*old(self)).map_values(|v: OView| crate::vm::compiled_op(v))),
            r is Ok && plain_definition(*old(self)) ==> definition_consumed(*old(self), *final(self)),
            plain_definition(*old(self)) && tok_pos(names_of(old(self).input_tokens@).drop_first(), ";"@) == 0 ==> r is Ok,
            plain_definition(*old(self)) && tok_pos(names_of(old(self).input_tokens@).drop_first(), ";"@) == 1 && spec_literal(
                names_of(old(self).input_tokens@).drop_first()[0],
            ) is Some ==> r is Ok,
        decreases old(self).budget,
    {
        self.spend()?;
        let ghost s0 = *self;
        let name = match self.next_token() {
            Some(t) => t,
            None => {
                return Err(Error::EndOfInput);
            },
        };
        let ghost s1 = *self;
        assert(plain_definition(*old(self)) ==> plain_until(s1, ";"@) && plain_before(s1, ";"@) == definition_body(*old(self))
            && names_of(s1.input_tokens@) == names_of(old(self).input_tokens@).drop_first()) by {
            if plain_definition(*old(self)) {
                let toks = names_of(s1.input_tokens@);
                assert(toks =~= names_of(old(self).input_tokens@).drop_first());
                let j = tok_pos(toks, ";"@);
                assert(plain_values(s1, toks.take(j)) =~= plain_values(*old(self), toks.take(j)));
                assert forall|i: int| 0 <= i < j implies plain_token(s1, #[trigger] toks[i]) by {
                    assert(plain_token(*old(self), toks[i]));
                }
                assert(plain_until(s1, ";"@));
                assert(plain_before(s1, ";"@) == definition_body(*old(self)));
            }
        }
        let ghost jd = tok_pos(names_of(s1.input_tokens@), ";"@);
        assert(plain_definition(*old(self)) ==> s1.budget > jd + 2);
        let body = self.compile_until(";")?;
        assert(plain_definition(*old(self)) ==> self.input_tokens@ == s1.input_tokens@.skip(jd + 1));
        let ghost bv = view_objs(body@);
        let quot = to_bytecode(body);
        proof {
            lemma_view_objs(body@);
            if plain_definition(*old(self)) {
                assert(quot@ =~= definition_body(*old(self)).map_values(|v: OView| crate::vm::compiled_op(v)));
            }
        }
        proof {
            if plain_definition(*old(self)) {
                let toks = names_of(s1.input_tokens@);
                lemma_tok_pos_facts(toks, ";"@);
                assert(toks.len() == s1.input_tokens@.len());
                assert(names_of(self.input_tokens@) =~= toks.skip(jd + 1));
            }
        }
        proof {
            if plain_definition(*old(self)) && jd == 0 {
                assert(definition_body(*old(self)).len() == 0);
                assert(quot@.len() == 0);
            }
            let toks0 = names_of(old(self).input_tokens@).drop_first();
            if plain_definition(*old(self)) && jd == 1 && spec_literal(toks0[0]) is Some {
                let body = definition_body(*old(self));
                assert(toks0.take(1) =~= seq![toks0[0]]);
                assert(body.len() == 1);
                assert(plain_token(*old(self), toks0[0]));
                let v = body[0];
                assert(v == plain_value(*old(self), toks0[0]));
                assert(v is String || v is I32);
                lemma_view_ops(quot.ops@);
                assert(quot@.len() == 1);
                assert(quot@[0] == crate::vm::compiled_op(v));
                assert(quot@[0] is Push);
                assert(quot.ops@[0] is Push);
            }
        }
        let se = self.code_effect(&quot)?;
        let ghost cq = quot;
        self.add_compound_word(name.as_slice(), se, Object::ByteCode(quot));
        Ok(())
    }

    /// What `bi_syntax` guarantees, as a relation between the state before
    /// and the state after.
    pub open spec fn post_bi_syntax(pre: State, post: State, r: Result<(), Error>) -> bool {
        &&& (advanced(pre, post, r is Ok))
        &&& (pre.budget > 0 && pre.input_tokens@.len() == 0 ==> r == Err::<(), Error>(Error::EndOfInput))
        &&& (r is Ok ==> pre.input_tokens@.len() > 0 && defines_code(post, pre.input_tokens@[0]@, true))
    }

    /// `SYNTAX: name ... ;` defines a parsing word.
    pub fn bi_syntax(&mut self) -> (r: Result<(), Error>)
        requires
            old(self).wf(),
        ensures
            advanced(*old(self), *final(self), r is Ok),
            old(self).budget > 0 && old(self).input_tokens@.len() == 0 ==> r == Err::<(), Error>(Error::EndOfInput),
            r is Ok ==> old(self).input_tokens@.len() > 0 && defines_code(*final(self), old(self).input_tokens@[0]@, true),
        decreases old(self).budget,
    {
        self.spend()?;
        let name = match self.next_token() {
            Some(t) => t,
            None => {
                return Err(Error::EndOfInput);
            },
        };
        let body = self.compile_until(";")?;
        let quot = to_bytecode(body);
        self.add_compound_parse_word(name.as_slice(), Object::ByteCode(quot));
        Ok(())
    }

    /// What `bi_let` guarantees, as a relation between the state before
    /// and the state after.
    pub open spec fn post_bi_let(pre: State, post: State, r: Result<(), Error>) -> bool
        decreases pre.budget, 1nat,
    {
        &&& (advanced(pre, post, r is Ok))
        &&& (pre.budget > 0 && pre.input_tokens@.len() == 0 ==> r == Err::<(), Error>(Error::EndOfInput))
        &&& (r is Ok ==> pre.input_tokens@.len() > 0 && defines_value(post, pre.input_tokens@[0]@))
        &&& (r is Ok ==> let_defined(pre, post))
    }

    /// `LET: name ... ;` runs the code now and defines a word that pushes the
    /// value it leaves.
    pub fn bi_let(&mut self) -> (r: Result<(), Error>)
        requires
            old(self).wf(),
        ensures
            advanced(*old(self), *final(self), r is Ok),
            old(self).budget > 0 && old(self).input_tokens@.len() == 0 ==> r == Err::<(), Error>(Error::EndOfInput),
            r is Ok ==> old(self).input_tokens@.len() > 0 && defines_value(*final(self), old(self).input_tokens@[0]@),
            r is Ok ==> let_defined(*old(self), *final(self)),
        decreases old(self).budget,
    {
        self.spend()?;
        let name = match self.next_token() {
            Some(t) => t,
            None => {
                return Err(Error::EndOfInput);
            },
        };
        let body = self.compile_until(";")?;
        let quot = to_bytecode(body);
        let ghost c = *self;
        let ghost qv = quot@;
        self.call_object(&Object::ByteCode(quot))?;
        let ghost x = *self;
        let value = self.pop()?;
        let se = StackEffect::parse("( -- x)")?;
        let mut ops: Vec<Opcode> = Vec::new();
        ops.push(Opcode::Push(value));
        proof {
            lemma_view_ops(ops@);
        }
        let ghost opsv = ops@;
        self.add_compound_word(name.as_slice(), se, Object::ByteCode(ByteCode { ops }));
        proof {
            assert(view_obj(Object::ByteCode(quot)) == OView::ByteCode(qv));
            assert(State::post_call_object(c, OView::ByteCode(qv), x, Ok::<(), Error>(())));
            assert(x.stack@.len() > 0);
            assert(value == x.stack@.last());
            assert(view_ops(opsv) =~= seq![OpView::Push(view_obj(x.stack@.last()))]);
            assert(c.budget < old(self).budget);
            assert(self.stack@ == x.stack@.drop_last());
            assert(self.current_module.0 < self.modules.mods@.len() ==> (defined_word(*self, old(self).input_tokens@[0]@) matches Some(
                Word::Word(Object::ByteCode(bc)),
            ) && bc@ == seq![OpView::Push(view_obj(x.stack@.last()))])) by {
                if self.current_module.0 < self.modules.mods@.len() {
                    let e = self.entries@[self.entries@.len() - 1];
                    assert(e.word matches Word::Word(Object::ByteCode(bc)) && bc.ops@ == opsv);
                    assert(defined_word(*self, name@) == Some(e.word));
                    assert(name@ == old(self).input_tokens@[0]@);
                }
            }
            let pre0 = *old(self);
            let post0 = *self;
            assert(c.budget < pre0.budget
                && State::post_call_object(c, OView::ByteCode(qv), x, Ok::<(), Error>(()))
                && x.stack@.len() > 0
                && post0.stack@ == x.stack@.drop_last()
                && (post0.current_module.0 < post0.modules.mods@.len() ==> (defined_word(post0, pre0.input_tokens@[0]@) matches Some(
                Word::Word(Object::ByteCode(bc)),
            ) && bc@ == seq![OpView::Push(view_obj(x.stack@.last()))])));
            assert(qv.len() == qv.len() && c.budget == c.budget && x.stack == x.stack);
            assert(let_defined(pre0, post0));
        }
        Ok(())
    }

    /// What `bi_open_bracket` guarantees, as a relation between the state before
    /// and the state after.
    pub open spec fn post_bi_open_bracket(pre: State, post: State, r: Result<(), Error>) -> bool {
        &&& (advanced(pre, post, r is Ok))
        &&& (pre.budget > 2 && pre.input_tokens@.len() == 0 ==> r == Err::<(), Error>(Error::EndOfInput))
        &&& (plain_until(pre, "]"@) && pre.budget > tok_pos(names_of(pre.input_tokens@), "]"@) + 3 ==> match top_list(pre.stack@) {
                Some(l) => r is Ok && post.stack@.len() == pre.stack@.len()
                    && post.stack@.drop_last() == pre.stack@.drop_last()
                    && compiled_literal(post.stack@.last(), l, OView::List(plain_before(pre, "]"@)))
                    && post.input_tokens@ == pre.input_tokens@.skip(tok_pos(names_of(pre.input_tokens@), "]"@) + 1)
                    && post.mode@ == pre.mode@ && post.modules == pre.modules && post.entries == pre.entries
                    && post.current_module == pre.current_module
                    && post.budget == pre.budget - 3 - tok_pos(names_of(pre.input_tokens@), "]"@),
                None => r is Err,
            })
    }

    /// `[ ... ]` compiles a quotation into the code being compiled.
    pub fn bi_open_bracket(&mut self) -> (r: Result<(), Error>)
        requires
            old(self).wf(),
        ensures
            advanced(*old(self), *final(self), r is Ok),
            old(self).budget > 2 && old(self).input_tokens@.len() == 0 ==> r == Err::<(), Error>(Error::EndOfInput),
            plain_until(*old(self), "]"@) && old(self).budget > tok_pos(names_of(old(self).input_tokens@), "]"@) + 3 ==> match top_list(old(self).stack@) {
                Some(l) => r is Ok && final(self).stack@.len() == old(self).stack@.len()
                    && final(self).stack@.drop_last() == old(self).stack@.drop_last()
                    && compiled_literal(final(self).stack@.last(), l, OView::List(plain_before(*old(self), "]"@)))
                    && final(self).input_tokens@ == old(self).input_tokens@.skip(tok_pos(names_of(old(self).input_tokens@), "]"@) + 1)
                    && final(self).mode@ == old(self).mode@ && final(self).modules == old(self).modules
                    && final(self).entries == old(self).entries && final(self).current_module == old(self).current_module
                    && final(self).budget == old(self).budget - 3 - tok_pos(names_of(old(self).input_tokens@), "]"@),
                None => r is Err,
            },
        decreases old(self).budget,
    {
        self.spend()?;
        proof {
            let toks = names_of(self.input_tokens@);
            let j = tok_pos(toks, "]"@);
            assert(plain_values(*self, toks.take(j)) =~= plain_values(*old(self), toks.take(j)));
            assert(plain_before(*self, "]"@) == plain_before(*old(self), "]"@));
            if plain_until(*old(self), "]"@) {
                assert forall|i: int| 0 <= i < j implies plain_token(*self, #[trigger] toks[i]) by {
                    assert(plain_token(*old(self), toks[i]));
                }
                assert(plain_until(*self, "]"@));
            }
        }
        let body = self.compile_until("]")?;
        let ghost bv = body@;
        let ghost s1 = self.stack@;
        let r = self.compile_object(Object::List(body));
        proof {
            if self.stack@.len() > 0 && s1.len() > 0 {
                match (s1.last(), self.stack@.last()) {
                    (Object::List(l), Object::List(w)) => {
                        assert(w@.subrange(0, l@.len() as int) =~= l@);
                    },
                    _ => {},
                }
            }
        }
        r
    }

    /// What `bi_double_colon` guarantees, as a relation between the state before
    /// and the state after.
    pub open spec fn post_bi_double_colon(pre: State, post: State, r: Result<(), Error>, push_frame: WordId, pop_frame: WordId) -> bool {
        &&& (advanced(pre, post, r is Ok))
        &&& (pre.budget > 0 && pre.input_tokens@.len() == 0 ==> r == Err::<(), Error>(Error::EndOfInput))
        &&& (r is Ok ==> pre.input_tokens@.len() > 0 && defines_framed(
                post,
                pre.input_tokens@[0]@,
                push_frame,
                pop_frame,
            ))
    }

    /// `:: name ... ;` defines a word with local variables (`set`, `get`),
    /// which live in a frame of their own while the word runs.
    pub fn bi_double_colon(&mut self, push_frame: WordId, pop_frame: WordId) -> (r: Result<(), Error>)
        requires
            old(self).wf(),
        ensures
            advanced(*old(self), *final(self), r is Ok),
            old(self).budget > 0 && old(self).input_tokens@.len() == 0 ==> r == Err::<(), Error>(Error::EndOfInput),
            r is Ok ==> old(self).input_tokens@.len() > 0 && defines_framed(
                *final(self),
                old(self).input_tokens@[0]@,
                push_frame,
                pop_frame,
            ),
        decreases old(self).budget,
    {
        self.spend()?;
        let name = match self.next_token() {
            Some(t) => t,
            None => {
                return Err(Error::EndOfInput);
            },
        };
        self.scopes.push(crate::scope::CompilerScope::new());
        let body = match self.compile_until(";") {
            Ok(b) => b,
            Err(e) => {
                self.scopes.pop();
                return Err(e);
            },
        };
        let n = match self.scopes.pop() {
            Some(sc) => sc.len(),
            None => {
                return Err(Error::RuntimeError(chars_of("no scope")));
            },
        };
        let nv: i32 = if n <= 2147483647 {
            n as i32
        } else {
            return Err(Error::RuntimeError(chars_of("too many variables")));
        };
        let mut code: Vec<Object> = Vec::new();
        code.push(Object::I32(nv));
        code.push(Object::Word(push_frame));
        let mut body = body;
        code.append(&mut body);
        code.push(Object::I32(nv));
        code.push(Object::Word(pop_frame));
        let ghost cv = code@;
        let quot = to_bytecode(code);
        proof {
            let k = cv.len() as int;
            assert(quot@[0] == compiled_op(view_obj(cv[0])));
            assert(quot@[1] == compiled_op(view_obj(cv[1])));
            assert(quot@[k - 2] == compiled_op(view_obj(cv[k - 2])));
            assert(quot@[k - 1] == compiled_op(view_obj(cv[k - 1])));
            assert(framed_code(quot@, push_frame, pop_frame));
        }
        let se = self.code_effect(&quot)?;
        let ghost q = quot;
        self.add_compound_word(name.as_slice(), se, Object::ByteCode(quot));
        assert(defines_framed(*self, name@, push_frame, pop_frame)) by {
            if self.current_module.0 < self.modules.mods@.len() {
                assert(defined_word(*self, name@) == Some(Word::Word(Object::ByteCode(q))));
                assert(framed_code(q@, push_frame, pop_frame));
            }
        }
        Ok(())
    }

    /// What `bi_call` guarantees, as a relation between the state before
    /// and the state after.
    pub open spec fn post_bi_call(pre: State, post: State, r: Result<(), Error>) -> bool
        decreases pre.budget, 1nat,
    {
        &&& (pre.budget > 0 && pre.stack@.len() > 0 ==> exists|m: State|
            #![trigger popped(pre, m, 1)]
            popped(pre, m, 1) && State::post_call_object(m, pre.stack@.last()@, post, r))
        &&& (advanced(pre, post, r is Ok))
        &&& (pre.stack@.len() == 0 ==> r is Err)
        &&& (pre.budget > 3 && pre.stack@.len() > 0 ==> match literal_code(pre.stack@.last()@) {
                Some(vs) => r is Ok && stack_view(post.stack@) == stack_view(pre.stack@.drop_last()) + vs,
                None => true,
            })
    }

    /// `call (..a func(..a -- ..b) -- ..b)`.
    pub fn bi_call(&mut self) -> (r: Result<(), Error>)
        requires
            old(self).wf(),
        ensures
            advanced(*old(self), *final(self), r is Ok),
            old(self).stack@.len() == 0 ==> r is Err,
            old(self).budget > 3 && old(self).stack@.len() > 0 ==> match literal_code(old(self).stack@.last()@) {
                Some(vs) => r is Ok && stack_view(final(self).stack@) == stack_view(old(self).stack@.drop_last()) + vs,
                None => true,
            },
            old(self).budget > 0 && old(self).stack@.len() > 0 ==> exists|m: State|
                #![trigger popped(*old(self), m, 1)]
                popped(*old(self), m, 1) && State::post_call_object(m, old(self).stack@.last()@, *final(self), r),
        decreases old(self).budget,
    {
        self.spend()?;
        let func = self.pop()?;
        proof {
            assert(self.stack@ =~= old(self).stack@.subrange(0, old(self).stack@.len() - 1));
            assert(popped(*old(self), *self, 1));
        }
        self.call_object(&func)
    }

    /// What `bi_if` guarantees, as a relation between the state before
    /// and the state after.
    pub open spec fn post_bi_if(pre: State, post: State, r: Result<(), Error>) -> bool
        decreases pre.budget, 1nat,
    {
        &&& (pre.budget > 0 && pre.stack@.len() >= 3 && (pre.stack@[pre.stack@.len() - 3] is True
            || pre.stack@[pre.stack@.len() - 3] is False) ==> exists|m: State|
            #![trigger popped(pre, m, 3)]
            popped(pre, m, 3) && State::post_call_object(
                m,
                if pre.stack@[pre.stack@.len() - 3] is True {
                    pre.stack@[pre.stack@.len() - 2]@
                } else {
                    pre.stack@[pre.stack@.len() - 1]@
                },
                post,
                r,
            ))
        &&& (advanced(pre, post, r is Ok))
        &&& (pre.stack@.len() < 3 ==> r is Err)
        &&& (pre.stack@.len() >= 3 && !(pre.stack@[pre.stack@.len() - 3] is True
                || pre.stack@[pre.stack@.len() - 3] is False) ==> r is Err)
        &&& (pre.budget > 3 && pre.stack@.len() >= 3 && (pre.stack@[pre.stack@.len() - 3] is True
                || pre.stack@[pre.stack@.len() - 3] is False) ==> {
                let n = pre.stack@.len();
                let chosen = if pre.stack@[n - 3] is True {
                    pre.stack@[n - 2]
                } else {
                    pre.stack@[n - 1]
                };
                match literal_code(chosen@) {
                    Some(vs) => r is Ok && stack_view(post.stack@) == stack_view(pre.stack@.subrange(0, n - 3)) + vs,
                    None => true,
                }
            })
    }

    /// `if (..a ? true(..a -- ..b) false(..a -- ..b) -- ..b)`.
    pub fn bi_if(&mut self) -> (r: Result<(), Error>)
        requires
            old(self).wf(),
        ensures
            advanced(*old(self), *final(self), r is Ok),
            old(self).stack@.len() < 3 ==> r is Err,
            old(self).stack@.len() >= 3 && !(old(self).stack@[old(self).stack@.len() - 3] is True
                || old(self).stack@[old(self).stack@.len() - 3] is False) ==> r is Err,
            old(self).budget > 3 && old(self).stack@.len() >= 3 && (old(self).stack@[old(self).stack@.len() - 3] is True
                || old(self).stack@[old(self).stack@.len() - 3] is False) ==> {
                let n = old(self).stack@.len();
                let chosen = if old(self).stack@[n - 3] is True {
                    old(self).stack@[n - 2]
                } else {
                    old(self).stack@[n - 1]
                };
                match literal_code(chosen@) {
                    Some(vs) => r is Ok && stack_view(final(self).stack@) == stack_view(old(self).stack@.subrange(0, n - 3)) + vs,
                    None => true,
                }
            },
            old(self).budget > 0 && old(self).stack@.len() >= 3 && (old(self).stack@[old(self).stack@.len() - 3] is True
                || old(self).stack@[old(self).stack@.len() - 3] is False) ==> exists|m: State|
                #![trigger popped(*old(self), m, 3)]
                popped(*old(self), m, 3) && State::post_call_object(
                    m,
                    if old(self).stack@[old(self).stack@.len() - 3] is True {
                        old(self).stack@[old(self).stack@.len() - 2]@
                    } else {
                        old(self).stack@[old(self).stack@.len() - 1]@
                    },
                    *final(self),
                    r,
                ),
        decreases old(self).budget,
    {
        self.spend()?;
        let else_branch = self.pop()?;
        let if_branch = self.pop()?;
        let cond = self.pop()?.try_into_bool()?;
        assert(self.stack@ =~= old(self).stack@.subrange(0, old(self).stack@.len() - 3));
        assert(popped(*old(self), *self, 3));
        if cond {
            self.call_object(&if_branch)
        } else {
            self.call_object(&else_branch)
        }
    }

    /// What `bi_cond` guarantees, as a relation between the state before
    /// and the state after.
    pub open spec fn post_bi_cond(pre: State, post: State, r: Result<(), Error>) -> bool
        decreases pre.budget, 1nat,
    {
        &&& (pre.budget > 0 && pre.stack@.len() > 0 && pre.stack@.last() is List ==> exists|m: State|
            #![trigger popped(pre, m, 1)]
            popped(pre, m, 1) && cond_runs(m, view_objs(pre.stack@.last()->List_0@), 0, post, r))
        &&& (advanced(pre, post, r is Ok))
        &&& (pre.stack@.len() == 0 ==> r is Err)
        &&& (pre.budget > 0 && pre.stack@.len() > 0 ==> match pre.stack@.last() {
                Object::List(rows) => {
                    &&& rows@.len() == 0 ==> r is Err
                    &&& rows@.len() > 0 ==> match rows@[0] {
                        Object::List(row) => {
                            &&& row@.len() != 2 ==> r is Err
                            &&& (row@.len() == 2 && pre.budget > 6 && literal_code(row@[0]@) == Some(seq![OView::True]))
                                ==> match literal_code(row@[1]@) {
                                Some(vs) => r is Ok && stack_view(post.stack@) == stack_view(pre.stack@.drop_last()) + vs,
                                None => true,
                            }
                        },
                        _ => r is Err,
                    }
                },
                _ => r is Err,
            })
    }

    /// `cond (..a list -- ..b)`: runs the action of the first row whose
    /// condition gives true; each row is a list of a condition and an action.
    pub fn bi_cond(&mut self) -> (r: Result<(), Error>)
        requires
            old(self).wf(),
        ensures
            advanced(*old(self), *final(self), r is Ok),
            old(self).stack@.len() == 0 ==> r is Err,
            old(self).budget > 0 && old(self).stack@.len() > 0 ==> match old(self).stack@.last() {
                Object::List(rows) => {
                    &&& rows@.len() == 0 ==> r is Err
                    &&& rows@.len() > 0 ==> match rows@[0] {
                        Object::List(row) => {
                            &&& row@.len() != 2 ==> r is Err
                            &&& (row@.len() == 2 && old(self).budget > 6 && literal_code(row@[0]@) == Some(seq![OView::True]))
                                ==> match literal_code(row@[1]@) {
                                Some(vs) => r is Ok && stack_view(final(self).stack@) == stack_view(old(self).stack@.drop_last()) + vs,
                                None => true,
                            }
                        },
                        _ => r is Err,
                    }
                },
                _ => r is Err,
            },
            old(self).budget > 0 && old(self).stack@.len() > 0 && old(self).stack@.last() is List ==> exists|m: State|
                #![trigger popped(*old(self), m, 1)]
                popped(*old(self), m, 1) && cond_runs(m, view_objs(old(self).stack@.last()->List_0@), 0, *final(self), r),
        decreases old(self).budget,
    {
        self.spend()?;
        let list = self.pop()?;
        let rows = list.into_rc_vec()?;
        let ghost s1 = self.stack@;
        let ghost m0 = *self;
        let ghost rv = view_objs(rows@);
        proof {
            assert(self.stack@ =~= old(self).stack@.subrange(0, old(self).stack@.len() - 1));
            assert(popped(*old(self), m0, 1));
            lemma_view_objs(rows@);
        }
        let mut i: usize = 0;
        while i < rows.len()
            invariant
                i <= rows@.len(),
                self.wf(),
                self.budget < old(self).budget,
                i == 0 ==> self.stack@ == s1 && self.budget == old(self).budget - 1,
                old(self).stack@.len() > 0,
                old(self).stack@.last() is List && old(self).stack@.last()->List_0@ == rows@,
                s1 == old(self).stack@.drop_last(),
                i > 0 ==> rows@[0] is List && rows@[0]->List_0@.len() == 2 && !(old(self).budget > 6
                    && literal_code(rows@[0]->List_0@[0]@) == Some(seq![OView::True])),
                popped(*old(self), m0, 1),
                rv == view_objs(rows@),
                rv.len() == rows@.len(),
                forall|j: int| 0 <= j < rows@.len() ==> #[trigger] rv[j] == rows@[j]@,
                forall|p: State, rr: Result<(), Error>|
                    #[trigger] cond_runs(*self, rv, i as int, p, rr) ==> cond_runs(m0, rv, 0, p, rr),
            decreases rows@.len() - i,
        {
            let ghost s = *self;
            proof {
                assert(rv[i as int] == rows@[i as int]@);
            }
            match &rows[i] {
                Object::List(row) => {
                    proof {
                        lemma_view_objs(row@);
                    }
                    if row.len() == 2 {
                        let ghost before = self.stack@;
                        proof {
                            assert(view_objs(row@)[0] == row@[0]@);
                            assert(view_objs(row@)[1] == row@[1]@);
                        }
                        let res0 = self.call_object(&row[0]);
                        let ghost m1 = *self;
                        match res0 {
                            Ok(u) => {},
                            Err(e) => {
                                proof {
                                    assert(cond_runs(s, rv, i as int, *self, res0));
                                }
                                return Err(e);
                            },
                        }
                        proof {
                            if i == 0 && old(self).budget > 6 && literal_code(row@[0]@) == Some(seq![OView::True]) {
                                lemma_view_objs_last(self.stack@);
                                let v = stack_view(self.stack@);
                                assert(v =~= stack_view(before).push(OView::True));
                                assert(v.last() == OView::True);
                                assert(self.stack@.len() > 0);
                                assert(view_obj(self.stack@.last()) == OView::True);
                                assert(v.drop_last() =~= stack_view(before));
                                assert(stack_view(self.stack@.drop_last()) =~= stack_view(before));
                            }
                        }
                        let pb = self.pop_bool();
                        proof {
                            assert(m1.budget < s.budget);
                        }
                        match pb {
                            Ok(_) => {},
                            Err(e) => {
                                proof {
                                    if m1.stack@.len() > 0 {
                                        assert(top_taken(m1, *self));
                                    }
                                    assert(cond_runs(s, rv, i as int, *self, Err::<(), Error>(e)));
                                }
                                return Err(e);
                            },
                        }
                        let ghost m2 = *self;
                        proof {
                            assert(top_taken(m1, m2));
                        }
                        if pb.unwrap() {
                            proof {
                                if i == 0 && old(self).budget > 6 && literal_code(row@[0]@) == Some(seq![OView::True]) {
                                    assert(stack_view(self.stack@) == stack_view(s1));
                                    assert(self.budget == old(self).budget - 3);
                                    assert(row@ == old(self).stack@.last()->List_0@[0]->List_0@);
                                }
                            }
                            let ghost cur = self.stack@;
                            let res = self.call_object(&row[1]);
                            assert((i == 0 && old(self).budget > 6 && literal_code(row@[0]@) == Some(seq![OView::True]))
                                ==> match literal_code(row@[1]@) {
                                Some(vs) => res is Ok && stack_view(self.stack@) == stack_view(old(self).stack@.drop_last()) + vs,
                                None => true,
                            }) by {
                                if i == 0 && old(self).budget > 6 && literal_code(row@[0]@) == Some(seq![OView::True]) {
                                    if literal_code(row@[1]@) is Some {
                                        let vs = literal_code(row@[1]@)->Some_0;
                                        assert(stack_view(self.stack@) == stack_view(cur) + vs);
                                    }
                                }
                            }
                            proof {
                                assert(cond_runs(s, rv, i as int, *self, res));
                            }
                            return res;
                        }
                        proof {
                            let s2 = *self;
                            assert forall|p: State, rr: Result<(), Error>|
                                #[trigger] cond_runs(s2, rv, i + 1, p, rr) implies cond_runs(m0, rv, 0, p, rr) by {
                                assert(cond_runs(s, rv, i as int, p, rr));
                            }
                        }
                    } else {
                        let err = type_error("Expected list of conditions/actions");
                        proof {
                            assert(cond_runs(s, rv, i as int, *self, Err::<(), Error>(err)));
                        }
                        return Err(err);
                    }
                },
                _ => {
                    let err = type_error("Expected list of conditions/actions");
                    proof {
                        assert(cond_runs(s, rv, i as int, *self, Err::<(), Error>(err)));
                    }
                    return Err(err);
                },
            }
            i = i + 1;
        }
        let err = type_error("None of the conditions evaluated to true");
        proof {
            assert(cond_runs(*self, rv, i as int, *self, Err::<(), Error>(err)));
        }
        Err(err)
    }

    /// What `bi_repeat` guarantees, as a relation between the state before
    /// and the state after.
    pub open spec fn post_bi_repeat(pre: State, post: State, r: Result<(), Error>) -> bool
        decreases pre.budget, 1nat,
    {
        &&& (pre.budget > 0 && pre.stack@.len() >= 2 && pre.stack@[pre.stack@.len() - 2] is I32 ==> exists|m: State|
            #![trigger popped(pre, m, 2)]
            popped(pre, m, 2) && runs(m, repeat_ops(pre.stack@.last()@, pre.stack@[pre.stack@.len() - 2]->I32_0 as int), post, r))
        &&& (advanced(pre, post, r is Ok))
        &&& (pre.stack@.len() < 2 ==> r is Err)
        &&& (pre.budget > 0 && pre.stack@.len() >= 2 && non_positive(pre.stack@[pre.stack@.len() - 2]) ==>
                r is Ok && post.stack@ == pre.stack@.drop_last().drop_last())
        &&& (pre.stack@.len() >= 2 ==> match (pre.stack@[pre.stack@.len() - 2], literal_code(pre.stack@.last()@)) {
                (Object::I32(n), Some(vs)) => (n > 0 && pre.budget > 2 * n + 3) ==> r is Ok && stack_view(post.stack@)
                    == stack_view(pre.stack@.drop_last().drop_last()) + repeated(vs, n as nat),
                _ => true,
            })
    }

    /// `repeat (..x n f(..x -- ..y) -- ..y)`: calls `f` `n` times.
    pub fn bi_repeat(&mut self) -> (r: Result<(), Error>)
        requires
            old(self).wf(),
        ensures
            advanced(*old(self), *final(self), r is Ok),
            old(self).stack@.len() < 2 ==> r is Err,
            old(self).budget > 0 && old(self).stack@.len() >= 2 && non_positive(old(self).stack@[old(self).stack@.len() - 2]) ==>
                r is Ok && final(self).stack@ == old(self).stack@.drop_last().drop_last(),
            old(self).stack@.len() >= 2 ==> match (old(self).stack@[old(self).stack@.len() - 2], literal_code(old(self).stack@.last()@)) {
                (Object::I32(n), Some(vs)) => (n > 0 && old(self).budget > 2 * n + 3) ==> r is Ok && stack_view(final(self).stack@)
                    == stack_view(old(self).stack@.drop_last().drop_last()) + repeated(vs, n as nat),
                _ => true,
            },
            old(self).budget > 0 && old(self).stack@.len() >= 2 && old(self).stack@[old(self).stack@.len() - 2] is I32 ==> exists|m: State|
                #![trigger popped(*old(self), m, 2)]
                popped(*old(self), m, 2) && runs(
                    m,
                    repeat_ops(old(self).stack@.last()@, old(self).stack@[old(self).stack@.len() - 2]->I32_0 as int),
                    *final(self),
                    r,
                ),
        decreases old(self).budget,
    {
        self.spend()?;
        let callee = self.pop()?;
        let n = self.pop_i32()?;
        let ghost s1 = self.stack@;
        let ghost m0 = *self;
        let ghost rops = repeat_ops(callee@, n as int);
        proof {
            assert(self.stack@ =~= old(self).stack@.subrange(0, old(self).stack@.len() - 2));
            assert(popped(*old(self), m0, 2));
            assert(rops.subrange(0, 0) =~= Seq::<OpView>::empty());
        }
        let ghost lit = literal_code(callee@);
        proof {
            lemma_view_objs(s1);
        }
        let mut i: i32 = 0;
        while i < n
            invariant
                self.wf(),
                self.budget < old(self).budget,
                0 <= i,
                i <= n || n <= 0,
                n <= 0 ==> self.stack@ == s1,
                old(self).stack@.len() >= 2 && old(self).stack@[old(self).stack@.len() - 2] == Object::I32(n),
                s1 == old(self).stack@.drop_last().drop_last(),
                callee == old(self).stack@.last(),
                lit == literal_code(callee@),
                lit is Some && old(self).budget > 2 * n + 3 ==> self.budget == old(self).budget - 1 - 2 * i
                    && stack_view(self.stack@) == stack_view(s1) + repeated(lit->Some_0, i as nat),
                rops == repeat_ops(callee@, n as int),
                popped(*old(self), m0, 2),
                n > 0 ==> runs(m0, rops.subrange(0, i as int), *self, Ok::<(), Error>(())),
                n <= 0 ==> *self == m0,
            decreases n - i,
        {
            let ghost before = *self;
            proof {
                lemma_runs_budget(m0, rops.subrange(0, i as int), *self, Ok::<(), Error>(()));
            }
            let res = self.call_object(&callee);
            proof {
                lemma_runs_step(m0, rops, i as int, before, *self, res);
            }
            match res {
                Ok(u) => {
                    assert(res == Ok::<(), Error>(()));
                },
                Err(e) => {
                    proof {
                        lemma_runs_err(m0, rops, i + 1, *self, res);
                    }
                    return Err(e);
                },
            }
            proof {
                if lit is Some && old(self).budget > 2 * n + 3 {
                    assert(repeated(lit->Some_0, (i + 1) as nat) == repeated(lit->Some_0, i as nat) + lit->Some_0);
                    assert(stack_view(self.stack@) =~= stack_view(s1) + repeated(lit->Some_0, (i + 1) as nat));
                }
            }
            i = i + 1;
        }
        proof {
            if n > 0 {
                assert(i == n);
                assert(rops.subrange(0, i as int) =~= rops);
            } else {
                assert(rops =~= Seq::<OpView>::empty());
            }
        }
        Ok(())
    }

    /// What `bi_for` guarantees, as a relation between the state before
    /// and the state after.
    pub open spec fn post_bi_for(pre: State, post: State, r: Result<(), Error>) -> bool
        decreases pre.budget, 1nat,
    {
        &&& (pre.budget > 0 && pre.stack@.len() >= 3 && int_pair(pre.stack@.drop_last()) is Some ==> exists|m: State|
            #![trigger popped(pre, m, 3)]
            popped(pre, m, 3) && runs(
                m,
                for_ops(pre.stack@.last()@, int_pair(pre.stack@.drop_last())->Some_0.0, int_pair(pre.stack@.drop_last())->Some_0.1),
                post,
                r,
            ))
        &&& (advanced(pre, post, r is Ok))
        &&& (pre.stack@.len() < 3 ==> r is Err)
        &&& (pre.budget > 0 && pre.stack@.len() >= 3 && empty_range(int_pair(pre.stack@.drop_last())) ==>
                r is Ok && post.stack@ == pre.stack@.drop_last().drop_last().drop_last())
        &&& (pre.stack@.len() >= 3 ==> match (int_pair(pre.stack@.drop_last()), literal_code(pre.stack@.last()@)) {
                (Some((a, b)), Some(vs)) => (a < b && pre.budget > 2 * (b - a) + 3) ==> r is Ok
                    && stack_view(post.stack@) == stack_view(pre.stack@.drop_last().drop_last().drop_last())
                    + counted(vs, a as int, (b - a) as nat),
                _ => true,
            })
    }

    /// `for (..x a b f(..x i -- ..y) -- ..y)`: calls `f` with `i` from `a`
    /// up to, not including, `b`.
    pub fn bi_for(&mut self) -> (r: Result<(), Error>)
        requires
            old(self).wf(),
        ensures
            advanced(*old(self), *final(self), r is Ok),
            old(self).stack@.len() < 3 ==> r is Err,
            old(self).budget > 0 && old(self).stack@.len() >= 3 && empty_range(int_pair(old(self).stack@.drop_last())) ==>
                r is Ok && final(self).stack@ == old(self).stack@.drop_last().drop_last().drop_last(),
            old(self).stack@.len() >= 3 ==> match (int_pair(old(self).stack@.drop_last()), literal_code(old(self).stack@.last()@)) {
                (Some((a, b)), Some(vs)) => (a < b && old(self).budget > 2 * (b - a) + 3) ==> r is Ok
                    && stack_view(final(self).stack@) == stack_view(old(self).stack@.drop_last().drop_last().drop_last())
                    + counted(vs, a as int, (b - a) as nat),
                _ => true,
            },
            old(self).budget > 0 && old(self).stack@.len() >= 3 && int_pair(old(self).stack@.drop_last()) is Some ==> exists|m: State|
                #![trigger popped(*old(self), m, 3)]
                popped(*old(self), m, 3) && runs(
                    m,
                    for_ops(
                        old(self).stack@.last()@,
                        int_pair(old(self).stack@.drop_last())->Some_0.0,
                        int_pair(old(self).stack@.drop_last())->Some_0.1,
                    ),
                    *final(self),
                    r,
                ),
        decreases old(self).budget,
    {
        self.spend()?;
        let callee = self.pop()?;
        let b = self.pop_i32()?;
        let a = self.pop_i32()?;
        let ghost s1 = self.stack@;
        let ghost m0 = *self;
        let ghost fops = for_ops(callee@, a, b);
        proof {
            assert(self.stack@ =~= old(self).stack@.subrange(0, old(self).stack@.len() - 3));
            assert(popped(*old(self), m0, 3));
            assert(fops.subrange(0, 0) =~= Seq::<OpView>::empty());
        }
        let ghost lit = literal_code(callee@);
        proof {
            lemma_view_objs(s1);
        }
        let mut i: i32 = a;
        while i < b
            invariant
                self.wf(),
                self.budget < old(self).budget,
                a <= i,
                i <= b || a >= b,
                a >= b ==> self.stack@ == s1,
                int_pair(old(self).stack@.drop_last()) == Some((a, b)),
                s1 == old(self).stack@.drop_last().drop_last().drop_last(),
                callee == old(self).stack@.last(),
                lit == literal_code(callee@),
                lit is Some && old(self).budget > 2 * (b - a) + 3 ==> self.budget == old(self).budget - 1 - 2 * (i - a)
                    && stack_view(self.stack@) == stack_view(s1) + counted(lit->Some_0, a as int, (i - a) as nat),
                fops == for_ops(callee@, a, b),
                popped(*old(self), m0, 3),
                a < b ==> runs(m0, fops.subrange(0, 2 * (i - a)), *self, Ok::<(), Error>(())),
                a >= b ==> *self == m0,
            decreases b - i,
        {
            let ghost before = self.stack@;
            let ghost bst = *self;
            proof {
                lemma_runs_budget(m0, fops.subrange(0, 2 * (i - a)), *self, Ok::<(), Error>(()));
                assert(fops[2 * (i - a)] == OpView::Push(OView::I32(i)));
            }
            self.push(Object::I32(i))?;
            proof {
                lemma_view_objs_last(self.stack@);
                assert(self.stack@.drop_last() =~= before);
                assert(step(bst, fops[2 * (i - a)], *self, Ok::<(), Error>(())));
                lemma_runs_step(m0, fops, 2 * (i - a), bst, *self, Ok::<(), Error>(()));
                lemma_runs_budget(m0, fops.subrange(0, 2 * (i - a) + 1), *self, Ok::<(), Error>(()));
                assert(fops[2 * (i - a) + 1] == OpView::Call(callee@));
            }
            let ghost cst = *self;
            let res = self.call_object(&callee);
            proof {
                lemma_runs_step(m0, fops, 2 * (i - a) + 1, cst, *self, res);
            }
            match res {
                Ok(u) => {
                    assert(res == Ok::<(), Error>(()));
                },
                Err(e) => {
                    proof {
                        lemma_runs_err(m0, fops, 2 * (i - a) + 2, *self, res);
                    }
                    return Err(e);
                },
            }
            proof {
                if lit is Some && old(self).budget > 2 * (b - a) + 3 {
                    let vs = lit->Some_0;
                    assert(counted(vs, a as int, (i + 1 - a) as nat) == counted(vs, a as int, (i - a) as nat).push(OView::I32(i)) + vs);
                    assert(stack_view(self.stack@) =~= stack_view(s1) + counted(vs, a as int, (i + 1 - a) as nat));
                }
            }
            i = i + 1;
        }
        proof {
            if a < b {
                assert(i == b);
                assert(fops.subrange(0, 2 * (i - a)) =~= fops);
            } else {
                assert(fops =~= Seq::<OpView>::empty());
            }
        }
        Ok(())
    }

    /// What `bi_while` guarantees, as a relation between the state before
    /// and the state after.
    pub open spec fn post_bi_while(pre: State, post: State, r: Result<(), Error>) -> bool
        decreases pre.budget, 1nat,
    {
        &&& (pre.budget > 0 && pre.stack@.len() >= 2 ==> exists|m: State|
            #![trigger popped(pre, m, 2)]
            popped(pre, m, 2) && while_runs(m, pre.stack@[pre.stack@.len() - 2]@, pre.stack@.last()@, post, r))
        &&& (advanced(pre, post, r is Ok))
        &&& (pre.stack@.len() < 2 ==> r is Err)
        &&& (pre.budget > 3 && pre.stack@.len() >= 2
                && literal_code(pre.stack@[pre.stack@.len() - 2]@) == Some(seq![OView::False]) ==> r is Ok
                && stack_view(post.stack@) == stack_view(pre.stack@.drop_last().drop_last()))
    }

    /// `while (..a cond(..a -- ..b ?) f(..b -- ..c) -- ..c)`: calls `f` as
    /// long as `cond` gives true.
    pub fn bi_while(&mut self) -> (r: Result<(), Error>)
        requires
            old(self).wf(),
        ensures
            advanced(*old(self), *final(self), r is Ok),
            old(self).stack@.len() < 2 ==> r is Err,
            old(self).budget > 3 && old(self).stack@.len() >= 2
                && literal_code(old(self).stack@[old(self).stack@.len() - 2]@) == Some(seq![OView::False]) ==> r is Ok
                && stack_view(final(self).stack@) == stack_view(old(self).stack@.drop_last().drop_last()),
            old(self).budget > 0 && old(self).stack@.len() >= 2 ==> exists|m: State|
                #![trigger popped(*old(self), m, 2)]
                popped(*old(self), m, 2) && while_runs(
                    m,
                    old(self).stack@[old(self).stack@.len() - 2]@,
                    old(self).stack@.last()@,
                    *final(self),
                    r,
                ),
        decreases old(self).budget,
    {
        self.spend()?;
        let callee = self.pop()?;
        let cond = self.pop()?;
        let ghost s1 = self.stack@;
        let ghost m0 = *self;
        proof {
            assert(self.stack@ =~= old(self).stack@.subrange(0, old(self).stack@.len() - 2));
            assert(popped(*old(self), m0, 2));
        }
        let ghost stops = old(self).budget > 3 && literal_code(cond@) == Some(seq![OView::False]);
        loop
            invariant_except_break
                stops ==> self.stack@ == s1 && self.budget == old(self).budget - 1,
                forall|p: State, rr: Result<(), Error>|
                    #[trigger] while_runs(*self, cond@, callee@, p, rr) ==> while_runs(m0, cond@, callee@, p, rr),
            invariant
                self.wf(),
                self.budget < old(self).budget,
                s1 == old(self).stack@.drop_last().drop_last(),
                old(self).stack@.len() >= 2,
                cond == old(self).stack@[old(self).stack@.len() - 2],
                stops == (old(self).budget > 3 && literal_code(cond@) == Some(seq![OView::False])),
                callee == old(self).stack@.last(),
                popped(*old(self), m0, 2),
            ensures
                self.wf(),
                self.budget < old(self).budget,
                stops ==> stack_view(self.stack@) == stack_view(s1),
                while_runs(m0, cond@, callee@, *self, Ok::<(), Error>(())),
            decreases self.budget,
        {
            let ghost before = self.stack@;
            let ghost s = *self;
            let res = self.call_object(&cond);
            let ghost m1 = *self;
            match res {
                Ok(u) => {},
                Err(e) => {
                    proof {
                        assert(while_runs(s, cond@, callee@, *self, res));
                    }
                    return Err(e);
                },
            }
            proof {
                if stops {
                    lemma_view_objs_last(self.stack@);
                    lemma_view_objs_last(before);
                    let v = stack_view(self.stack@);
                    assert(v =~= stack_view(before).push(OView::False));
                    assert(v.drop_last() =~= stack_view(before));
                    assert(v.last() == OView::False);
                    assert(self.stack@.len() > 0);
                    assert(view_obj(self.stack@.last()) == OView::False);
                    assert(stack_view(self.stack@.drop_last()) =~= stack_view(before));
                }
            }
            let pb = self.pop_bool();
            let ghost m2 = *self;
            match pb {
                Ok(true) => {
                    proof {
                        assert(top_taken(m1, m2));
                    }
                    let res2 = self.call_object(&callee);
                    match res2 {
                        Ok(u) => {
                            proof {
                                let s2 = *self;
                                assert forall|p: State, rr: Result<(), Error>|
                                    #[trigger] while_runs(s2, cond@, callee@, p, rr) implies while_runs(m0, cond@, callee@, p, rr) by {
                                    assert(s2.budget < m2.budget);
                                    assert(while_runs(s, cond@, callee@, p, rr));
                                }
                            }
                        },
                        Err(e) => {
                            proof {
                                assert(while_runs(s, cond@, callee@, *self, res2));
                            }
                            return Err(e);
                        },
                    }
                },
                Ok(false) => {
                    proof {
                        assert(top_taken(m1, *self));
                        assert(while_runs(s, cond@, callee@, *self, Ok::<(), Error>(())));
                    }
                    break;
                },
                Err(e) => {
                    proof {
                        assert(m1.budget < s.budget);
                        if m1.stack@.len() > 0 {
                            assert(top_taken(m1, *self));
                        }
                        assert(while_runs(s, cond@, callee@, *self, Err::<(), Error>(e)));
                    }
                    return Err(e);
                },
            }
        }
        Ok(())
    }

    /// What `bi_repr` guarantees, as a relation between the state before
    /// and the state after.
    pub open spec fn post_bi_repr(pre: State, post: State, r: Result<(), Error>) -> bool {
        &&& (advanced(pre, post, r is Ok))
        &&& (pre.stack@.len() == 0 ==> r is Err)
        &&& (pre.budget > 0 && pre.stack@.len() > 0 ==> match simple_repr(pre.stack@.last()) {
                Some(t) => r is Ok && stack_view(post.stack@) == stack_view(pre.stack@.drop_last()).push(OView::String(t))
                    && post.stack@.len() == pre.stack@.len()
                    && post.stack@.drop_last() == pre.stack@.drop_last()
                    && (post.stack@.last() matches Object::String(u) && u@ == t)
                    && post.output == pre.output,
                None => true,
            })
    }

    /// `repr (x -- s)`: the text of a value; a table may give its own with a
    /// `__repr__` method.
    pub fn bi_repr(&mut self) -> (r: Result<(), Error>)
        requires
            old(self).wf(),
        ensures
            advanced(*old(self), *final(self), r is Ok),
            old(self).stack@.len() == 0 ==> r is Err,
            old(self).budget > 0 && old(self).stack@.len() > 0 ==> match simple_repr(old(self).stack@.last()) {
                Some(t) => r is Ok && stack_view(final(self).stack@) == stack_view(old(self).stack@.drop_last()).push(OView::String(t))
                    && final(self).stack@.len() == old(self).stack@.len()
                    && final(self).stack@.drop_last() == old(self).stack@.drop_last()
                    && (final(self).stack@.last() matches Object::String(u) && u@ == t)
                    && final(self).output == old(self).output,
                None => true,
            },
        decreases old(self).budget,
    {
        self.spend()?;
        let x = self.pop()?;
        if let Object::Table(t) = x {
            match self.meta_lookup(t, chars_of("__repr__").as_slice()) {
                Some(m) => {
                    self.push(Object::Table(t))?;
                    return self.call_object(&m);
                },
                None => {},
            }
        }
        let s = self.repr_sys(&x);
        self.push_string(s)
    }

    /// What `bi_not` guarantees, as a relation between the state before
    /// and the state after.
    pub open spec fn post_bi_not(pre: State, post: State, r: Result<(), Error>) -> bool {
        &&& (advanced(pre, post, r is Ok))
        &&& (pre.budget > 0 && pre.stack@.len() > 0 ==> match pre.stack@.last() {
                Object::True => r is Ok && post.stack@ == pre.stack@.drop_last().push(Object::False),
                Object::False => r is Ok && post.stack@ == pre.stack@.drop_last().push(Object::True),
                _ => r is Err,
            })
        &&& (pre.stack@.len() == 0 ==> r is Err)
    }

    /// `not (? -- !?)`.
    pub fn bi_not(&mut self) -> (r: Result<(), Error>)
        requires
            old(self).wf(),
        ensures
            advanced(*old(self), *final(self), r is Ok),
            old(self).budget > 0 && old(self).stack@.len() > 0 ==> match old(self).stack@.last() {
                Object::True => r is Ok && final(self).stack@ == old(self).stack@.drop_last().push(Object::False),
                Object::False => r is Ok && final(self).stack@ == old(self).stack@.drop_last().push(Object::True),
                _ => r is Err,
            },
            old(self).stack@.len() == 0 ==> r is Err,
        decreases old(self).budget,
    {
        self.spend()?;
        match self.pop()? {
            Object::True => self.push(Object::False),
            Object::False => self.push(Object::True),
            _ => Err(type_error("Cannot logically invert")),
        }
    }

    /// What `bi_eq` guarantees, as a relation between the state before
    /// and the state after.
    pub open spec fn post_bi_eq(pre: State, post: State, r: Result<(), Error>) -> bool {
        &&& (advanced(pre, post, r is Ok))
        &&& (pre.budget > 0 && pre.stack@.len() >= 2 && !(pre.stack@.last() is Table) ==> {
                let s = pre.stack@;
                match eq_result(s.last(), s[s.len() - 2]) {
                    Some(b) => r is Ok && post.stack@ == s.drop_last().drop_last().push(
                        if b { Object::True } else { Object::False }) && post.budget == pre.budget - 1,
                    None => r is Err,
                }
            })
        &&& (pre.stack@.len() < 2 ==> r is Err)
    }

    /// `== (a b -- ?)`: equality of values of the same type; a table on top
    /// decides with its `__eq__` method.
    pub fn bi_eq(&mut self) -> (r: Result<(), Error>)
        requires
            old(self).wf(),
        ensures
            advanced(*old(self), *final(self), r is Ok),
            old(self).budget > 0 && old(self).stack@.len() >= 2 && !(old(self).stack@.last() is Table) ==> {
                let s = old(self).stack@;
                match eq_result(s.last(), s[s.len() - 2]) {
                    Some(b) => r is Ok && final(self).stack@ == s.drop_last().drop_last().push(
                        if b { Object::True } else { Object::False }) && final(self).budget == old(self).budget - 1,
                    None => r is Err,
                }
            },
            old(self).stack@.len() < 2 ==> r is Err,
        decreases old(self).budget,
    {
        self.spend()?;
        let this = self.pop()?;
        let other = self.pop()?;
        match (this, other) {
            (Object::Nil, Object::Nil) => self.push(Object::True),
            (Object::False, Object::False) => self.push(Object::True),
            (Object::True, Object::True) => self.push(Object::True),
            (Object::I32(a), Object::I32(b)) => self.push(Object::from_bool(a == b)),
            (Object::String(a), Object::String(b)) => self.push(Object::from_bool(chars_eq(a.as_slice(), b.as_slice()))),
            (Object::Table(a), other) => {
                self.push(other)?;
                self.invoke_method(a, "__eq__")
            },
            _ => Err(type_error("is_eq not implemented")),
        }
    }

    /// What `bi_ne` guarantees, as a relation between the state before
    /// and the state after.
    pub open spec fn post_bi_ne(pre: State, post: State, r: Result<(), Error>) -> bool {
        &&& (advanced(pre, post, r is Ok))
        &&& (pre.budget > 2 && pre.stack@.len() >= 2 && !(pre.stack@.last() is Table) ==> {
                let s = pre.stack@;
                match eq_result(s.last(), s[s.len() - 2]) {
                    Some(b) => r is Ok && post.stack@ == s.drop_last().drop_last().push(
                        if b { Object::False } else { Object::True }),
                    None => r is Err,
                }
            })
        &&& (pre.stack@.len() < 2 ==> r is Err)
    }

    /// `!= (a b -- ?)`.
    pub fn bi_ne(&mut self) -> (r: Result<(), Error>)
        requires
            old(self).wf(),
        ensures
            advanced(*old(self), *final(self), r is Ok),
            old(self).budget > 2 && old(self).stack@.len() >= 2 && !(old(self).stack@.last() is Table) ==> {
                let s = old(self).stack@;
                match eq_result(s.last(), s[s.len() - 2]) {
                    Some(b) => r is Ok && final(self).stack@ == s.drop_last().drop_last().push(
                        if b { Object::False } else { Object::True }),
                    None => r is Err,
                }
            },
            old(self).stack@.len() < 2 ==> r is Err,
        decreases old(self).budget,
    {
        self.spend()?;
        self.bi_eq()?;
        self.bi_not()
    }

    /// What `bi_compare` guarantees, as a relation between the state before
    /// and the state after.
    pub open spec fn post_bi_compare(pre: State, post: State, r: Result<(), Error>, b: Builtin) -> bool {
        &&& (advanced(pre, post, r is Ok))
        &&& (pre.budget > 0 ==> match int_pair(pre.stack@) {
                Some((y, x)) => r is Ok && post.stack@ == pre.stack@.drop_last().drop_last().push(
                    if compare_result(b, x, y) { Object::True } else { Object::False }),
                None => true,
            })
        &&& (pre.stack@.len() < 2 ==> r is Err)
    }

    /// `< > <= >=`: comparisons of integers, the top one on the left; a table
    /// on top decides with its `__lt__`, `__gt__`, `__le__` or `__ge__`.
    pub fn bi_compare(&mut self, b: Builtin) -> (r: Result<(), Error>)
        requires
            old(self).wf(),
        ensures
            advanced(*old(self), *final(self), r is Ok),
            old(self).budget > 0 ==> match int_pair(old(self).stack@) {
                Some((y, x)) => r is Ok && final(self).stack@ == old(self).stack@.drop_last().drop_last().push(
                    if compare_result(b, x, y) { Object::True } else { Object::False }),
                None => true,
            },
            old(self).stack@.len() < 2 ==> r is Err,
        decreases old(self).budget,
    {
        self.spend()?;
        let this = self.pop()?;
        let other = self.pop()?;
        match (this, other) {
            (Object::I32(x), Object::I32(y)) => {
                let v = match b {
                    Builtin::Lt => x < y,
                    Builtin::Gt => x > y,
                    Builtin::Le => x <= y,
                    _ => x >= y,
                };
                self.push(Object::from_bool(v))
            },
            (Object::Table(t), other) => {
                self.push(other)?;
                let name = match b {
                    Builtin::Lt => "__lt__",
                    Builtin::Gt => "__gt__",
                    Builtin::Le => "__le__",
                    _ => "__ge__",
                };
                self.invoke_method(t, name)
            },
            _ => Err(type_error("comparison not implemented")),
        }
    }

    /// What `bi_arith` guarantees, as a relation between the state before
    /// and the state after.
    pub open spec fn post_bi_arith(pre: State, post: State, r: Result<(), Error>, b: Builtin) -> bool {
        &&& (advanced(pre, post, r is Ok))
        &&& (pre.budget > 0 ==> match int_pair(pre.stack@) {
                Some((y, x)) => match arith_result(b, y, x) {
                    Some(v) => r is Ok && post.stack@ == pre.stack@.drop_last().drop_last().push(Object::I32(v)),
                    None => r is Err,
                },
                None => true,
            })
        &&& (pre.stack@.len() < 2 ==> r is Err)
    }

    /// `+ - * /`: integer arithmetic, the top value on the right and
    /// wrapping on overflow; a table on top uses its `__add__`, `__sub__`,
    /// `__mul__` or `__div__` method.
    pub fn bi_arith(&mut self, b: Builtin) -> (r: Result<(), Error>)
        requires
            old(self).wf(),
        ensures
            advanced(*old(self), *final(self), r is Ok),
            old(self).budget > 0 ==> match int_pair(old(self).stack@) {
                Some((y, x)) => match arith_result(b, y, x) {
                    Some(v) => r is Ok && final(self).stack@ == old(self).stack@.drop_last().drop_last().push(Object::I32(v)),
                    None => r is Err,
                },
                None => true,
            },
            old(self).stack@.len() < 2 ==> r is Err,
        decreases old(self).budget,
    {
        self.spend()?;
        let this = self.pop()?;
        let other = self.pop()?;
        match (this, other) {
            (Object::I32(x), Object::I32(y)) => {
                let v = match b {
                    Builtin::Add => y.wrapping_add(x),
                    Builtin::Sub => y.wrapping_sub(x),
                    Builtin::Mul => y.wrapping_mul(x),
                    _ => match y.checked_div(x) {
                        Some(q) => q,
                        None => {
                            return Err(Error::RuntimeError(chars_of("division by zero or overflow")));
                        },
                    },
                };
                self.push(Object::I32(v))
            },
            (Object::Table(t), other) => {
                self.push(other)?;
                let name = match b {
                    Builtin::Add => "__add__",
                    Builtin::Sub => "__sub__",
                    Builtin::Mul => "__mul__",
                    _ => "__div__",
                };
                self.invoke_method(t, name)
            },
            _ => Err(type_error("arithmetic not implemented")),
        }
    }

    /// What `bi_get_attr_named` guarantees, as a relation between the state before
    /// and the state after.
    pub open spec fn post_bi_get_attr_named(pre: State, post: State, r: Result<(), Error>) -> bool {
        &&& (advanced(pre, post, r is Ok))
        &&& (pre.stack@.len() < 2 ==> r is Err)
        &&& (pre.budget > 1 && pre.stack@.len() >= 2 ==> {
                let s = pre.stack@;
                match (s[s.len() - 2], s.last()) {
                    (Object::Table(t), Object::String(a)) => t < pre.tables@.len() ==> match attr_lookup(
                        pre.tables@[t as int].attributes@,
                        a@,
                    ) {
                        Some(v) => r is Ok && stack_view(post.stack@) == stack_view(s.drop_last().drop_last()).push(
                            OView::Table(t),
                        ).push(v@),
                        None => true,
                    },
                    _ => true,
                }
            })
    }

    /// `(obj name -- obj val)`: the named attribute, through `__index__` if
    /// the table lacks it.
    #[verifier::rlimit(50)]
    pub fn bi_get_attr_named(&mut self) -> (r: Result<(), Error>)
        requires
            old(self).wf(),
        ensures
            advanced(*old(self), *final(self), r is Ok),
            old(self).stack@.len() < 2 ==> r is Err,
            old(self).budget > 1 && old(self).stack@.len() >= 2 ==> {
                let s = old(self).stack@;
                match (s[s.len() - 2], s.last()) {
                    (Object::Table(t), Object::String(a)) => t < old(self).tables@.len() ==> match attr_lookup(
                        old(self).tables@[t as int].attributes@,
                        a@,
                    ) {
                        Some(v) => r is Ok && stack_view(final(self).stack@) == stack_view(s.drop_last().drop_last()).push(
                            OView::Table(t),
                        ).push(v@),
                        None => true,
                    },
                    _ => true,
                }
            },
        decreases old(self).budget,
    {
        self.spend()?;
        let name = self.pop()?;
        let this = self.pop()?;
        let ghost base = self.stack@;
        self.push(name)?;
        assert(self.stack@.drop_last() =~= base);
        let ghost g0 = *self;
        let ghost ok = {
            let s = old(self).stack@;
            &&& old(self).budget > 1
            &&& s.len() >= 2
            &&& s[s.len() - 2] matches Object::Table(t) && t < old(self).tables@.len()
            &&& s.last() matches Object::String(a) && attr_lookup(old(self).tables@[s[s.len() - 2]->Table_0 as int].attributes@, a@) is Some
        };
        proof {
            if ok {
                let s = old(self).stack@;
                assert(this == s[s.len() - 2]);
                assert(g0.stack@.last() == s.last());
                assert(g0.tables == old(self).tables);
                assert(g0.budget > 0);
            }
        }
        self.get_attribute(&this)?;
        let ghost mid = self.stack@;
        proof {
            lemma_view_objs_last(mid);
            lemma_view_objs_last(base);
        }
        self.push(this)?;
        let r = self.swap();
        proof {
            let s = old(self).stack@;
            assert(base =~= s.drop_last().drop_last());
            if mid.len() > 0 {
                lemma_view_objs_last(self.stack@);
                lemma_view_objs_last(self.stack@.drop_last());
                assert(self.stack@ == mid.drop_last().push(this).push(mid.last()));
                assert(self.stack@.drop_last() =~= mid.drop_last().push(this));
                assert(self.stack@.drop_last().drop_last() =~= mid.drop_last());
                let vm = stack_view(mid);
                assert(vm.drop_last() =~= stack_view(mid.drop_last()));
                assert(stack_view(self.stack@) =~= stack_view(mid.drop_last()).push(view_obj(this)).push(view_obj(mid.last())));
            }
            if ok {
                let t = s[s.len() - 2]->Table_0;
                let v = attr_lookup(old(self).tables@[t as int].attributes@, s.last()->String_0@)->Some_0;
                let vm = stack_view(mid);
                assert(vm == stack_view(base).push(v@));
                assert(mid.len() > 0);
                assert(vm.drop_last() =~= stack_view(base));
                assert(vm.last() == v@);
                assert(r is Ok);
                assert(stack_view(self.stack@) =~= stack_view(base).push(OView::Table(t)).push(v@));
            }
        }
        r
    }

    /// What `bi_get_attribute` guarantees, as a relation between the state before
    /// and the state after.
    pub open spec fn post_bi_get_attribute(pre: State, post: State, r: Result<(), Error>) -> bool {
        &&& (advanced(pre, post, r is Ok))
        &&& (pre.stack@.len() < 2 ==> r is Err)
        &&& (pre.budget > 1 && pre.stack@.len() >= 2 ==> {
                let s = pre.stack@;
                match (s[s.len() - 2], s.last()) {
                    (Object::Table(t), Object::String(a)) => t < pre.tables@.len() ==> match attr_lookup(
                        pre.tables@[t as int].attributes@,
                        a@,
                    ) {
                        Some(v) => r is Ok && stack_view(post.stack@) == stack_view(s.drop_last().drop_last()).push(
                            OView::Table(t),
                        ).push(v@),
                        None => true,
                    },
                    _ => true,
                }
            })
    }

    /// `get_attribute (t s -- t v)`.
    #[verifier::rlimit(50)]
    pub fn bi_get_attribute(&mut self) -> (r: Result<(), Error>)
        requires
            old(self).wf(),
        ensures
            advanced(*old(self), *final(self), r is Ok),
            old(self).stack@.len() < 2 ==> r is Err,
            old(self).budget > 1 && old(self).stack@.len() >= 2 ==> {
                let s = old(self).stack@;
                match (s[s.len() - 2], s.last()) {
                    (Object::Table(t), Object::String(a)) => t < old(self).tables@.len() ==> match attr_lookup(
                        old(self).tables@[t as int].attributes@,
                        a@,
                    ) {
                        Some(v) => r is Ok && stack_view(final(self).stack@) == stack_view(s.drop_last().drop_last()).push(
                            OView::Table(t),
                        ).push(v@),
                        None => true,
                    },
                    _ => true,
                }
            },
        decreases old(self).budget,
    {
        self.spend()?;
        let attr = self.pop()?;
        let this = self.pop()?;
        let ghost base = self.stack@;
        self.push(attr)?;
        assert(self.stack@.drop_last() =~= base);
        let ghost g0 = *self;
        let ghost ok = {
            let s = old(self).stack@;
            &&& old(self).budget > 1
            &&& s.len() >= 2
            &&& s[s.len() - 2] matches Object::Table(t) && t < old(self).tables@.len()
            &&& s.last() matches Object::String(a) && attr_lookup(old(self).tables@[s[s.len() - 2]->Table_0 as int].attributes@, a@) is Some
        };
        proof {
            if ok {
                let s = old(self).stack@;
                assert(this == s[s.len() - 2]);
                assert(g0.stack@.last() == s.last());
                assert(g0.tables == old(self).tables);
                assert(g0.budget > 0);
            }
        }
        self.get_attribute(&this)?;
        let ghost mid = self.stack@;
        proof {
            lemma_view_objs_last(mid);
            lemma_view_objs_last(base);
        }
        self.push(this)?;
        let r = self.swap();
        proof {
            let s = old(self).stack@;
            assert(base =~= s.drop_last().drop_last());
            if mid.len() > 0 {
                lemma_view_objs_last(self.stack@);
                lemma_view_objs_last(self.stack@.drop_last());
                assert(self.stack@ == mid.drop_last().push(this).push(mid.last()));
                assert(self.stack@.drop_last() =~= mid.drop_last().push(this));
                assert(self.stack@.drop_last().drop_last() =~= mid.drop_last());
                let vm = stack_view(mid);
                assert(vm.drop_last() =~= stack_view(mid.drop_last()));
                assert(stack_view(self.stack@) =~= stack_view(mid.drop_last()).push(view_obj(this)).push(view_obj(mid.last())));
            }
            if ok {
                let t = s[s.len() - 2]->Table_0;
                let v = attr_lookup(old(self).tables@[t as int].attributes@, s.last()->String_0@)->Some_0;
                let vm = stack_view(mid);
                assert(vm == stack_view(base).push(v@));
                assert(mid.len() > 0);
                assert(vm.drop_last() =~= stack_view(base));
                assert(vm.last() == v@);
                assert(r is Ok);
                assert(stack_view(self.stack@) =~= stack_view(base).push(OView::Table(t)).push(v@));
            }
        }
        r
    }

    /// Runs a native operation.
    pub fn call_builtin(&mut self, b: Builtin) -> (r: Result<(), Error>)
        requires
            old(self).wf(),
        ensures
            advanced(*old(self), *final(self), r is Ok),
            old(self).budget > 0 ==> match stack_op(b, stack_view(old(self).stack@)) {
                Some(Some(v)) => r is Ok && stack_view(final(self).stack@) == v,
                Some(None) => r is Err,
                None => true,
            },
            old(self).budget > 0 ==> builtin_post(b, spent(*old(self)), *final(self), r),
            old(self).budget == 0 ==> r is Err && *final(self) == *old(self),
        decreases old(self).budget,
    {
        self.spend()?;
        let ghost mid = *self;
        proof {
            lemma_view_objs(self.stack@);
            let s = self.stack@;
            let n = s.len() as int;
            if n >= 2 {
                assert(stack_view(crate::state::spec_swap(s)) =~= crate::state::spec_swap(stack_view(s))) by {
                    lemma_view_objs(crate::state::spec_swap(s));
                }
            }
            if n >= 3 {
                assert(stack_view(crate::state::spec_rot(s)) =~= crate::state::spec_rot(stack_view(s))) by {
                    lemma_view_objs(crate::state::spec_rot(s));
                }
            }
            if n >= 1 {
                assert(stack_view(s.drop_last()) =~= stack_view(s).drop_last()) by {
                    lemma_view_objs(s.drop_last());
                }
            }
        }
        match b {
            Builtin::Semicolon => Err(Error::UnexpectedDelimiter(chars_of(";"))),
            Builtin::CloseBracket => Err(Error::UnexpectedDelimiter(chars_of("]"))),
            Builtin::NextToken => self.bi_next_token(),
            Builtin::Module => self.bi_module(),
            Builtin::Use => self.bi_use(),
            Builtin::Syntax => self.bi_syntax(),
            Builtin::Let => self.bi_let(),
            Builtin::Colon => self.bi_colon(),
            Builtin::OpenBracket => self.bi_open_bracket(),
            Builtin::Comment => self.bi_comment(),
            Builtin::Call => self.bi_call(),
            Builtin::If => self.bi_if(),
            Builtin::EndModule => self.bi_end_module(),
            Builtin::PushFrame => self.bi_push_frame(),
            Builtin::PopFrame => self.bi_pop_frame(),
            Builtin::Store => self.bi_store(),
            Builtin::Fetch => self.bi_fetch(),
            Builtin::SetVar(w) => self.bi_var(w),
            Builtin::GetVar(w) => self.bi_var(w),
            Builtin::DoubleColon(a, z) => self.bi_double_colon(a, z),
            Builtin::Cond => self.bi_cond(),
            Builtin::Repeat => self.bi_repeat(),
            Builtin::For => self.bi_for(),
            Builtin::While => self.bi_while(),
            Builtin::Repr => self.bi_repr(),
            Builtin::Same => self.bi_same(),
            Builtin::Not => self.bi_not(),
            Builtin::Eq => self.bi_eq(),
            Builtin::Ne => self.bi_ne(),
            Builtin::Lt | Builtin::Gt | Builtin::Le | Builtin::Ge => self.bi_compare(b),
            Builtin::Add | Builtin::Sub | Builtin::Mul | Builtin::Div => self.bi_arith(b),
            Builtin::Dup => self.dup(),
            Builtin::Drop => {
                self.pop()?;
                Ok(())
            },
            Builtin::Swap => self.swap(),
            Builtin::Over => self.over(),
            Builtin::Rot => self.rot(),
            Builtin::StrToList => self.bi_str_to_list(),
            Builtin::ListMake => self.bi_list_make(),
            Builtin::ListDestructure => self.bi_list_destructure(),
            Builtin::ListReverse => self.bi_list_reverse(),
            Builtin::ListEmpty => self.bi_list_empty(),
            Builtin::ListLen => self.bi_list_len(),
            Builtin::ListGet => self.bi_list_get(),
            Builtin::ListSet => self.bi_list_set(),
            Builtin::PopBack => self.bi_pop_back(),
            Builtin::PopFront => self.bi_pop_front(),
            Builtin::PushBack => self.bi_push_back(),
            Builtin::PushFront => self.bi_push_front(),
            Builtin::NewTable => self.bi_new_table(),
            Builtin::SetMetatable => self.bi_set_metatable(),
            Builtin::GetMetatable => self.bi_get_metatable(),
            Builtin::SetAttr => self.bi_attr_word(Builtin::SetAttrNamed),
            Builtin::GetAttrRaw => self.bi_attr_word(Builtin::GetAttrRawNamed),
            Builtin::GetAttr => self.bi_attr_word(Builtin::GetAttrNamed),
            Builtin::HasAttr => self.bi_attr_word(Builtin::HasAttrNamed),
            Builtin::GetAttribute => self.bi_get_attribute(),
            Builtin::SetAttrNamed => self.bi_set_attr_named(),
            Builtin::GetAttrRawNamed => self.bi_get_attr_raw_named(),
            Builtin::GetAttrNamed => self.bi_get_attr_named(),
            Builtin::HasAttrNamed => self.bi_has_attr_named(),
            Builtin::PushNone => self.bi_push_none(),
            Builtin::PrintStack => self.bi_print_stack(),
            Builtin::PrintTop => self.bi_print_top(),
            Builtin::Words => {
                self.print_dictionary();
                Ok(())
            },
        }
    }
}

impl Callable {
    /// Runs the native function.
    pub fn call(&self, state: &mut State) -> (r: Result<(), Error>)
        requires
            old(state).wf(),
        ensures
            advanced(*old(state), *final(state), r is Ok),
            old(state).budget > 1 ==> match stack_op(callable_builtin(*self), stack_view(old(state).stack@)) {
                Some(Some(v)) => r is Ok && stack_view(final(state).stack@) == v,
                Some(None) => r is Err,
                None => true,
            },
            old(state).budget > 1 ==> builtin_post(callable_builtin(*self), spent(spent(*old(state))), *final(state), r),
        decreases old(state).budget,
    {
        state.spend()?;
        state.call_builtin(self.builtin())
    }
}

impl ByteCode {
    /// Runs the code: pushes, calls, and starts over at a tail recursion.
    pub fn run(&self, state: &mut State) -> (r: Result<(), Error>)
        requires
            old(state).wf(),
        ensures
            advanced(*old(state), *final(state), r is Ok),
            old(state).budget > 0 ==> match literal_code(OView::ByteCode(self@)) {
                Some(vs) => r is Ok && stack_view(final(state).stack@) == stack_view(old(state).stack@) + vs
                    && final(state).budget == old(state).budget - 1,
                None => true,
            },
            old(state).budget > 0 && no_tail(self@) ==> runs(spent(*old(state)), self@, *final(state), r),
        decreases old(state).budget,
    {
        state.spend()?;
        let ghost s0 = state.stack@;
        let ghost st0 = *state;
        let ghost lit = literal_code(OView::ByteCode(self@)) is Some;
        let ghost nt = no_tail(self@);
        proof {
            lemma_view_ops(self.ops@);
            lemma_view_objs(s0);
        }
        loop
            invariant_except_break
                lit ==> state.stack@ == s0 && state.budget == old(state).budget - 1,
                nt ==> *state == st0,
            invariant
                state.wf(),
                state.budget < old(state).budget,
                s0 == old(state).stack@,
                st0 == spent(*old(state)),
                old(state).budget > 0,
                lit == (literal_code(OView::ByteCode(self@)) is Some),
                nt == no_tail(self@),
            ensures
                state.wf(),
                state.budget < old(state).budget,
                lit ==> stack_view(state.stack@) == stack_view(s0) + pushed_values(self@) && state.budget == old(state).budget - 1,
                nt ==> runs(st0, self@, *state, Ok::<(), Error>(())),
            decreases state.budget,
        {
            let ghost b0 = state.budget;
            let mut i: usize = 0;
            let mut restart = false;
            proof {
                if nt {
                    assert(self@.subrange(0, 0) =~= Seq::<OpView>::empty());
                }
            }
            while i < self.ops.len()
                invariant
                    i <= self.ops@.len(),
                    state.wf(),
                    state.budget <= b0,
                    b0 < old(state).budget,
                    st0 == spent(*old(state)),
                    old(state).budget > 0,
                    lit == (literal_code(OView::ByteCode(self@)) is Some),
                    nt == no_tail(self@),
                    lit ==> !restart && state.stack@.len() == s0.len() + i
                        && stack_view(state.stack@) == stack_view(s0) + pushed_values(self@.subrange(0, i as int))
                        && state.budget == b0,
                    nt ==> !restart && b0 == st0.budget && runs(st0, self@.subrange(0, i as int), *state, Ok::<(), Error>(())),
                ensures
                    state.wf(),
                    state.budget <= b0,
                    lit ==> !restart && i == self.ops@.len() && state.budget == b0
                        && stack_view(state.stack@) == stack_view(s0) + pushed_values(self@.subrange(0, i as int)),
                    nt ==> !restart && i == self.ops@.len() && runs(st0, self@.subrange(0, i as int), *state, Ok::<(), Error>(())),
                decreases self.ops@.len() - i,
            {
                proof {
                    lemma_view_ops(self.ops@);
                    if lit {
                        assert(self@[i as int] is Push);
                        assert(self@[i as int] == view_op(self.ops@[i as int]));
                    }
                    assert(self@[i as int] == view_op(self.ops@[i as int]));
                    if nt {
                        lemma_runs_budget(st0, self@.subrange(0, i as int), *state, Ok::<(), Error>(()));
                    }
                }
                let ghost before = *state;
                match &self.ops[i] {
                    Opcode::Push(o) => {
                        let c = clone_object(o);
                        state.push(c)?;
                        proof {
                            lemma_view_objs_last(state.stack@);
                            assert(state.stack@.drop_last() =~= before.stack@);
                            if lit {
                                assert(self@.subrange(0, i + 1) =~= self@.subrange(0, i as int).push(self@[i as int]));
                                assert(pushed_values(self@.subrange(0, i + 1)) =~= pushed_values(self@.subrange(0, i as int)).push(c@));
                            }
                            if nt {
                                assert(step(before, self@[i as int], *state, Ok::<(), Error>(())));
                                lemma_runs_step(st0, self@, i as int, before, *state, Ok::<(), Error>(()));
                            }
                        }
                    },
                    Opcode::Call(o) => {
                        let res = state.call_object(o);
                        proof {
                            if nt {
                                lemma_runs_step(st0, self@, i as int, before, *state, res);
                            }
                        }
                        match res {
                            Ok(u) => {
                                assert(res == Ok::<(), Error>(()));
                            },
                            Err(e) => {
                                proof {
                                    if nt {
                                        lemma_runs_err(st0, self@, i + 1, *state, res);
                                    }
                                }
                                return Err(e);
                            },
                        }
                    },
                    Opcode::CallDirect(c) => {
                        let res = c.call(state);
                        proof {
                            if nt {
                                lemma_runs_step(st0, self@, i as int, before, *state, res);
                            }
                        }
                        match res {
                            Ok(u) => {
                                assert(res == Ok::<(), Error>(()));
                            },
                            Err(e) => {
                                proof {
                                    if nt {
                                        lemma_runs_err(st0, self@, i + 1, *state, res);
                                    }
                                }
                                return Err(e);
                            },
                        }
                    },
                    Opcode::TailRecurse => {
                        proof {
                            if nt {
                                assert(!(self@[i as int] is TailRecurse));
                            }
                        }
                        restart = true;
                        break;
                    },
                }
                i = i + 1;
            }
            if restart {
                state.spend()?;
            } else {
                proof {
                    lemma_view_ops(self.ops@);
                    assert(self@.subrange(0, self@.len() as int) =~= self@);
                }
                break;
            }
        }
        Ok(())
    }
}


/// Code to run, as a list of instructions.
#[derive(Debug)]
pub struct Quotation {
    pub ops: Vec<Opcode>,
}

impl Quotation {
    /// Code that does nothing.
    pub fn new() -> (r: Quotation)
        ensures
            r.ops@.len() == 0,
    {
        Quotation { ops: Vec::new() }
    }

    /// Runs the code: pushes, calls, and starts over at a tail recursion.
    pub fn run(&self, state: &mut State) -> (r: Result<(), Error>)
        requires
            old(state).wf(),
        ensures
            advanced(*old(state), *final(state), r is Ok),
            old(state).budget > 0 ==> match literal_code(OView::ByteCode(view_ops(self.ops@))) {
                Some(vs) => r is Ok && stack_view(final(state).stack@) == stack_view(old(state).stack@) + vs,
                None => true,
            },
    {
        let code = ByteCode { ops: clone_ops(&self.ops) };
        code.run(state)
    }
}

impl Object {
    /// Calls the object if it is a word, a native function or compiled
    /// code; pushes it otherwise.
    pub fn invoke(self, state: &mut State) -> (r: Result<(), Error>)
        requires
            old(state).wf(),
        ensures
            final(state).wf(),
            final(state).budget <= old(state).budget,
            !(self is Word || self is Function || self is ByteCode) ==> r is Ok && final(state).stack@ == old(state).stack@.push(self),
            (self is Word || self is Function || self is ByteCode) ==> State::post_call_object(*old(state), self@, *final(state), r),
    {
        match self {
            Object::Word(_) | Object::Function(_) | Object::ByteCode(_) => state.call_object(&self),
            other => state.push(other),
        }
    }
}


impl State {
    /// What `bi_print_top` guarantees, as a relation between the state before
    /// and the state after.
    pub open spec fn post_bi_print_top(pre: State, post: State, r: Result<(), Error>) -> bool {
        &&& (advanced(pre, post, r is Ok))
        &&& (pre.stack@.len() == 0 ==> r is Err)
        &&& (pre.budget > 1 && pre.stack@.len() > 0 ==> match simple_repr(pre.stack@.last()) {
                Some(t) => r is Ok && stack_view(post.stack@) == stack_view(pre.stack@.drop_last())
                    && post.output@.len() == pre.output@.len() + 1
                    && post.output@.drop_last() == pre.output@
                    && post.output@.last()@ == t,
                None => true,
            })
    }

    /// `. (x -- )`: writes the text of the top value (see `repr`) as a line
    /// of output.
    pub fn bi_print_top(&mut self) -> (r: Result<(), Error>)
        requires
            old(self).wf(),
        ensures
            advanced(*old(self), *final(self), r is Ok),
            old(self).stack@.len() == 0 ==> r is Err,
            old(self).budget > 1 && old(self).stack@.len() > 0 ==> match simple_repr(old(self).stack@.last()) {
                Some(t) => r is Ok && stack_view(final(self).stack@) == stack_view(old(self).stack@.drop_last())
                    && final(self).output@.len() == old(self).output@.len() + 1
                    && final(self).output@.drop_last() == old(self).output@
                    && final(self).output@.last()@ == t,
                None => true,
            },
        decreases old(self).budget,
    {
        self.spend()?;
        self.bi_repr()?;
        let s = self.pop_string()?;
        let line = chars_of(s.as_str());
        self.output.push(line);
        Ok(())
    }
}


/// The two integers on top of the stack, the top one second.
pub open spec fn int_pair(s: Seq<Object>) -> Option<(i32, i32)> {
    if s.len() >= 2 {
        match (s[s.len() - 2], s.last()) {
            (Object::I32(y), Object::I32(x)) => Some((y, x)),
            _ => None,
        }
    } else {
        None
    }
}

/// Every token is a literal that no visible word has as its name, the
/// interpreter has no input pending, and its budget lasts for all tokens.
pub open spec fn literal_run(st: State, toks: Seq<Seq<char>>) -> bool {
    &&& st.input_tokens@.len() == 0
    &&& st.budget > toks.len() + 1
    &&& forall|i: int| 0 <= i < toks.len() ==> spec_literal(#[trigger] toks[i]) is Some
        && mod_lookup(st.modules.mods@, st.current_module.0 as int, toks[i]) is None
}

/// A lone `"` is no literal.
proof fn lemma_lone_quote_not_literal()
    ensures
        spec_literal(lone_quote()) is None,
{
    let s = lone_quote();
    assert(!is_digit(s[0]));
    assert(!all_digits(s));
}

/// The values of literal tokens.
pub open spec fn literal_values(toks: Seq<Seq<char>>) -> Seq<OView> {
    toks.map_values(|t: Seq<char>| spec_literal(t)->Some_0)
}

/// Whether `o` is a list of objects with the values `vs`.
pub open spec fn holds_literals(o: Object, vs: Seq<OView>) -> bool {
    match o {
        Object::List(w) => view_objs(w@) == vs,
        _ => false,
    }
}

/// The view of a sequence ends with the view of its last element.
pub proof fn lemma_view_objs_last(s: Seq<Object>)
    ensures
        s.len() > 0 ==> view_objs(s) == view_objs(s.drop_last()).push(view_obj(s.last())),
        view_objs(s).len() == s.len(),
{
    lemma_view_objs(s);
    if s.len() > 0 {
        assert(s.subrange(0, s.len() - 1) =~= s.drop_last());
    }
}

/// Objects whose values are those of literals are neither words nor
/// native functions.
proof fn lemma_literal_values_no_calls(ops: Seq<Object>, vs: Seq<OView>)
    requires
        view_objs(ops) == vs,
        forall|i: int| 0 <= i < vs.len() ==> (#[trigger] vs[i] is String || vs[i] is I32),
    ensures
        no_calls(ops),
{
    lemma_view_objs(ops);
    assert forall|i: int| 0 <= i < ops.len() implies !(#[trigger] ops[i] is Word || ops[i] is Function) by {
        assert(view_objs(ops)[i] == view_obj(ops[i]));
    }
}

/// The word that the name stands for in the current module, where it stands
/// for an entry of that name.
pub open spec fn defined_word(st: State, name: Seq<char>) -> Option<Word> {
    match mod_lookup(st.modules.mods@, st.current_module.0 as int, name) {
        Some(id) => if id.0 < st.entries@.len() && st.entries@[id.0 as int].name@ == name {
            Some(st.entries@[id.0 as int].word)
        } else {
            None
        },
        None => None,
    }
}

/// Where the current module exists, the name stands in it for compiled
/// code: a parsing word or an ordinary one.
pub open spec fn defines_code(st: State, name: Seq<char>, parsing: bool) -> bool {
    st.current_module.0 < st.modules.mods@.len() ==> match defined_word(st, name) {
        Some(w) => if parsing {
            w matches Word::ParsingWord(Object::ByteCode(_))
        } else {
            w matches Word::Word(Object::ByteCode(_))
        },
        None => false,
    }
}

/// Where the current module exists, the name stands in it for code that
/// pushes one value.
pub open spec fn defines_value(st: State, name: Seq<char>) -> bool {
    st.current_module.0 < st.modules.mods@.len() ==> match defined_word(st, name) {
        Some(Word::Word(Object::ByteCode(bc))) => bc@.len() == 1 && bc@[0] is Push,
        _ => false,
    }
}

/// What `LET: name code ;` leaves: the compiled code ran, from the state `c`
/// in which it was read, to a state `x`; its top value was taken off, and
/// the name stands for code that pushes exactly that value.
pub open spec fn let_defined(pre: State, post: State) -> bool
    decreases pre.budget, 0nat,
{
    exists|c: State, q: Seq<OpView>, x: State|
        #![trigger c.budget, q.len(), x.stack]
        {
            &&& c.budget < pre.budget
            &&& State::post_call_object(c, OView::ByteCode(q), x, Ok::<(), Error>(()))
            &&& x.stack@.len() > 0
            &&& post.stack@ == x.stack@.drop_last()
            &&& (post.current_module.0 < post.modules.mods@.len() ==> (defined_word(post, pre.input_tokens@[0]@) matches Some(
                Word::Word(Object::ByteCode(bc)),
            ) && bc@ == seq![OpView::Push(view_obj(x.stack@.last()))]))
        }
}

/// After `LET: name code ;` succeeds, the compiled code has run, the value
/// it left on top of the stack has been taken off, and `name` stands for
/// code that pushes exactly that value.
pub proof fn law_let_pushes_what_the_code_left(pre: State, post: State, r: Result<(), Error>)
    requires
        State::post_bi_let(pre, post, r),
        r is Ok,
    ensures
        exists|c: State, q: Seq<OpView>, x: State|
            #![trigger State::post_call_object(c, OView::ByteCode(q), x, Ok::<(), Error>(()))]
            {
                &&& c.budget < pre.budget
                &&& State::post_call_object(c, OView::ByteCode(q), x, Ok::<(), Error>(()))
                &&& x.stack@.len() > 0
                &&& post.stack@ == x.stack@.drop_last()
                &&& (post.current_module.0 < post.modules.mods@.len() ==> (defined_word(post, pre.input_tokens@[0]@) matches Some(
                    Word::Word(Object::ByteCode(bc)),
                ) && bc@ == seq![OpView::Push(view_obj(x.stack@.last()))]))
            },
{
    assert(let_defined(pre, post));
    let (c, q, x) = choose|c: State, q: Seq<OpView>, x: State| #![trigger c.budget, q.len(), x.stack] {
        &&& c.budget < pre.budget
        &&& State::post_call_object(c, OView::ByteCode(q), x, Ok::<(), Error>(()))
        &&& x.stack@.len() > 0
        &&& post.stack@ == x.stack@.drop_last()
        &&& (post.current_module.0 < post.modules.mods@.len() ==> (defined_word(post, pre.input_tokens@[0]@) matches Some(
            Word::Word(Object::ByteCode(bc)),
        ) && bc@ == seq![OpView::Push(view_obj(x.stack@.last()))]))
    };
    assert(State::post_call_object(c, OView::ByteCode(q), x, Ok::<(), Error>(())));
}

/// Code that keeps its local variables in a frame of its own: it starts by
/// pushing their number and calling `push_frame`, and ends by pushing that
/// number again and calling `pop_frame`.
pub open spec fn framed_code(ops: Seq<OpView>, push_frame: WordId, pop_frame: WordId) -> bool {
    &&& ops.len() >= 4
    &&& ops[0] matches OpView::Push(OView::I32(n)) && n >= 0
    &&& ops[1] == OpView::Call(OView::Word(push_frame))
    &&& ops[ops.len() - 2] == ops[0]
    &&& ops[ops.len() - 1] == OpView::Call(OView::Word(pop_frame))
}

/// Where the current module exists, the name stands in it for framed code.
pub open spec fn defines_framed(st: State, name: Seq<char>, push_frame: WordId, pop_frame: WordId) -> bool {
    st.current_module.0 < st.modules.mods@.len() ==> match defined_word(st, name) {
        Some(Word::Word(Object::ByteCode(bc))) => framed_code(bc@, push_frame, pop_frame),
        _ => false,
    }
}

/// The values that running code with this value pushes, where the code only
/// pushes: a list of values other than words and native functions, or
/// compiled code made of pushes only.
pub open spec fn literal_code(o: OView) -> Option<Seq<OView>> {
    match o {
        OView::List(vs) => if forall|i: int| 0 <= i < vs.len() ==> !(#[trigger] vs[i] is Word || vs[i] is Function) {
            Some(vs)
        } else {
            None
        },
        OView::ByteCode(ops) => if forall|i: int| 0 <= i < ops.len() ==> #[trigger] ops[i] is Push {
            Some(pushed_values(ops))
        } else {
            None
        },
        _ => None,
    }
}

/// `vs`, `n` times over.
pub open spec fn repeated(vs: Seq<OView>, n: nat) -> Seq<OView>
    decreases n,
{
    if n == 0 {
        Seq::empty()
    } else {
        repeated(vs, (n - 1) as nat) + vs
    }
}

/// What `for` gives with a body that pushes `vs`: for each of the `k`
/// counters from `a` on, the counter and then `vs`.
pub open spec fn counted(vs: Seq<OView>, a: int, k: nat) -> Seq<OView>
    decreases k,
{
    if k == 0 {
        Seq::empty()
    } else {
        counted(vs, a, (k - 1) as nat).push(OView::I32((a + k - 1) as i32)) + vs
    }
}

/// The first of the tokens is neither a literal nor a word, nothing else is
/// pending, and the budget allows a step.
pub open spec fn unknown_first(st: State, toks: Seq<Seq<char>>) -> bool {
    &&& st.input_tokens@.len() == 0
    &&& toks.len() > 0
    &&& st.budget > 0
    &&& spec_literal(toks[0]) is None
    &&& mod_lookup(st.modules.mods@, st.current_module.0 as int, toks[0]) is None
}

/// The first of the tokens is both a literal and a word, nothing else is
/// pending, and the budget allows a step.
pub open spec fn ambiguous_first(st: State, toks: Seq<Seq<char>>) -> bool {
    &&& st.input_tokens@.len() == 0
    &&& toks.len() > 0
    &&& st.budget > 0
    &&& spec_literal(toks[0]) is Some
    &&& mod_lookup(st.modules.mods@, st.current_module.0 as int, toks[0]) is Some
}

/// The first of the tokens is no literal but names a parsing word, nothing
/// else is pending, and the budget allows a step.
pub open spec fn parsing_first(st: State, toks: Seq<Seq<char>>) -> bool {
    &&& st.input_tokens@.len() == 0
    &&& toks.len() > 0
    &&& st.budget > 0
    &&& spec_literal(toks[0]) is None
    &&& match mod_lookup(st.modules.mods@, st.current_module.0 as int, toks[0]) {
        Some(id) => id.0 < st.entries@.len() && st.entries@[id.0 as int].word is ParsingWord,
        None => false,
    }
}

/// What the word that the first of the tokens names stands for.
pub open spec fn first_word(st: State, toks: Seq<Seq<char>>) -> OView {
    let id = mod_lookup(st.modules.mods@, st.current_module.0 as int, toks[0])->Some_0;
    word_body(st.entries@[id.0 as int].word)@
}

/// `mid` is `pre` once a line's first token is read: compilation has begun
/// into an empty list and the other tokens are pending.
pub open spec fn line_started(pre: State, toks: Seq<Seq<char>>, mid: State) -> bool {
    &&& mid == (State { stack: mid.stack, input_tokens: mid.input_tokens, mode: mid.mode, ..pre })
    &&& names_of(mid.input_tokens@) == toks.drop_first()
    &&& mid.stack@.drop_last() == pre.stack@
    &&& mid.stack@.len() == pre.stack@.len() + 1
    &&& mid.stack@.last() matches Object::List(w) && w@.len() == 0
    &&& mid.mode@ == pre.mode@.push(Mode::Compile)
}

/// Once all of a line's tokens are read in `p`, compilation ends, the list
/// on top is taken off and its values run, and the line ends as that run
/// does; anything else on top is an error.
pub open spec fn compiled_list_run(p: State, post: State, r: Result<(), Error>) -> bool {
    p.stack@.len() > 0 && p.budget > 0 ==> match p.stack@.last() {
        Object::List(w) => exists|at: State, x: State|
            #![trigger runs(spent(at), call_ops(view_objs(w@)), x, r)]
            {
                &&& at == (State { stack: at.stack, mode: at.mode, ..p })
                &&& at.stack@ == p.stack@.drop_last()
                &&& at.mode@ == (if p.mode@.len() > 0 { p.mode@.drop_last() } else { p.mode@ })
                &&& runs(spent(at), call_ops(view_objs(w@)), x, r)
                &&& ended(x, post, r)
            },
        _ => r is Err,
    }
}

/// A line that starts with a parsing word: the word runs from the state in
/// which the line began, its name read; an error it gives ends the line
/// with that error; where it succeeds and leaves no token pending, the
/// compiled code is run.
pub open spec fn first_parsed(pre: State, toks: Seq<Seq<char>>, post: State, r: Result<(), Error>) -> bool {
    exists|mid: State, p: State, r1: Result<(), Error>|
        #![trigger State::post_call_object(spent(mid), first_word(pre, toks), p, r1)]
        {
            &&& line_started(pre, toks, mid)
            &&& State::post_call_object(spent(mid), first_word(pre, toks), p, r1)
            &&& (r1 is Err ==> r == r1)
            &&& (r1 is Ok && p.input_tokens@.len() == 0 ==> compiled_list_run(p, post, r))
        }
}

/// The stack, the modules, the words and the current module are as they
/// were.
pub open spec fn unchanged_words(pre: State, post: State) -> bool {
    &&& post.stack@ == pre.stack@
    &&& post.modules == pre.modules
    &&& post.entries == pre.entries
    &&& post.current_module == pre.current_module
}

/// `m` is `pre` after one unit of the budget was spent and `n` values were
/// popped.
pub open spec fn popped(pre: State, m: State, n: int) -> bool {
    &&& m == (State { stack: m.stack, budget: (pre.budget - 1) as u64, ..pre })
    &&& 0 <= n <= pre.stack@.len()
    &&& m.stack@ == pre.stack@.subrange(0, pre.stack@.len() - n)
}

/// `m` is `s` with its top value taken off.
pub open spec fn top_taken(s: State, m: State) -> bool {
    &&& s.stack@.len() > 0
    &&& m == (State { stack: m.stack, ..s })
    &&& m.stack@ == s.stack@.drop_last()
}

/// The `while` loop, from `pre`, with the condition `c` and the body `b`:
/// the condition runs; the value it leaves on top is taken off; `False`
/// ends the loop, `True` runs the body and then the loop again, any other
/// value is a type error, and an error of the condition or the body ends
/// the loop with that error.
pub open spec fn while_runs(pre: State, c: OView, b: OView, post: State, r: Result<(), Error>) -> bool
    decreases pre.budget, 3nat,
{
    ||| (r is Err && State::post_call_object(pre, c, post, r))
    ||| exists|m1: State|
        #![trigger m1.budget]
        {
            &&& m1.budget < pre.budget
            &&& State::post_call_object(pre, c, m1, Ok::<(), Error>(()))
            &&& if m1.stack@.len() == 0 {
                r == Err::<(), Error>(Error::StackUnderflow) && post == (State { stack: post.stack, ..m1 })
                    && post.stack@ == m1.stack@
            } else if m1.stack@.last() is False {
                r is Ok && top_taken(m1, post)
            } else if m1.stack@.last() is True {
                exists|m2: State|
                    #![trigger m2.stack]
                    {
                        &&& top_taken(m1, m2)
                        &&& {
                            ||| (r is Err && State::post_call_object(m2, b, post, r))
                            ||| exists|m3: State|
                                #![trigger m3.budget]
                                m3.budget < m2.budget && State::post_call_object(m2, b, m3, Ok::<(), Error>(()))
                                    && while_runs(m3, c, b, post, r)
                        }
                    }
            } else {
                (r matches Err(Error::TypeError(_))) && top_taken(m1, post)
            }
        }
}

/// `cond` from `pre`, at row `k` of the rows: a row is a list of a
/// condition and an action; the condition runs and the value it leaves on
/// top is taken off; `True` runs the action and ends there, `False` goes
/// on with the next row; any other value, a row of another shape, or no
/// row left is a type error, and an error of a condition or an action ends
/// it with that error.
pub open spec fn cond_runs(pre: State, rows: Seq<OView>, k: int, post: State, r: Result<(), Error>) -> bool
    decreases pre.budget, 3nat,
{
    if k < 0 || k >= rows.len() {
        (r matches Err(Error::TypeError(_))) && post == pre
    } else {
        match rows[k] {
            OView::List(row) => if row.len() != 2 {
                (r matches Err(Error::TypeError(_))) && post == pre
            } else {
                ||| (r is Err && State::post_call_object(pre, row[0], post, r))
                ||| exists|m1: State|
                    #![trigger m1.budget]
                    {
                        &&& m1.budget < pre.budget
                        &&& State::post_call_object(pre, row[0], m1, Ok::<(), Error>(()))
                        &&& if m1.stack@.len() == 0 {
                            r == Err::<(), Error>(Error::StackUnderflow) && post == (State { stack: post.stack, ..m1 })
                                && post.stack@ == m1.stack@
                        } else if m1.stack@.last() is True {
                            exists|m2: State|
                                #![trigger m2.stack]
                                top_taken(m1, m2) && State::post_call_object(m2, row[1], post, r)
                        } else if m1.stack@.last() is False {
                            exists|m2: State|
                                #![trigger m2.stack]
                                top_taken(m1, m2) && cond_runs(m2, rows, k + 1, post, r)
                        } else {
                            (r matches Err(Error::TypeError(_))) && top_taken(m1, post)
                        }
                    }
            },
            _ => (r matches Err(Error::TypeError(_))) && post == pre,
        }
    }
}

/// Calling the body `n` times.
pub open spec fn repeat_ops(body: OView, n: int) -> Seq<OpView> {
    Seq::new(if n > 0 { n as nat } else { 0 }, |j: int| OpView::Call(body))
}

/// For each `i` from `a` up to `b`, `b` excluded: pushing `i`, then calling
/// the body.
pub open spec fn for_ops(body: OView, a: i32, b: i32) -> Seq<OpView> {
    Seq::new(if a < b { (2 * (b - a)) as nat } else { 0 }, |j: int| if j % 2 == 0 {
        OpView::Push(OView::I32((a + j / 2) as i32))
    } else {
        OpView::Call(body)
    })
}

/// A token that is a literal and names no word, or names a word that is
/// not a parsing word and is no literal.
pub open spec fn plain_token(st: State, t: Seq<char>) -> bool {
    match (spec_literal(t), mod_lookup(st.modules.mods@, st.current_module.0 as int, t)) {
        (Some(_), None) => true,
        (None, Some(id)) => id.0 < st.entries@.len() && st.entries@[id.0 as int].word is Word,
        _ => false,
    }
}

/// What a plain token compiles to: its literal value, or the word.
pub open spec fn plain_value(st: State, t: Seq<char>) -> OView {
    match spec_literal(t) {
        Some(v) => v,
        None => OView::Word(mod_lookup(st.modules.mods@, st.current_module.0 as int, t)->Some_0),
    }
}

/// A line of plain tokens, with nothing else pending and the budget to
/// compile it.
pub open spec fn plain_run(st: State, toks: Seq<Seq<char>>) -> bool {
    &&& st.input_tokens@.len() == 0
    &&& st.budget > toks.len() + 1
    &&& forall|i: int| 0 <= i < toks.len() ==> plain_token(st, #[trigger] toks[i])
}

/// The values that a line of plain tokens compiles to.
pub open spec fn plain_values(st: State, toks: Seq<Seq<char>>) -> Seq<OView> {
    toks.map_values(|t: Seq<char>| plain_value(st, t))
}

/// Running a line of plain tokens: they are compiled, which changes no more
/// than the string factory and the budget and leaves no input pending, and
/// the values they compile to then run from there.
pub open spec fn compiled_then_run(pre: State, toks: Seq<Seq<char>>, post: State, r: Result<(), Error>) -> bool {
    exists|s: State, x: State|
        #![trigger runs(spent(s), call_ops(plain_values(pre, toks)), x, r)]
        {
            &&& s == (State { stack: s.stack, factory: s.factory, budget: s.budget, input_tokens: s.input_tokens, mode: s.mode, ..pre })
            &&& s.stack@ == pre.stack@
            &&& s.mode@ == pre.mode@
            &&& s.input_tokens@.len() == 0
            &&& s.budget == pre.budget - toks.len()
            &&& runs(spent(s), call_ops(plain_values(pre, toks)), x, r)
            &&& ended(x, post, r)
        }
}

/// A run that left the state `x` ends in `post`: the same state, but after
/// an error with no input pending.
pub open spec fn ended(x: State, post: State, r: Result<(), Error>) -> bool {
    if r is Ok {
        post == x
    } else {
        post == (State { input_tokens: post.input_tokens, ..x }) && post.input_tokens@.len() == 0
    }
}

/// The token is no literal and names the native parsing word `[`.
pub open spec fn opens_quotation(st: State, t: Seq<char>) -> bool {
    &&& spec_literal(t) is None
    &&& match mod_lookup(st.modules.mods@, st.current_module.0 as int, t) {
        Some(id) => id.0 < st.entries@.len() && st.entries@[id.0 as int].word == crate::state::native_parse(
            Builtin::OpenBracket,
        ),
        None => false,
    }
}

/// What a line of plain tokens and of quotations `[ ... ]` of plain tokens
/// compiles to; `None` for any other line.
pub open spec fn line_values(st: State, toks: Seq<Seq<char>>) -> Option<Seq<OView>>
    decreases toks.len(),
{
    if toks.len() == 0 {
        Some(Seq::empty())
    } else if plain_token(st, toks[0]) {
        match line_values(st, toks.drop_first()) {
            Some(vs) => Some(seq![plain_value(st, toks[0])] + vs),
            None => None,
        }
    } else if opens_quotation(st, toks[0]) {
        let rest = toks.drop_first();
        let j = tok_pos(rest, "]"@);
        if 0 <= j < rest.len() && (forall|i: int| 0 <= i < j ==> plain_token(st, #[trigger] rest[i])) {
            match line_values(st, rest.skip(j + 1)) {
                Some(vs) => Some(seq![OView::List(plain_values(st, rest.take(j)))] + vs),
                None => None,
            }
        } else {
            None
        }
    } else {
        None
    }
}

/// A line of plain tokens and quotations of plain tokens, with nothing
/// else pending and the budget to compile it.
pub open spec fn quotation_run(st: State, toks: Seq<Seq<char>>) -> bool {
    &&& st.input_tokens@.len() == 0
    &&& st.budget > 8 * toks.len() + 2
    &&& line_values(st, toks) is Some
}

/// Running such a line: it is compiled, which leaves the stack, the mode,
/// the modules, the words and the current module as they were and no input
/// pending, and what it compiles to then runs from there.
pub open spec fn compiled_quotations_then_run(pre: State, toks: Seq<Seq<char>>, post: State, r: Result<(), Error>) -> bool {
    exists|s: State, x: State|
        #![trigger runs(spent(s), call_ops(line_values(pre, toks)->Some_0), x, r)]
        {
            &&& s.stack@ == pre.stack@
            &&& s.mode@ == pre.mode@
            &&& s.modules == pre.modules
            &&& s.entries == pre.entries
            &&& s.current_module == pre.current_module
            &&& s.input_tokens@.len() == 0
            &&& s.budget <= pre.budget
            &&& runs(spent(s), call_ops(line_values(pre, toks)->Some_0), x, r)
            &&& ended(x, post, r)
        }
}

/// One token of a line of plain tokens and quotations, compiled: what is
/// left of the line still compiles, the list being compiled grows by the
/// token's value, and compiling cannot fail.
proof fn lemma_quotation_step(
    st0: State,
    before: State,
    mid: State,
    after: State,
    t: Seq<char>,
    r: Result<(), Error>,
    full: Seq<OView>,
)
    requires
        line_values(st0, names_of(before.input_tokens@)) is Some,
        names_of(before.input_tokens@).len() > 0,
        t == names_of(before.input_tokens@)[0],
        names_of(mid.input_tokens@) == names_of(before.input_tokens@).drop_first(),
        before.budget > 8 * before.input_tokens@.len() + 2,
        names_of(before.input_tokens@).len() == before.input_tokens@.len(),
        mid.budget == before.budget,
        mid.mode@ == before.mode@,
        mid.mode@.len() > 0,
        mid.mode@.last() == Mode::Compile,
        mid.modules == st0.modules,
        mid.entries == st0.entries,
        mid.current_module == st0.current_module,
        mid.stack == before.stack,
        mid.stack@.len() > 0,
        mid.stack@.last() matches Object::List(w) && view_objs(w@) + line_values(st0, names_of(before.input_tokens@))->Some_0 == full,
        mid.budget > 0 ==> {
            let lit = spec_literal(t);
            let w = mod_lookup(mid.modules.mods@, mid.current_module.0 as int, t);
            let eval = mid.mode@.len() == 0 || mid.mode@.last() == Mode::Eval;
            match (lit, w) {
                (None, None) => r matches Err(Error::UnknownWord(u)) && u@ == t && after == spent(mid),
                (Some(_), Some(_)) => r matches Err(Error::AmbiguousWord(u)) && u@ == t
                    && after == (State { factory: after.factory, ..spent(mid) }),
                (Some(v), None) => (if eval {
                    r is Ok && stack_view(after.stack@) == stack_view(mid.stack@).push(v)
                } else {
                    match top_list(mid.stack@) {
                        Some(l) => r is Ok && after.stack@.drop_last() == mid.stack@.drop_last()
                            && after.stack@.len() == mid.stack@.len()
                            && compiled_literal(after.stack@.last(), l, v),
                        None => r is Err,
                    }
                }) && after.modules == mid.modules && after.mode == mid.mode
                    && after.current_module == mid.current_module
                    && after.input_tokens == mid.input_tokens
                    && after.budget == mid.budget - 1,
                (None, Some(id)) => {
                    &&& (!eval && id.0 < mid.entries@.len() && mid.entries@[id.0 as int].word is Word)
                        ==> match top_list(mid.stack@) {
                        Some(l) => r is Ok && replaced_top_list(mid.stack@, after.stack@, l.push(Object::Word(id))),
                        None => r is Err,
                    }
                    &&& (eval && id.0 < mid.entries@.len() && mid.budget > 4) ==> match literal_code(
                        word_body(mid.entries@[id.0 as int].word)@,
                    ) {
                        Some(vs) => r is Ok && stack_view(after.stack@) == stack_view(mid.stack@) + vs,
                        None => true,
                    }
                    &&& ((eval || mid.entries@[id.0 as int].word is ParsingWord) && id.0 < mid.entries@.len())
                        ==> State::post_call_object(spent(mid), word_body(mid.entries@[id.0 as int].word)@, after, r)
                },
            }
        },
        mid.budget > 0 && mid.mode@.len() > 0 && mid.mode@.last() == Mode::Compile && plain_token(
            mid,
            t,
        ) ==> after == (State {
            stack: after.stack,
            factory: after.factory,
            budget: (mid.budget - 1) as u64,
            ..mid
        }),
    ensures
        r is Ok,
        line_values(st0, names_of(after.input_tokens@)) is Some,
        after.budget > 8 * after.input_tokens@.len() + 2,
        after.mode@ == mid.mode@,
        after.modules == st0.modules,
        after.entries == st0.entries,
        after.current_module == st0.current_module,
        after.stack@.len() == mid.stack@.len(),
        after.stack@.drop_last() == mid.stack@.drop_last(),
        after.stack@.last() matches Object::List(w) && view_objs(w@) + line_values(st0, names_of(after.input_tokens@))->Some_0 == full,
{
    let rest = names_of(before.input_tokens@);
    let rest1 = rest.drop_first();
    assert(plain_token(mid, t) == plain_token(st0, t));
    if plain_token(st0, t) {
        let v = plain_value(st0, t);
        assert(plain_value(mid, t) == v);
        assert(line_values(st0, rest) == Some(seq![v] + line_values(st0, rest1)->Some_0));
        assert(names_of(after.input_tokens@) == rest1);
        match (mid.stack@.last(), after.stack@.last()) {
            (Object::List(l), Object::List(w)) => {
                lemma_view_objs_last(w@);
                assert(w@.drop_last() =~= l@);
                assert(view_objs(w@) =~= view_objs(l@).push(v));
                assert(view_objs(w@) + line_values(st0, rest1)->Some_0 =~= view_objs(l@) + (seq![v] + line_values(st0, rest1)->Some_0));
            },
            _ => {},
        }
    } else {
        assert(opens_quotation(st0, t));
        let j = tok_pos(rest1, "]"@);
        let id = mod_lookup(mid.modules.mods@, mid.current_module.0 as int, t)->Some_0;
        assert(mid.entries@[id.0 as int].word == crate::state::native_parse(Builtin::OpenBracket));
        let b = spent(spent(spent(spent(mid))));
        assert(State::post_call_object(spent(mid), OView::Function(Callable::Const(Builtin::OpenBracket)), after, r));
        assert(builtin_post(Builtin::OpenBracket, b, after, r));
        assert(State::post_bi_open_bracket(b, after, r));
        assert(names_of(b.input_tokens@) == rest1);
        assert forall|i: int| 0 <= i < j implies plain_token(b, #[trigger] rest1[i]) by {
            assert(plain_token(st0, rest1[i]));
        }
        assert(plain_until(b, "]"@));
        assert(b.budget > j + 3);
        assert(plain_values(b, rest1.take(j)) =~= plain_values(st0, rest1.take(j)));
        let inner = plain_values(st0, rest1.take(j));
        assert(line_values(st0, rest) == Some(seq![OView::List(inner)] + line_values(st0, rest1.skip(j + 1))->Some_0));
        assert(names_of(after.input_tokens@) =~= rest1.skip(j + 1));
        match (mid.stack@.last(), after.stack@.last()) {
            (Object::List(l), Object::List(w)) => {
                lemma_view_objs_last(w@);
                assert(w@.drop_last() =~= l@);
                assert(view_objs(w@) =~= view_objs(l@).push(OView::List(inner)));
                assert(view_objs(w@) + line_values(st0, rest1.skip(j + 1))->Some_0 =~= view_objs(l@) + (seq![OView::List(
                    inner,
                )] + line_values(st0, rest1.skip(j + 1))->Some_0));
            },
            _ => {},
        }
    }
}

/// A definition `name ... ;` of plain tokens is pending, with the budget to
/// compile it.
pub open spec fn plain_definition(st: State) -> bool {
    let toks = names_of(st.input_tokens@).drop_first();
    &&& st.input_tokens@.len() > 0
    &&& tok_pos(toks, ";"@) >= 0
    &&& forall|i: int| 0 <= i < tok_pos(toks, ";"@) ==> plain_token(st, #[trigger] toks[i])
    &&& st.budget > tok_pos(toks, ";"@) + 4
}

/// The definition was read: the stack, the mode and the current module are
/// as they were, and the input goes on after its `;`.
pub open spec fn definition_consumed(pre: State, post: State) -> bool {
    let toks = names_of(pre.input_tokens@).drop_first();
    &&& post.stack@ == pre.stack@
    &&& post.mode@ == pre.mode@
    &&& post.current_module == pre.current_module
    &&& names_of(post.input_tokens@) == toks.skip(tok_pos(toks, ";"@) + 1)
    &&& post.budget == pre.budget - 3 - tok_pos(toks, ";"@)
}

/// What the body of a pending definition of plain tokens compiles to.
pub open spec fn definition_body(st: State) -> Seq<OView> {
    let toks = names_of(st.input_tokens@).drop_first();
    plain_values(st, toks.take(tok_pos(toks, ";"@)))
}

/// A line that is one definition `: name ... ;` of plain tokens, with
/// nothing else pending and the budget to compile it.
pub open spec fn definition_run(st: State, toks: Seq<Seq<char>>) -> bool {
    &&& st.input_tokens@.len() == 0
    &&& toks.len() >= 3
    &&& spec_literal(toks[0]) is None
    &&& match mod_lookup(st.modules.mods@, st.current_module.0 as int, toks[0]) {
        Some(id) => id.0 < st.entries@.len() && st.entries@[id.0 as int].word == crate::state::native_parse(Builtin::Colon),
        None => false,
    }
    &&& tok_pos(toks.skip(2), ";"@) == toks.len() - 3
    &&& forall|i: int| 0 <= i < toks.len() - 3 ==> plain_token(st, #[trigger] toks.skip(2)[i])
    &&& st.budget > toks.len() + 8
    &&& st.current_module.0 < st.modules.mods@.len()
}

/// The word that such a line defines is compiled code of the values that
/// its body compiles to.
pub open spec fn defines_body(st: State, pre: State, toks: Seq<Seq<char>>) -> bool {
    defined_word(st, toks[1]) matches Some(Word::Word(Object::ByteCode(bc))) && bc@ == plain_values(
        pre,
        toks.skip(2).take(toks.len() - 3),
    ).map_values(|v: OView| crate::vm::compiled_op(v))
}

/// The token `:` of a definition line, run: the definition is read and the
/// word is defined, unless it fails.
proof fn lemma_definition_step(st0: State, mid: State, after: State, t: Seq<char>, r: Result<(), Error>, tv: Seq<Seq<char>>)
    requires
        definition_run(st0, tv),
        t == tv[0],
        names_of(mid.input_tokens@) == tv.drop_first(),
        mid.budget == st0.budget,
        mid.mode@.len() > 0,
        mid.mode@.last() == Mode::Compile,
        mid.modules == st0.modules,
        mid.entries == st0.entries,
        mid.current_module == st0.current_module,
        mid.budget > 0 ==> {
            let lit = spec_literal(t);
            let w = mod_lookup(mid.modules.mods@, mid.current_module.0 as int, t);
            let eval = mid.mode@.len() == 0 || mid.mode@.last() == Mode::Eval;
            match (lit, w) {
                (None, None) => r matches Err(Error::UnknownWord(u)) && u@ == t && after == spent(mid),
                (Some(_), Some(_)) => r matches Err(Error::AmbiguousWord(u)) && u@ == t
                    && after == (State { factory: after.factory, ..spent(mid) }),
                (Some(v), None) => (if eval {
                    r is Ok && stack_view(after.stack@) == stack_view(mid.stack@).push(v)
                } else {
                    match top_list(mid.stack@) {
                        Some(l) => r is Ok && after.stack@.drop_last() == mid.stack@.drop_last()
                            && after.stack@.len() == mid.stack@.len()
                            && compiled_literal(after.stack@.last(), l, v),
                        None => r is Err,
                    }
                }) && after.modules == mid.modules && after.mode == mid.mode
                    && after.current_module == mid.current_module
                    && after.input_tokens == mid.input_tokens
                    && after.budget == mid.budget - 1,
                (None, Some(id)) => {
                    &&& (!eval && id.0 < mid.entries@.len() && mid.entries@[id.0 as int].word is Word)
                        ==> match top_list(mid.stack@) {
                        Some(l) => r is Ok && replaced_top_list(mid.stack@, after.stack@, l.push(Object::Word(id))),
                        None => r is Err,
                    }
                    &&& (eval && id.0 < mid.entries@.len() && mid.budget > 4) ==> match literal_code(
                        word_body(mid.entries@[id.0 as int].word)@,
                    ) {
                        Some(vs) => r is Ok && stack_view(after.stack@) == stack_view(mid.stack@) + vs,
                        None => true,
                    }
                    &&& ((eval || mid.entries@[id.0 as int].word is ParsingWord) && id.0 < mid.entries@.len())
                        ==> State::post_call_object(spent(mid), word_body(mid.entries@[id.0 as int].word)@, after, r)
                },
            }
        },
        mid.budget > 0 && mid.mode@.len() > 0 && mid.mode@.last() == Mode::Compile && plain_token(
            mid,
            t,
        ) ==> after == (State {
            stack: after.stack,
            factory: after.factory,
            budget: (mid.budget - 1) as u64,
            ..mid
        }),
    ensures
        r is Ok ==> {
            &&& after.input_tokens@.len() == 0
            &&& after.stack@ == mid.stack@
            &&& after.mode@ == mid.mode@
            &&& after.current_module == mid.current_module
            &&& defines_body(after, st0, tv)
            &&& after.budget > 0
        },
        tv.len() == 4 && spec_literal(tv[2]) is Some ==> r is Ok,
{
    let id = mod_lookup(mid.modules.mods@, mid.current_module.0 as int, t)->Some_0;
    assert(mid.entries@[id.0 as int].word == crate::state::native_parse(Builtin::Colon));
    let b = spent(spent(spent(spent(mid))));
    assert(State::post_call_object(spent(mid), OView::Function(Callable::Const(Builtin::Colon)), after, r));
    assert(builtin_post(Builtin::Colon, b, after, r));
    assert(State::post_bi_colon(b, after, r));
    let body = tv.skip(2);
    assert(names_of(b.input_tokens@).drop_first() =~= body);
    let j = tok_pos(body, ";"@);
    assert forall|i: int| 0 <= i < j implies plain_token(b, #[trigger] body[i]) by {
        assert(plain_token(st0, body[i]));
    }
    assert(plain_definition(b));
    assert(plain_values(b, body.take(j)) =~= plain_values(st0, body.take(j)));
    assert(definition_body(b) == plain_values(st0, body.take(j)));
    assert(names_of(b.input_tokens@)[0] == tv[1]);
    if tv.len() == 4 && spec_literal(tv[2]) is Some {
        assert(j == 1);
        assert(names_of(b.input_tokens@).drop_first()[0] == tv[2]);
    }
    if r is Ok {
        assert(definition_consumed(b, after));
        assert(names_of(after.input_tokens@) =~= Seq::<Seq<char>>::empty());
        assert(after.input_tokens@.len() == names_of(after.input_tokens@).len());
    }
}

/// Code without a tail recursion.
pub open spec fn no_tail(ops: Seq<OpView>) -> bool {
    forall|i: int| 0 <= i < ops.len() ==> !(#[trigger] ops[i] is TailRecurse)
}

/// The instructions that running a sequence of values amounts to: words
/// and native functions are called, every other value is pushed.
pub open spec fn call_ops(items: Seq<OView>) -> Seq<OpView> {
    items.map_values(|v: OView| if v is Word || v is Function { OpView::Call(v) } else { OpView::Push(v) })
}

/// One instruction, run from `pre`, ends in `post` with `r`: a push leaves
/// all but the stack as it was, a call does what calling the object does,
/// a native function what its operation does.
pub open spec fn step(pre: State, op: OpView, post: State, r: Result<(), Error>) -> bool
    decreases pre.budget, 1nat,
{
    match op {
        OpView::Push(v) => r is Ok && post == (State { stack: post.stack, ..pre }) && stack_view(post.stack@)
            == stack_view(pre.stack@).push(v),
        OpView::Call(o) => State::post_call_object(pre, o, post, r),
        OpView::CallDirect(c) => advanced(pre, post, r is Ok) && (pre.budget > 1 ==> builtin_post(
            callable_builtin(c),
            spent(spent(pre)),
            post,
            r,
        )),
        OpView::TailRecurse => false,
    }
}

/// Running the instructions in order from `pre` ends in `post` with `r`:
/// each one runs from the state in which the one before it ended, and the
/// first error ends the run.
pub open spec fn runs(pre: State, ops: Seq<OpView>, post: State, r: Result<(), Error>) -> bool
    decreases pre.budget, ops.len() + 2,
{
    if ops.len() == 0 {
        post == pre && r is Ok
    } else {
        ||| (r is Err && runs(pre, ops.drop_last(), post, r))
        ||| exists|mid: State|
            #![trigger mid.budget]
            mid.budget <= pre.budget && runs(pre, ops.drop_last(), mid, Ok::<(), Error>(())) && step(
                mid,
                ops.last(),
                post,
                r,
            )
    }
}

/// A run that ends in `post` started no later, by the budget.
pub proof fn lemma_runs_budget(pre: State, ops: Seq<OpView>, post: State, r: Result<(), Error>)
    requires
        runs(pre, ops, post, r),
    ensures
        post.budget <= pre.budget,
    decreases ops.len(),
{
    if ops.len() > 0 {
        if r is Err && runs(pre, ops.drop_last(), post, r) {
            lemma_runs_budget(pre, ops.drop_last(), post, r);
        } else {
            let mid = choose|mid: State|
                #![trigger mid.budget]
                mid.budget <= pre.budget && runs(pre, ops.drop_last(), mid, Ok::<(), Error>(())) && step(mid, ops.last(), post, r);
            lemma_runs_budget(pre, ops.drop_last(), mid, Ok::<(), Error>(()));
            match ops.last() {
                OpView::Push(_) => {
                    assert(post.budget == mid.budget);
                },
                OpView::Call(o) => {
                    assert(State::post_call_object(mid, o, post, r));
                    assert(advanced(mid, post, r is Ok));
                },
                OpView::CallDirect(c) => {},
                OpView::TailRecurse => {},
            }
        }
    }
}

/// Code that only pushes values succeeds and leaves those values on the
/// stack, with all but the stack as it was.
pub proof fn law_runs_pushes(pre: State, ops: Seq<OpView>, post: State, r: Result<(), Error>)
    requires
        forall|i: int| 0 <= i < ops.len() ==> #[trigger] ops[i] is Push,
        runs(pre, ops, post, r),
    ensures
        r is Ok,
        stack_view(post.stack@) == stack_view(pre.stack@) + pushed_values(ops),
        post == (State { stack: post.stack, ..pre }),
    decreases ops.len(),
{
    if ops.len() == 0 {
        assert(pushed_values(ops) =~= Seq::<OView>::empty());
        assert(stack_view(post.stack@) =~= stack_view(pre.stack@) + Seq::<OView>::empty());
    } else {
        let p = ops.drop_last();
        assert forall|i: int| 0 <= i < p.len() implies #[trigger] p[i] is Push by {
            assert(p[i] == ops[i]);
        }
        if r is Err && runs(pre, p, post, r) {
            law_runs_pushes(pre, p, post, r);
        } else {
            let mid = choose|mid: State|
                #![trigger mid.budget]
                mid.budget <= pre.budget && runs(pre, p, mid, Ok::<(), Error>(())) && step(mid, ops.last(), post, r);
            law_runs_pushes(pre, p, mid, Ok::<(), Error>(()));
            assert(ops.last() is Push);
            assert(pushed_values(ops) =~= pushed_values(p).push(ops.last()->Push_0));
            assert(stack_view(post.stack@) =~= stack_view(pre.stack@) + pushed_values(ops));
        }
    }
}

/// One more instruction, run from where the first `i` ended.
pub proof fn lemma_runs_step(pre: State, ops: Seq<OpView>, i: int, mid: State, post: State, r: Result<(), Error>)
    requires
        0 <= i < ops.len(),
        runs(pre, ops.subrange(0, i), mid, Ok::<(), Error>(())),
        step(mid, ops[i], post, r),
        mid.budget <= pre.budget,
    ensures
        runs(pre, ops.subrange(0, i + 1), post, r),
{
    assert(ops.subrange(0, i + 1).drop_last() =~= ops.subrange(0, i));
    assert(ops.subrange(0, i + 1).last() == ops[i]);
    assert(runs(pre, ops.subrange(0, i + 1).drop_last(), mid, Ok::<(), Error>(())));
}

/// An error ends the run: the instructions after it do not change the
/// outcome.
pub proof fn lemma_runs_err(pre: State, ops: Seq<OpView>, k: int, post: State, r: Result<(), Error>)
    requires
        0 <= k <= ops.len(),
        r is Err,
        runs(pre, ops.subrange(0, k), post, r),
    ensures
        runs(pre, ops, post, r),
    decreases ops.len() - k,
{
    if k < ops.len() {
        assert(ops.subrange(0, k + 1).drop_last() =~= ops.subrange(0, k));
        lemma_runs_err(pre, ops, k + 1, post, r);
    } else {
        assert(ops.subrange(0, k) =~= ops);
    }
}

/// What running a native operation does, from the state in which it
/// starts: each operation as its own function states it.
pub open spec fn builtin_post(b: Builtin, pre: State, post: State, r: Result<(), Error>) -> bool
    decreases pre.budget, 2nat,
{
    match b {
        Builtin::Semicolon => post == pre && (r matches Err(Error::UnexpectedDelimiter(d)) && d@ == ";"@),
        Builtin::CloseBracket => post == pre && (r matches Err(Error::UnexpectedDelimiter(d)) && d@ == "]"@),
        Builtin::NextToken => State::post_bi_next_token(pre, post, r),
        Builtin::Module => State::post_bi_module(pre, post, r),
        Builtin::Use => State::post_bi_use(pre, post, r),
        Builtin::Syntax => State::post_bi_syntax(pre, post, r),
        Builtin::Let => State::post_bi_let(pre, post, r),
        Builtin::Colon => State::post_bi_colon(pre, post, r),
        Builtin::OpenBracket => State::post_bi_open_bracket(pre, post, r),
        Builtin::Comment => State::post_bi_comment(pre, post, r),
        Builtin::Call => State::post_bi_call(pre, post, r),
        Builtin::If => State::post_bi_if(pre, post, r),
        Builtin::EndModule => State::post_bi_end_module(pre, post, r),
        Builtin::PushFrame => State::post_bi_push_frame(pre, post, r),
        Builtin::PopFrame => State::post_bi_pop_frame(pre, post, r),
        Builtin::Store => State::post_bi_store(pre, post, r),
        Builtin::Fetch => State::post_bi_fetch(pre, post, r),
        Builtin::SetVar(w) => State::post_bi_var(pre, post, r, w),
        Builtin::GetVar(w) => State::post_bi_var(pre, post, r, w),
        Builtin::DoubleColon(a, z) => State::post_bi_double_colon(pre, post, r, a, z),
        Builtin::Cond => State::post_bi_cond(pre, post, r),
        Builtin::Repeat => State::post_bi_repeat(pre, post, r),
        Builtin::For => State::post_bi_for(pre, post, r),
        Builtin::While => State::post_bi_while(pre, post, r),
        Builtin::Repr => State::post_bi_repr(pre, post, r),
        Builtin::Same => State::post_bi_same(pre, post, r),
        Builtin::Not => State::post_bi_not(pre, post, r),
        Builtin::Eq => State::post_bi_eq(pre, post, r),
        Builtin::Ne => State::post_bi_ne(pre, post, r),
        Builtin::Lt | Builtin::Gt | Builtin::Le | Builtin::Ge => State::post_bi_compare(pre, post, r, b),
        Builtin::Add | Builtin::Sub | Builtin::Mul | Builtin::Div => State::post_bi_arith(pre, post, r, b),
        Builtin::Dup => State::post_dup(pre, post, r),
        Builtin::Drop => {
            &&& post == State { stack: post.stack, ..pre }
            &&& pre.stack@.len() == 0 ==> r == Err::<(), Error>(Error::StackUnderflow) && post.stack@ == pre.stack@
            &&& pre.stack@.len() > 0 ==> r is Ok && post.stack@ == pre.stack@.drop_last()
        },
        Builtin::Swap => State::post_swap(pre, post, r),
        Builtin::Over => State::post_over(pre, post, r),
        Builtin::Rot => State::post_rot(pre, post, r),
        Builtin::StrToList => State::post_bi_str_to_list(pre, post, r),
        Builtin::ListMake => State::post_bi_list_make(pre, post, r),
        Builtin::ListDestructure => State::post_bi_list_destructure(pre, post, r),
        Builtin::ListReverse => State::post_bi_list_reverse(pre, post, r),
        Builtin::ListEmpty => State::post_bi_list_empty(pre, post, r),
        Builtin::ListLen => State::post_bi_list_len(pre, post, r),
        Builtin::ListGet => State::post_bi_list_get(pre, post, r),
        Builtin::ListSet => State::post_bi_list_set(pre, post, r),
        Builtin::PopBack => State::post_bi_pop_back(pre, post, r),
        Builtin::PopFront => State::post_bi_pop_front(pre, post, r),
        Builtin::PushBack => State::post_bi_push_back(pre, post, r),
        Builtin::PushFront => State::post_bi_push_front(pre, post, r),
        Builtin::NewTable => State::post_bi_new_table(pre, post, r),
        Builtin::SetMetatable => State::post_bi_set_metatable(pre, post, r),
        Builtin::GetMetatable => State::post_bi_get_metatable(pre, post, r),
        Builtin::SetAttr => State::post_bi_attr_word(pre, post, r, Builtin::SetAttrNamed),
        Builtin::GetAttrRaw => State::post_bi_attr_word(pre, post, r, Builtin::GetAttrRawNamed),
        Builtin::GetAttr => State::post_bi_attr_word(pre, post, r, Builtin::GetAttrNamed),
        Builtin::HasAttr => State::post_bi_attr_word(pre, post, r, Builtin::HasAttrNamed),
        Builtin::GetAttribute => State::post_bi_get_attribute(pre, post, r),
        Builtin::SetAttrNamed => State::post_bi_set_attr_named(pre, post, r),
        Builtin::GetAttrRawNamed => State::post_bi_get_attr_raw_named(pre, post, r),
        Builtin::GetAttrNamed => State::post_bi_get_attr_named(pre, post, r),
        Builtin::HasAttrNamed => State::post_bi_has_attr_named(pre, post, r),
        Builtin::PushNone => State::post_bi_push_none(pre, post, r),
        Builtin::PrintStack => State::post_bi_print_stack(pre, post, r),
        Builtin::PrintTop => State::post_bi_print_top(pre, post, r),
        Builtin::Words => r is Ok && State::post_print_dictionary(pre, post),
    }
}

/// The native operation that a native function runs.
pub open spec fn callable_builtin(c: Callable) -> Builtin {
    match c {
        Callable::Pure(b) => b,
        Callable::Const(b) => b,
        Callable::Mutie(b) => b,
    }
}

/// What the stack operations and the stray delimiters do to the stack's
/// values: the new values, or `None` where they fail; other operations are
/// not described here.
pub open spec fn stack_op(b: Builtin, s: Seq<OView>) -> Option<Option<Seq<OView>>> {
    match b {
        Builtin::Semicolon | Builtin::CloseBracket => Some(None),
        Builtin::Dup => Some(if s.len() > 0 { Some(s.push(s.last())) } else { None }),
        Builtin::Drop => Some(if s.len() > 0 { Some(s.drop_last()) } else { None }),
        Builtin::Swap => Some(if s.len() >= 2 { Some(crate::state::spec_swap(s)) } else { None }),
        Builtin::Over => Some(if s.len() >= 2 { Some(crate::state::spec_over(s)) } else { None }),
        Builtin::Rot => Some(if s.len() >= 3 { Some(crate::state::spec_rot(s)) } else { None }),
        _ => None,
    }
}

/// The first position of the token `d`, or -1.
pub open spec fn tok_pos(toks: Seq<Seq<char>>, d: Seq<char>) -> int
    decreases toks.len(),
{
    if toks.len() == 0 {
        -1
    } else if tok_pos(toks.drop_last(), d) >= 0 {
        tok_pos(toks.drop_last(), d)
    } else if toks.last() == d {
        toks.len() - 1
    } else {
        -1
    }
}

proof fn lemma_tok_pos(toks: Seq<Seq<char>>, d: Seq<char>, k: int)
    requires
        -1 <= k < toks.len(),
        k >= 0 ==> toks[k] == d,
        forall|j: int| 0 <= j < toks.len() && (k < 0 || j < k) ==> toks[j] != d,
    ensures
        tok_pos(toks, d) == k,
    decreases toks.len(),
{
    if toks.len() > 0 {
        if k == toks.len() - 1 {
            lemma_tok_pos(toks.drop_last(), d, -1);
        } else {
            lemma_tok_pos(toks.drop_last(), d, k);
        }
    }
}

proof fn lemma_tok_pos_facts(toks: Seq<Seq<char>>, d: Seq<char>)
    ensures
        -1 <= tok_pos(toks, d) < toks.len(),
        tok_pos(toks, d) >= 0 ==> toks[tok_pos(toks, d)] == d,
        forall|j: int| 0 <= j < toks.len() && (tok_pos(toks, d) < 0 || j < tok_pos(toks, d)) ==> toks[j] != d,
    decreases toks.len(),
{
    if toks.len() > 0 {
        lemma_tok_pos_facts(toks.drop_last(), d);
        let p = toks.drop_last();
        assert forall|j: int| 0 <= j < p.len() implies p[j] == toks[j] by {}
    }
}

/// The pending input holds the delimiter `d`, and every token before it is
/// plain: a literal that names no word, or a word that is not a parsing word.
pub open spec fn plain_until(st: State, d: Seq<char>) -> bool {
    let toks = names_of(st.input_tokens@);
    let j = tok_pos(toks, d);
    &&& j >= 0
    &&& forall|i: int| 0 <= i < j ==> plain_token(st, #[trigger] toks[i])
}

/// What the plain tokens before the delimiter compile to.
pub open spec fn plain_before(st: State, d: Seq<char>) -> Seq<OView> {
    let toks = names_of(st.input_tokens@);
    plain_values(st, toks.take(tok_pos(toks, d)))
}

/// The values of a list on top of the stack.
pub open spec fn top_list_view(s: Seq<Object>) -> Seq<OView> {
    match top_list(s) {
        Some(l) => view_objs(l),
        None => Seq::empty(),
    }
}

/// The values that push instructions push.
pub open spec fn pushed_values(ops: Seq<OpView>) -> Seq<OView> {
    ops.map_values(|op: OpView| op->Push_0)
}

/// What a word stands for.
pub open spec fn word_body(w: Word) -> Object {
    match w {
        Word::Word(o) => o,
        Word::ParsingWord(o) => o,
    }
}

/// Objects whose values are neither words nor native functions contain
/// neither.
proof fn lemma_no_calls_view(ops: Seq<Object>)
    requires
        forall|i: int| 0 <= i < view_objs(ops).len() ==> !(#[trigger] view_objs(ops)[i] is Word || view_objs(ops)[i] is Function),
    ensures
        no_calls(ops),
{
    lemma_view_objs(ops);
    assert forall|i: int| 0 <= i < ops.len() implies !(#[trigger] ops[i] is Word || ops[i] is Function) by {
        assert(view_objs(ops)[i] == view_obj(ops[i]));
    }
}

/// No element is a word or a native function: running the sequence only
/// pushes its elements.
pub open spec fn no_calls(ops: Seq<Object>) -> bool {
    forall|i: int| 0 <= i < ops.len() ==> !(#[trigger] ops[i] is Word || ops[i] is Function)
}

/// Whether `o` is the list `l` with an object of value `v` appended.
pub open spec fn compiled_literal(o: Object, l: Seq<Object>, v: OView) -> bool {
    match o {
        Object::List(w) => w@.len() == l.len() + 1 && w@.subrange(0, l.len() as int) == l && w@.last()@ == v,
        _ => false,
    }
}

/// An integer no greater than zero.
pub open spec fn non_positive(o: Object) -> bool {
    match o {
        Object::I32(n) => n <= 0,
        _ => false,
    }
}

/// Two integers `a` and `b` with nothing from `a` up to `b`.
pub open spec fn empty_range(p: Option<(i32, i32)>) -> bool {
    match p {
        Some((a, b)) => a >= b,
        None => false,
    }
}

/// `+ - * /` on integers: wrapping, and division truncating, with no
/// result for a zero divisor or an overflowing quotient.
pub open spec fn arith_result(b: Builtin, y: i32, x: i32) -> Option<i32> {
    match b {
        Builtin::Add => Some(y.wrapping_add(x)),
        Builtin::Sub => Some(y.wrapping_sub(x)),
        Builtin::Mul => Some(y.wrapping_mul(x)),
        _ => y.checked_div(x),
    }
}

/// `< > <= >=` with the top value `x` on the left.
pub open spec fn compare_result(b: Builtin, x: i32, y: i32) -> bool {
    match b {
        Builtin::Lt => x < y,
        Builtin::Gt => x > y,
        Builtin::Le => x <= y,
        _ => x >= y,
    }
}

/// `==` on two values that are not tables (the top one first), or nothing
/// when they cannot be compared.
/// `< > <= >=` on two integers: the top one is compared with the one below
/// it, both are replaced by the answer, and `>` answers true exactly when the
/// top integer is strictly greater (so two equal integers give false), `<`
/// when it is strictly smaller, `<=` and `>=` likewise.
pub proof fn law_compare_integers(pre: State, post: State, r: Result<(), Error>, b: Builtin, top: i32, below: i32)
    requires
        pre.budget > 0,
        pre.stack@.len() >= 2,
        pre.stack@.last() == Object::I32(top),
        pre.stack@[pre.stack@.len() - 2] == Object::I32(below),
        b is Lt || b is Gt || b is Le || b is Ge,
        State::post_bi_compare(pre, post, r, b),
    ensures
        r is Ok,
        post.stack@.len() == pre.stack@.len() - 1,
        post.stack@.drop_last() == pre.stack@.drop_last().drop_last(),
        post.stack@.last() == Object::True || post.stack@.last() == Object::False,
        b is Gt ==> (post.stack@.last() == Object::True <==> top > below),
        b is Lt ==> (post.stack@.last() == Object::True <==> top < below),
        b is Ge ==> (post.stack@.last() == Object::True <==> top >= below),
        b is Le ==> (post.stack@.last() == Object::True <==> top <= below),
{
}

/// On the same two integers, `>` and `<=` give opposite answers, and so do
/// `<` and `>=`.
pub proof fn law_compare_opposites(pre: State, p1: State, r1: Result<(), Error>, p2: State, r2: Result<(), Error>, top: i32, below: i32)
    requires
        pre.budget > 0,
        pre.stack@.len() >= 2,
        pre.stack@.last() == Object::I32(top),
        pre.stack@[pre.stack@.len() - 2] == Object::I32(below),
    ensures
        State::post_bi_compare(pre, p1, r1, Builtin::Gt) && State::post_bi_compare(pre, p2, r2, Builtin::Le)
            ==> (p1.stack@.last() == Object::True) != (p2.stack@.last() == Object::True),
        State::post_bi_compare(pre, p1, r1, Builtin::Lt) && State::post_bi_compare(pre, p2, r2, Builtin::Ge)
            ==> (p1.stack@.last() == Object::True) != (p2.stack@.last() == Object::True),
{
}

/// `+ - * /` on two integers replace them by one integer: the one below plus,
/// minus, times or divided by the top one, when the answer fits; dividing
/// by zero is an error.
pub proof fn law_arith_integers(pre: State, post: State, r: Result<(), Error>, b: Builtin, top: i32, below: i32)
    requires
        pre.budget > 0,
        pre.stack@.len() >= 2,
        pre.stack@.last() == Object::I32(top),
        pre.stack@[pre.stack@.len() - 2] == Object::I32(below),
        b is Add || b is Sub || b is Mul || b is Div,
        State::post_bi_arith(pre, post, r, b),
    ensures
        b is Div && top == 0 ==> r is Err,
        r is Ok ==> post.stack@.len() == pre.stack@.len() - 1 && post.stack@.drop_last() == pre.stack@.drop_last().drop_last(),
        b is Add && i32::MIN <= below + top <= i32::MAX ==> r is Ok && post.stack@.last() == Object::I32((below + top) as i32),
        b is Sub && i32::MIN <= below - top <= i32::MAX ==> r is Ok && post.stack@.last() == Object::I32((below - top) as i32),
        b is Mul && i32::MIN <= below * top <= i32::MAX ==> r is Ok && post.stack@.last() == Object::I32((below * top) as i32),
        b is Div && below >= 0 && top > 0 ==> r is Ok && post.stack@.last() == Object::I32((below / top) as i32),
{
    if b is Add && i32::MIN <= below + top <= i32::MAX {
        assert(below.wrapping_add(top) == below + top);
    }
    if b is Sub && i32::MIN <= below - top <= i32::MAX {
        assert(below.wrapping_sub(top) == below - top);
    }
    if b is Mul && i32::MIN <= below * top <= i32::MAX {
        assert(below.wrapping_mul(top) == below * top);
    }
}

/// `==` on two integers or two strings answers whether they are equal, and
/// `!=` gives the opposite answer; `not` swaps true and false.
pub proof fn law_equality(pre: State, p1: State, r1: Result<(), Error>, p2: State, r2: Result<(), Error>)
    requires
        pre.budget > 2,
        pre.stack@.len() >= 2,
        State::post_bi_eq(pre, p1, r1),
        State::post_bi_ne(pre, p2, r2),
    ensures
        (pre.stack@.last(), pre.stack@[pre.stack@.len() - 2]) matches (Object::I32(a), Object::I32(b)) ==> r1 is Ok
            && r2 is Ok && (p1.stack@.last() == Object::True <==> a == b) && (p2.stack@.last() == Object::True <==> a != b),
        (pre.stack@.last(), pre.stack@[pre.stack@.len() - 2]) matches (Object::String(a), Object::String(b)) ==> r1 is Ok
            && r2 is Ok && (p1.stack@.last() == Object::True <==> a@ == b@) && (p2.stack@.last() == Object::True <==> a@ != b@),
        r1 is Ok && r2 is Ok && !(pre.stack@.last() is Table) ==> p1.stack@.drop_last() == p2.stack@.drop_last() && (p1.stack@.last() == Object::True) != (
            p2.stack@.last() == Object::True),
{
}

/// `not` swaps true and false.
pub proof fn law_not(pre: State, post: State, r: Result<(), Error>)
    requires
        pre.budget > 0,
        pre.stack@.len() > 0,
        pre.stack@.last() == Object::True || pre.stack@.last() == Object::False,
        State::post_bi_not(pre, post, r),
    ensures
        r is Ok,
        post.stack@.drop_last() == pre.stack@.drop_last(),
        post.stack@.last() == Object::True <==> pre.stack@.last() == Object::False,
        post.stack@.last() == Object::True || post.stack@.last() == Object::False,
{
}

pub open spec fn eq_result(this: Object, other: Object) -> Option<bool> {
    match (this, other) {
        (Object::Nil, Object::Nil) => Some(true),
        (Object::False, Object::False) => Some(true),
        (Object::True, Object::True) => Some(true),
        (Object::I32(a), Object::I32(b)) => Some(a == b),
        (Object::String(a), Object::String(b)) => Some(a@ == b@),
        _ => None,
    }
}

} // verus!
