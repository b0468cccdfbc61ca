use forthen::objects::{Builtin, ByteCode, Callable, Object, Opcode};
use forthen::stack_effect::StackEffect;
use forthen::state::State;
use forthen::words::{branch, loops, ops, scope, stack, tier0, tier1};

fn word_name(s: &str) -> Vec<char> {
    s.chars().collect()
}

fn add_true_false(state: &mut State) {
    state.add_constant_word("true", "( -- b)", Object::True).unwrap();
    state.add_constant_word("false", "( -- b)", Object::False).unwrap();
}

#[test]
fn lib_literals() {
    let mut state = State::new();
    state.run("-10 0 25 \"hello forth!\" 2147483647").unwrap();

    assert_eq!(state.pop_i32().unwrap(), i32::max_value());
    assert_eq!(&state.pop_string().unwrap(), "hello forth!");
    assert_eq!(state.pop_i32().unwrap(), 25);
    assert_eq!(state.pop_i32().unwrap(), 0);
    assert_eq!(state.pop_i32().unwrap(), -10);
}

#[test]
fn tier0_new_words() {
    let state = &mut State::new();
    tier0(state).unwrap();

    state.run("123").unwrap(); // push sentinel value on stack
    state.run(": the-answer 42 ;").unwrap(); // define new word
    assert_eq!(state.pop_i32().unwrap(), 123); // the word definition has no effect on the stack
    state.run("the-answer").unwrap(); // run the new word
    assert_eq!(state.pop_i32().unwrap(), 42);

    state.run(": more-answers the-answer the-answer ;").unwrap();
    state.run("more-answers").unwrap();
    assert_eq!(state.pop_i32().unwrap(), 42);
    assert_eq!(state.pop_i32().unwrap(), 42);
}

#[test]
fn tier0_new_parse_words() {
    let state = &mut State::new();
    tier0(state).unwrap();

    // -rot (a b c -- c a b) is rot twice; .s prints the stack and changes nothing
    let rot = Opcode::CallDirect(Callable::new_const(Builtin::Rot));
    let rot2 = Opcode::CallDirect(Callable::new_const(Builtin::Rot));
    state.add_compound_word(
        &word_name("-rot"),
        StackEffect::parse("(a b c -- c a b)").unwrap(),
        Object::ByteCode(ByteCode { ops: vec![rot, rot2] }),
    );
    state.add_compound_word(
        &word_name(".s"),
        StackEffect::parse("( -- )").unwrap(),
        Object::ByteCode(ByteCode::new()),
    );

    state.run("123").unwrap(); // push sentinel value on stack
    state.run("SYNTAX: the-answer 42 -rot ;").unwrap(); // a parse word that puts a number deep in the stack
    state.run(": nop the-answer ; .s").unwrap(); // define a new word
    assert_eq!(state.pop_i32().unwrap(), 42); // the number ends up on the stack during word definition
    state.run("nop").unwrap(); // the new word does nothing
    assert_eq!(state.pop_i32().unwrap(), 123);
}

#[test]
fn tier0_quotations() {
    let state = &mut State::new();
    tier0(state).unwrap();

    state.run("123").unwrap(); // push sentinel value on stack

    state.run("[ 42 ]").unwrap();
    assert!(state.pop_i32().is_err());

    state.run("[ 42 ] call").unwrap();
    assert!(state.assert_pop(&Object::I32(42)));

    assert!(state.assert_pop(&Object::I32(123)));
}

#[test]
fn tier0_if_word() {
    let state = &mut State::new();
    tier0(state).unwrap();
    scope(state).unwrap();

    state.run("USE scope:").unwrap();

    add_true_false(state);

    state.run(":: dup   set x get x get x ;").unwrap();
    state.run(":: swap   set x set y get x get y ;").unwrap();
    state.run(":: over   set b set a get a get b get a ;").unwrap();
    state.run(":: rot   set c set b set a get b get c get a  ;").unwrap();
    state.run(":: drop   set x ;").unwrap();

    state.run("123").unwrap(); // push sentinel value on stack

    state.run("false [ \"yes\" ] [ \"no\" ] if").unwrap();
    assert_eq!(state.pop_string().unwrap(), "no");

    state.run("true [ \"yes\" ] [ \"no\" ] if").unwrap();
    assert_eq!(state.pop_string().unwrap(), "yes");

    state.run(": yes-or-no [ \"yes\" dup ] [ \"no\" \"no\" ] if ;").unwrap();

    state.run("false yes-or-no").unwrap();
    assert_eq!(state.pop_string().unwrap(), "no");
    assert_eq!(state.pop_string().unwrap(), "no");

    state.run("true yes-or-no").unwrap();
    assert_eq!(state.pop_string().unwrap(), "yes");
    assert_eq!(state.pop_string().unwrap(), "yes");

    assert!(state.assert_pop(&Object::I32(123)));
}

#[test]
fn branch_if_word() {
    let state = &mut State::new();
    tier0(state).unwrap();
    branch(state).unwrap();
    scope(state).unwrap();

    state.run("USE branch:").unwrap();
    state.run("USE scope:").unwrap();

    add_true_false(state);

    state.run(":: dup   (x -- x x)   set x get x get x ;").unwrap();
    state.run(":: swap   (x y -- y x)   set x set y get x get y ;").unwrap();
    state.run(":: over   (a b -- a b a)   set b set a get a get b get a ;").unwrap();
    state.run(":: rot   (a b c -- b c a)   set c set b set a get b get c get a  ;").unwrap();
    state.run(":: drop   (x -- )   set x ;").unwrap();

    state.run("123").unwrap(); // push sentinel value on stack

    state.run("false [ \"yes\" ] [ \"no\" ] if").unwrap();
    assert_eq!(state.pop_string().unwrap(), "no");

    state.run("true [ \"yes\" ] [ \"no\" ] if").unwrap();
    assert_eq!(state.pop_string().unwrap(), "yes");

    state.run(": yes-or-no ( ? -- s s ) [ \"yes\" dup ] [ \"no\" \"no\" ] if ;").unwrap();

    state.run("false yes-or-no").unwrap();
    assert_eq!(state.pop_string().unwrap(), "no");
    assert_eq!(state.pop_string().unwrap(), "no");

    state.run("true yes-or-no").unwrap();
    assert_eq!(state.pop_string().unwrap(), "yes");
    assert_eq!(state.pop_string().unwrap(), "yes");

    assert!(state.assert_pop(&Object::I32(123)));
}

fn assert_run_pop(state: &mut State, code: &str, expected: &[&str]) {
    state.run(code).unwrap();
    for e in expected.iter().rev() {
        assert_eq!(&state.pop_string().unwrap(), e);
    }
}

#[test]
fn cond() {
    let state = &mut State::new();
    tier0(state).unwrap();
    branch(state).unwrap();
    scope(state).unwrap();
    stack(state).unwrap();
    ops(state).unwrap();

    state.run("USE branch:").unwrap();
    state.run("USE scope:").unwrap();
    state.run("USE stack:").unwrap();
    state.run("USE ops:").unwrap();

    add_true_false(state);

    state
        .run(
            "
        : question (x -- s) [
                [ [ dup 42 == ] [ drop \"yes, but what is it?\" ] ]
                [ [ dup 42 < ] [ drop \"too much\" ] ]
                [ [ 0 < ] [ \"not enough\" ] ]
            ] cond
        ;
    ",
        )
        .unwrap();

    assert_run_pop(state, "42 question", &["yes, but what is it?"]);
    assert_run_pop(state, "666 question", &["too much"]);
    assert_run_pop(state, "1 question", &["not enough"]);
    state.run("-42 question").unwrap_err();
}

#[test]
fn recursion() {
    let mut state = State::new();
    tier0(&mut state).unwrap();
    scope(&mut state).unwrap();
    stack(&mut state).unwrap();
    ops(&mut state).unwrap();
    state.run("USE ops:").unwrap();
    state.run("USE scope:").unwrap();
    state.run("USE stack:").unwrap();
    state
        .run(
            "
                : stash dup rot swap ;

                :: factorial
                1 +
                1 set acc
                [
                    1 - dup 0 ==
                    [ drop drop ]
                    [
                        dup get acc * set acc
                        swap stash call
                    ]
                    if
                ]
                stash call
                get acc
            ;",
        )
        .unwrap();
    state.run("\"guard\" 10 factorial").unwrap();

    assert_eq!(3628800, state.pop_i32().unwrap());
    assert_eq!("guard", state.pop_string().unwrap());
}

#[test]
fn repeat() {
    let state = &mut State::new();
    tier0(state).unwrap();
    stack(state).unwrap();
    ops(state).unwrap();
    loops(state).unwrap();

    state.run("USE stack:").unwrap();
    state.run("USE ops:").unwrap();
    state.run("USE loop:").unwrap();

    state.push_str("bottom").unwrap();

    state.run("0 123456 [ 1 + ] repeat").unwrap();
    assert_eq!(123456, state.pop_i32().unwrap());

    assert_eq!("bottom", state.pop_string().unwrap());
}

#[test]
fn for_loop() {
    let state = &mut State::new();
    tier0(state).unwrap();
    stack(state).unwrap();
    ops(state).unwrap();
    loops(state).unwrap();

    state.run("USE stack:").unwrap();
    state.run("USE ops:").unwrap();
    state.run("USE loop:").unwrap();

    state.push_str("bottom").unwrap();

    state.run("1 5 10 [ + ] for").unwrap();
    assert_eq!(1 + 5 + 6 + 7 + 8 + 9, state.pop_i32().unwrap());

    assert_eq!("bottom", state.pop_string().unwrap());
}

#[test]
fn while_loop() {
    let state = &mut State::new();
    tier0(state).unwrap();
    stack(state).unwrap();
    ops(state).unwrap();
    loops(state).unwrap();

    state.run("USE stack:").unwrap();
    state.run("USE ops:").unwrap();
    state.run("USE loop:").unwrap();

    state.push_str("bottom").unwrap();

    state.run("0 128 [ dup 2 <= ] [ 2 / swap 1 + swap ] while").unwrap();
    assert_eq!(1, state.pop_i32().unwrap());
    assert_eq!(7, state.pop_i32().unwrap());

    assert_eq!("bottom", state.pop_string().unwrap());
}

fn scoped_words_scenario(state: &mut State) {
    state.run("123").unwrap(); // push sentinel value on stack

    state.run(":: dup   set x get x get x ;").unwrap();
    state.run(":: swap   set x set y get x get y ;").unwrap();
    state.run(":: over   set b set a get a get b get a ;").unwrap();
    state.run(":: rot   set c set b set a get b get c get a  ;").unwrap();
    state.run(":: drop   set x ;").unwrap();

    state.run("42 dup").unwrap();
    assert!(state.assert_pop(&Object::I32(42)));
    assert!(state.assert_pop(&Object::I32(42)));

    state.run("12 34 swap").unwrap();
    assert!(state.assert_pop(&Object::I32(12)));
    assert!(state.assert_pop(&Object::I32(34)));

    state.run("56 78 over").unwrap();
    assert!(state.assert_pop(&Object::I32(56)));
    assert!(state.assert_pop(&Object::I32(78)));
    assert!(state.assert_pop(&Object::I32(56)));

    state.run("\"a\" \"b\" \"c\" rot").unwrap();
    assert_eq!(state.pop_string().unwrap(), "a");
    assert_eq!(state.pop_string().unwrap(), "c");
    assert_eq!(state.pop_string().unwrap(), "b");

    state.run("0 drop").unwrap();
    assert!(state.assert_pop(&Object::I32(123)));
}

#[test]
fn scope_scoped_words() {
    let state = &mut State::new();
    tier0(state).unwrap();
    scope(state).unwrap();

    state.run("USE scope:").unwrap();
    scoped_words_scenario(state);
}

#[test]
fn tier0_scoped_words() {
    let mut state = State::new();
    state.tier0().unwrap();
    scoped_words_scenario(&mut state);
}

#[test]
fn literals() {
    let mut state = State::new();
    state.run("-10 0 25 \"hello forth!\" 2147483647").unwrap();

    assert_eq!(state.pop_i32().unwrap(), i32::max_value());
    assert_eq!(&state.pop_string().unwrap(), "hello forth!");
    assert_eq!(state.pop_i32().unwrap(), 25);
    assert_eq!(state.pop_i32().unwrap(), 0);
    assert_eq!(state.pop_i32().unwrap(), -10);
}

#[test]
fn new_words() {
    let state = &mut State::new();
    state.tier0().unwrap();

    state.run("123").unwrap(); // push sentinel value on stack
    state.run(": the-answer 42 ;").unwrap(); // define new word
    assert_eq!(state.pop_i32().unwrap(), 123); // the word definition has no effect on the stack
    state.run("the-answer").unwrap(); // run the new word
    assert_eq!(state.pop_i32().unwrap(), 42);

    state.run(": more-answers the-answer the-answer ;").unwrap();
    state.run("more-answers").unwrap();
    assert_eq!(state.pop_i32().unwrap(), 42);
    assert_eq!(state.pop_i32().unwrap(), 42);
}

#[test]
fn new_parse_words() {
    let state = &mut State::new();
    tier0(state).unwrap();

    // -rot (a b c -- c a b) is rot twice; .s prints the stack and changes nothing
    let rot = Opcode::CallDirect(Callable::new_const(Builtin::Rot));
    let rot2 = Opcode::CallDirect(Callable::new_const(Builtin::Rot));
    state.add_compound_word(
        &word_name("-rot"),
        StackEffect::parse("(a b c -- c a b)").unwrap(),
        Object::ByteCode(ByteCode { ops: vec![rot, rot2] }),
    );
    state.add_compound_word(
        &word_name(".s"),
        StackEffect::parse("( -- )").unwrap(),
        Object::ByteCode(ByteCode::new()),
    );

    state.run("123").unwrap(); // push sentinel value on stack
    state.run("SYNTAX: the-answer 42 -rot ;").unwrap(); // a parse word that puts a number deep in the stack
    state.run(": nop the-answer ; .s").unwrap(); // define a new word
    assert_eq!(state.pop_i32().unwrap(), 42); // the number ends up on the stack during word definition
    state.run("nop").unwrap(); // the new word does nothing
    assert_eq!(state.pop_i32().unwrap(), 123);
}

#[test]
fn quotations() {
    let state = &mut State::new();
    tier0(state).unwrap();

    state.run("123").unwrap(); // push sentinel value on stack

    state.run("[ 42 ]").unwrap();
    assert!(state.pop_i32().is_err());

    state.run("[ 42 ] call").unwrap();
    assert_eq!(state.pop_i32().unwrap(), 42);

    assert_eq!(state.pop_i32().unwrap(), 123);
}

fn string_object(s: &str) -> Object {
    Object::String(s.chars().collect())
}

#[test]
fn tier1_stack_ops() {
    let state = &mut State::new();
    tier1(state).unwrap();

    state.run("123 456 swap").unwrap();
    assert!(state.assert_stack(&vec![Object::I32(456), Object::I32(123)]));

    state.clear_stack();

    state.run("\"abc\" \"def\" \"ghi\" swap").unwrap();
    assert!(state.assert_stack(&vec![string_object("abc"), string_object("ghi"), string_object("def")]));

    state.clear_stack();

    state.run("123 \"abc\" swap").unwrap();
    assert_eq!(state.pop_i32().unwrap(), 123);
    assert_eq!(state.pop_string().unwrap(), "abc");
}

#[test]
fn stack_ops() {
    let mut state = State::new();
    state.tier1().unwrap();

    state.run("123 456 swap").unwrap();
    assert!(state.assert_stack(&vec![Object::I32(456), Object::I32(123)]));

    state.clear_stack();

    state.run("\"abc\" \"def\" \"ghi\" swap").unwrap();
    assert!(state.assert_stack(&vec![string_object("abc"), string_object("ghi"), string_object("def")]));

    state.clear_stack();

    state.run("123 \"abc\" swap").unwrap();
    assert_eq!(state.pop_i32().unwrap(), 123);
    assert_eq!(state.pop_string().unwrap(), "abc");
}

#[test]
fn printing_words_write_output() {
    let state = &mut State::new();
    tier1(state).unwrap();

    state.run("1 \"a\" .s").unwrap();
    assert_eq!(state.output.len(), 1);
    let line: String = state.output[0].iter().collect();
    assert_eq!(line, "[1, \"a\"]");

    state.run(".").unwrap();
    let line: String = state.output[1].iter().collect();
    assert_eq!(line, "\"a\"");
    assert_eq!(state.pop_i32().unwrap(), 1);
}

#[test]
fn dictionary_listing() {
    let state = &mut State::new();
    tier1(state).unwrap();
    state.print_dictionary();
    let names: Vec<String> = state.output.iter().map(|l| l.iter().collect::<String>()).collect();
    assert_eq!(names.len(), 7);
    assert!(names[0].trim_start().starts_with("."));
    assert!(names[6].trim_start().starts_with("swap"));
    let undefined: String = state.format_word(&word_name("nothing")).iter().collect();
    assert_eq!(undefined, "             nothing  undefined!");
}

#[test]
fn substate_shares_definitions() {
    let mut state = State::new();
    let mut sub = state.substate();
    assert!(state.entries.is_empty());
    sub.add_native_word("twice", "(a -- a a)", Builtin::Dup).unwrap();
    sub.run("7 twice").unwrap();
    assert_eq!(sub.stack.len(), 2);
    state.rejoin(sub);
    state.run("3 twice").unwrap();
    assert_eq!(state.pop_i32().unwrap(), 3);
    assert_eq!(state.pop_i32().unwrap(), 3);
}

#[test]
fn native_dispatch_runs_the_operation() {
    let mut state = State::new();
    state.push(Object::I32(10)).unwrap();
    state.push(Object::I32(3)).unwrap();
    state.call_builtin(Builtin::Sub).unwrap();
    assert_eq!(state.pop_i32().unwrap(), 7);
}

#[test]
fn compound_word_runs_its_code() {
    let mut state = State::new();
    tier0(&mut state).unwrap();
    ops(&mut state).unwrap();
    state.run("USE ops:").unwrap();
    state.run(": inc 1 + ;").unwrap();
    state.run("41 inc inc").unwrap();
    assert_eq!(state.pop_i32().unwrap(), 43);
}

#[test]
fn unknown_first_token_changes_nothing() {
    let mut state = State::new();
    state.push(Object::I32(5)).unwrap();
    let r = state.run("frobnicate 1 2");
    assert!(r.is_err());
    assert_eq!(state.stack.len(), 1);
    assert_eq!(state.pop_i32().unwrap(), 5);
}

#[test]
fn class_without_tier0_stops_at_colon() {
    let mut state = State::new();
    let r = forthen::words::class(&mut state);
    assert!(matches!(r, Err(forthen::errors::Error::UnknownWord(ref t)) if t.iter().collect::<String>() == ":"));
    assert!(state.stack.is_empty());
    assert!(state.lookup(&word_name("set_metatable")).is_some());
    assert!(state.lookup(&word_name("None")).is_some());
}

#[test]
fn repeat_calls_the_body_n_times() {
    let mut state = State::new();
    tier0(&mut state).unwrap();
    ops(&mut state).unwrap();
    loops(&mut state).unwrap();
    state.run("USE ops:").unwrap();
    state.run("USE loop:").unwrap();
    state.run("0 3 [ 2 + ] repeat").unwrap();
    assert_eq!(state.pop_i32().unwrap(), 6);
}
