use forthen::errors::Error;
use forthen::objects::Object;
use forthen::state::State;
use forthen::words::{list, loops, ops, stack, table, tier0};

fn state_with(words: &[fn(&mut State) -> Result<(), Error>], uses: &[&str]) -> State {
    let mut state = State::new();
    tier0(&mut state).unwrap();
    for w in words {
        w(&mut state).unwrap();
    }
    for u in uses {
        state.run(&format!("USE {}:", u)).unwrap();
    }
    state
}

fn ops_state() -> State {
    state_with(&[ops, stack], &["ops", "stack"])
}

#[test]
fn division_truncates_toward_zero() {
    let mut state = ops_state();
    state.run("7 2 /").unwrap();
    assert_eq!(state.pop_i32().unwrap(), 3);
    state.run("-7 2 /").unwrap();
    assert_eq!(state.pop_i32().unwrap(), -3);
    state.run("7 -2 /").unwrap();
    assert_eq!(state.pop_i32().unwrap(), -3);
}

#[test]
fn division_by_zero_and_overflow_are_errors() {
    let mut state = ops_state();
    assert!(state.run("1 0 /").is_err());
    state.clear_stack();
    assert!(state.run("-2147483648 -1 /").is_err());
}

#[test]
fn arithmetic_takes_the_top_value_on_the_right() {
    let mut state = ops_state();
    state.run("5 3 -").unwrap();
    assert_eq!(state.pop_i32().unwrap(), 2);
    state.run("6 7 *").unwrap();
    assert_eq!(state.pop_i32().unwrap(), 42);
    state.run("2147483647 1 +").unwrap();
    assert_eq!(state.pop_i32().unwrap(), i32::MIN);
}

#[test]
fn comparisons_take_the_top_value_on_the_left() {
    let mut state = ops_state();
    state.run("1 2 <").unwrap();
    assert!(state.assert_pop(&Object::False));
    state.run("2 1 <").unwrap();
    assert!(state.assert_pop(&Object::True));
    state.run("3 3 >=").unwrap();
    assert!(state.assert_pop(&Object::True));
}

#[test]
fn equality_and_negation() {
    let mut state = ops_state();
    state.run("\"a\" \"a\" ==").unwrap();
    assert!(state.assert_pop(&Object::True));
    state.run("1 2 !=").unwrap();
    assert!(state.assert_pop(&Object::True));
    assert!(state.run("1 \"a\" ==").is_err());
}

fn list_state() -> State {
    state_with(&[ops, stack, list], &["ops", "stack", "list"])
}

#[test]
fn list_words() {
    let mut state = list_state();
    state.run("1 2 3 3 list-make").unwrap();
    state.run("list-len").unwrap();
    assert_eq!(state.pop_i32().unwrap(), 3);
    state.run("list-reverse 0 list-get").unwrap();
    assert_eq!(state.pop_i32().unwrap(), 3);
    state.run("42 1 list-set 1 list-get").unwrap();
    assert_eq!(state.pop_i32().unwrap(), 42);
    state.run("pop-back").unwrap();
    assert_eq!(state.pop_i32().unwrap(), 1);
    state.run("0 push-front list-destructure").unwrap();
    assert_eq!(state.pop_i32().unwrap(), 3);
    assert_eq!(state.pop_i32().unwrap(), 42);
    assert_eq!(state.pop_i32().unwrap(), 3);
    assert_eq!(state.pop_i32().unwrap(), 0);
}

#[test]
fn list_index_out_of_range() {
    let mut state = list_state();
    state.run("0 list-make").unwrap();
    match state.run("0 list-get") {
        Err(Error::IndexError(0, 0)) => {}
        other => panic!("unexpected {:?}", other),
    }
}

#[test]
fn string_to_list_splits_characters() {
    let mut state = list_state();
    state.run("\"abc\" str-to-list list-destructure").unwrap();
    assert_eq!(state.pop_i32().unwrap(), 3);
    assert_eq!(state.pop_string().unwrap(), "c");
    assert_eq!(state.pop_string().unwrap(), "b");
    assert_eq!(state.pop_string().unwrap(), "a");
}

#[test]
fn table_attributes_read_back_what_was_written() {
    let mut state = state_with(&[ops, stack, table], &["ops", "stack", "table"]);
    state.run("{} 1 set_attr x 2 set_attr y 3 set_attr x").unwrap();
    state.run("get_attr x").unwrap();
    assert_eq!(state.pop_i32().unwrap(), 3);
    state.run("get_attr y").unwrap();
    assert_eq!(state.pop_i32().unwrap(), 2);
    state.run("has_attr z").unwrap();
    assert!(state.assert_pop(&Object::False));
    assert!(state.run("get_attr z").is_err());
}

#[test]
fn a_line_of_literals_pushes_their_values_in_order() {
    let mut state = State::new();
    state.run("1 \"two\" -3").unwrap();
    assert_eq!(state.pop_i32().unwrap(), -3);
    assert!(state.assert_pop(&Object::String("two".chars().collect())));
    assert_eq!(state.pop_i32().unwrap(), 1);
    assert!(state.pop().is_err());
}

#[test]
fn comments_nest_and_must_be_closed() {
    let mut state = State::new();
    tier0(&mut state).unwrap();
    state.run("( a ( b ) c ) 5").unwrap();
    assert_eq!(state.pop_i32().unwrap(), 5);
    assert!(state.pop().is_err());
    assert_eq!(state.run("( never ( closed )"), Err(Error::EndOfInput));
}

#[test]
fn use_imports_one_word_or_reports_a_bad_path() {
    let mut state = state_with(&[stack], &[]);
    state.run("USE stack:dup").unwrap();
    state.run("3 dup").unwrap();
    assert_eq!(state.pop_i32().unwrap(), 3);
    assert_eq!(state.pop_i32().unwrap(), 3);
    assert!(state.run("1 2 swap").is_err());
    state.clear_stack();
    assert_eq!(state.run("USE nowhere:"), Err(Error::PathError));
    assert!(matches!(state.run("USE stack:nothing"), Err(Error::UnknownWord(_))));
}

#[test]
fn calling_a_word_that_only_pushes_values_pushes_them() {
    let mut state = State::new();
    tier0(&mut state).unwrap();
    state.run(": three 1 \"b\" 3 ;").unwrap();
    state.run("three three").unwrap();
    for _ in 0..2 {
        assert_eq!(state.pop_i32().unwrap(), 3);
        assert!(state.assert_pop(&Object::String("b".chars().collect())));
        assert_eq!(state.pop_i32().unwrap(), 1);
    }
    assert!(state.pop().is_err());
}

#[test]
fn call_if_and_repeat_run_quotations_of_values() {
    let mut state = state_with(&[loops, ops], &["loop", "ops"]);
    state.run("[ 4 \"x\" ] call").unwrap();
    assert!(state.assert_pop(&Object::String("x".chars().collect())));
    assert_eq!(state.pop_i32().unwrap(), 4);
    state.run("1 1 == [ 10 ] [ 20 ] if").unwrap();
    assert_eq!(state.pop_i32().unwrap(), 10);
    state.run("1 2 == [ 10 ] [ 20 ] if").unwrap();
    assert_eq!(state.pop_i32().unwrap(), 20);
    state.run("3 [ 7 8 ] repeat").unwrap();
    for _ in 0..3 {
        assert_eq!(state.pop_i32().unwrap(), 8);
        assert_eq!(state.pop_i32().unwrap(), 7);
    }
    assert!(state.pop().is_err());
}

#[test]
fn for_pushes_each_counter_before_running_the_body() {
    let mut state = state_with(&[loops], &["loop"]);
    state.run("1 4 [ 0 ] for").unwrap();
    for k in (1..4).rev() {
        assert_eq!(state.pop_i32().unwrap(), 0);
        assert_eq!(state.pop_i32().unwrap(), k);
    }
    assert!(state.pop().is_err());
    state.run("5 5 [ 0 ] for").unwrap();
    assert!(state.pop().is_err());
}

#[test]
fn while_with_a_condition_that_gives_false_runs_nothing() {
    let mut state = State::new();
    state.push(Object::I32(5)).unwrap();
    state.push(Object::List(vec![Object::False])).unwrap();
    state.push(Object::List(vec![Object::I32(99)])).unwrap();
    state.bi_while().unwrap();
    assert_eq!(state.pop_i32().unwrap(), 5);
    assert!(state.pop().is_err());
}

#[test]
fn the_system_text_of_lists_and_tables() {
    let state = State::new();
    let list = Object::List(vec![Object::I32(1), Object::String("a".chars().collect()), Object::Nil]);
    let text: String = state.repr_sys(&list).into_iter().collect();
    assert_eq!(text, "[1, \"a\", None]");
    let empty: String = state.repr_sys(&Object::List(vec![])).into_iter().collect();
    assert_eq!(empty, "[]");
    let table: String = state.repr_sys(&Object::Table(7)).into_iter().collect();
    assert_eq!(table, "DynamicObject at 7");
}
