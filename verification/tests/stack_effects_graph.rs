use forthen::stack_effects::astack::AbstractStack;
use forthen::stack_effects::element::{Element, ElementRef, StackEffect};
use forthen::stack_effects::parser::parse_effect;
use forthen::stack_effects::scratchpad::Scratchpad;

fn chars(s: &str) -> Vec<char> {
    s.chars().collect()
}

fn tokens(s: &str) -> Vec<Vec<char>> {
    forthen::parsing::tokenize_chars(&chars(s))
}

fn effect(s: &str) -> (Scratchpad, StackEffect) {
    StackEffect::parse(s).unwrap()
}

fn equivalent(a: &str, b: &str) -> bool {
    let (pa, ea) = effect(a);
    let (pb, eb) = effect(b);
    ea.is_equivalent(&pa, &eb, &pb)
}

fn find(pad: &Scratchpad, name: &str) -> ElementRef {
    pad.find_by_name(&chars(name)).unwrap()
}

fn chain(a: &(Scratchpad, StackEffect), b: &(Scratchpad, StackEffect)) -> Result<(Scratchpad, StackEffect), forthen::errors::Error> {
    a.1.chain(&a.0, &b.1, &b.0)
}

fn is_equiv(a: &(Scratchpad, StackEffect), b: &(Scratchpad, StackEffect)) -> bool {
    a.1.is_equivalent(&a.0, &b.1, &b.0)
}

#[test]
fn mod_equivalence_effects() {
    assert!(equivalent("( -- )", "(--)"));
    assert!(equivalent("(b -- b)", "(a -- a)"));
    assert!(equivalent("(x y -- y x)", "(a b -- b a)"));
    assert!(!equivalent("(a b -- a a)", "(a b -- b b)"));
    assert!(equivalent("(a b -- c)", "(b a -- z)"));
    assert!(equivalent("( -- a b)", "( -- b a)"));
    assert!(equivalent("(b -- a b b c)", "(b -- c b b a)"));
    assert!(!equivalent("(a b -- b a b a)", "(x -- y)"));

    assert!(equivalent("(..a f(..a -- ..b) -- ..b)", "(..x g(..x -- ..y) -- ..y)"));

    assert!(!equivalent("(..a f(..a z -- ..b) -- ..b)", "(..x g(..x -- z ..y) -- ..y)"));

    assert!(equivalent("(f( f -- ) -- f )", "(g( g -- ) -- g )"));

    assert!(equivalent("(f( f -- x( -- ) ) -- x )", "(g( g -- y( -- ) ) -- y )"));

    assert!(!equivalent("(f( f -- x( -- ) ) -- f )", "(g( g -- y( -- ) ) -- y )"));

    assert!(!equivalent("(f( f -- x( a -- a a ) ) -- x )", "(g( g -- y( a -- a b ) ) -- y )"));
}

#[test]
fn parse_swap() {
    let mut scrpad = Scratchpad::new();
    let (swap, _) = parse_effect(&mut scrpad, &tokens("(a b -- b a)"), 0).unwrap();

    assert_eq!(
        StackEffect::new(
            vec![find(&scrpad, "_"), find(&scrpad, "a"), find(&scrpad, "b")],
            vec![find(&scrpad, "_"), find(&scrpad, "b"), find(&scrpad, "a")],
        ),
        swap
    );
}

#[test]
fn parse_dup() {
    let mut scrpad = Scratchpad::new();
    let (dup, _) = parse_effect(&mut scrpad, &tokens("(var -- var var)"), 0).unwrap();

    let r = find(&scrpad, "_");
    let var = find(&scrpad, "var");

    assert_eq!(StackEffect::new(vec![r, var], vec![r, var, var]), dup);
}

#[test]
fn parse_call() {
    let mut scrpad = Scratchpad::new();
    let (call, _) = parse_effect(&mut scrpad, &tokens("(..a f(..a -- ..b) -- ..b)"), 0).unwrap();

    let a = find(&scrpad, "a");
    let b = find(&scrpad, "b");
    let f = find(&scrpad, "f");

    match scrpad.get(f) {
        Element::Callable(_, _) => {}
        _ => panic!("f should be a callable"),
    }

    assert_eq!(StackEffect::new(vec![a, f], vec![b]), call);
}

#[test]
fn parse_recursion() {
    let mut scrpad = Scratchpad::new();
    let (rec, _) = parse_effect(&mut scrpad, &tokens("(..a f(..a f -- ) -- )"), 0).unwrap();

    let a = find(&scrpad, "a");
    let f = find(&scrpad, "f");

    let fx = StackEffect::new(vec![a, f], vec![]);

    assert_eq!(fx, rec);

    match scrpad.get(f) {
        Element::Callable(_, f_sub) => assert_eq!(&fx, f_sub),
        _ => panic!("{:?} is not callable", f),
    }
}

#[test]
fn abstract_stack() {
    let mut astack = AbstractStack::new();

    let swap = effect("(a b -- b a)");
    let nop = effect("(a b -- a b)");

    astack.apply_effect(&swap.1, &swap.0).unwrap();
    assert!(is_equiv(&astack.clone().into_effect(), &swap));

    astack.apply_effect(&swap.1, &swap.0).unwrap();
    assert!(is_equiv(&astack.clone().into_effect(), &nop));
}

#[test]
fn complex_chain() {
    let mut astack = AbstractStack::new();

    let dup = effect("(x -- x x)");
    let drop = effect("(z -- )");
    let swap = effect("(a b -- b a)");

    astack.apply_effect(&dup.1, &dup.0).unwrap();
    astack.apply_effect(&drop.1, &drop.0).unwrap();
    astack.apply_effect(&swap.1, &swap.0).unwrap();
}

#[test]
fn if_chain() {
    let sfx = effect("(..a ? yes(..a -- ..b) no(..a -- ..b) -- ..b)");
    let yes = effect("(..d -- ..d f(..c -- ..c y))");
    let no = effect("(..d -- ..d f(..c -- ..c n))");
    let put = effect("(..d -- ..d f(..c -- ..c p))");
    let drop = effect("(..d -- ..d f(..c x -- ..c))");

    assert!(is_equiv(&chain(&chain(&yes, &no).unwrap(), &sfx).unwrap(), &effect("(cond -- value)")));
    assert!(is_equiv(&chain(&chain(&drop, &drop).unwrap(), &sfx).unwrap(), &effect("(x ? -- )")));
    assert!(is_equiv(&chain(&chain(&put, &put).unwrap(), &sfx).unwrap(), &effect("(? -- x)")));

    if let Ok(_) = chain(&chain(&put, &drop).unwrap(), &sfx) {
        panic!("Expected Error")
    }

    if let Ok(_) = chain(&chain(&drop, &put).unwrap(), &sfx) {
        panic!("Expected Error")
    }
}

#[test]
fn graph_effect_text_of_values_and_rows() {
    let (pad, se) = effect("(a b -- b a)");
    assert_eq!(se.to_text(&pad), "a b -- b a");
    let (pad, se) = effect("(..r x -- ..r)");
    assert_eq!(se.to_text(&pad), "x -- ");
    let (a, pa) = (effect("( -- x)").1, effect("( -- x)").0);
    let (b, pb) = (effect("( -- y)").1, effect("( -- y)").0);
    assert!(a.chain(&pa, &b, &pb).is_ok());
}

#[test]
fn replace_keeps_the_more_specific_element() {
    let f = Element::Callable(chars("f"), StackEffect { inputs: vec![], outputs: vec![] });
    let mut e = Element::Item(chars("x"));
    let other = e.replace_if_more_specific(f).unwrap();
    assert!(matches!(e, Element::Callable(_, _)));
    assert!(matches!(other, Element::Item(_)));

    let mut r = Element::Ellipsis(chars("a"));
    let other = r.replace_if_more_specific(Element::Item(chars("y"))).unwrap();
    assert!(matches!(r, Element::Item(_)));
    assert!(matches!(other, Element::Ellipsis(_)));

    let mut c = Element::Callable(chars("g"), StackEffect { inputs: vec![], outputs: vec![] });
    assert!(c.replace_if_more_specific(Element::Sequence(vec![ElementRef(0)])).is_err());
}

#[test]
fn graph_parse_unclosed_effect_ends_input() {
    assert!(matches!(StackEffect::parse("(a b -- c"), Err(forthen::errors::Error::EndOfInput)));
    assert!(matches!(StackEffect::parse("(a b"), Err(forthen::errors::Error::EndOfInput)));
    assert!(StackEffect::parse("(a b -- c)").is_ok());
}

#[test]
fn graph_equivalence_needs_one_to_one_pairing() {
    assert!(equivalent("(a b -- a b)", "(x y -- x y)"));
    assert!(!equivalent("(a b -- a b)", "(x y -- y x)"));
    assert!(!equivalent("(a a -- a)", "(x y -- x)"));
    assert!(!equivalent("(a -- ..b)", "(x -- y)"));
}
