use forthen::stack_effect::StackEffect;

fn se(s: &str) -> StackEffect {
    StackEffect::parse(s).unwrap()
}

#[test]
fn stack_effect_equivalence_effects() {
    assert_eq!(StackEffect::parse("( -- )").unwrap(), StackEffect::parse("(--)").unwrap());
    assert_eq!(StackEffect::parse("(b -- b)").unwrap(), StackEffect::parse("(a -- a)").unwrap());
    assert_eq!(
        StackEffect::parse("(x y -- y x)").unwrap(),
        StackEffect::parse("(a b -- b a)").unwrap()
    );
    assert_ne!(
        StackEffect::parse("(a b -- a a)").unwrap(),
        StackEffect::parse("(a b -- b b)").unwrap()
    );
    assert_eq!(StackEffect::parse("(a b -- c)").unwrap(), StackEffect::parse("(b a -- z)").unwrap());
    assert_eq!(StackEffect::parse("( -- a b)").unwrap(), StackEffect::parse("( -- b a)").unwrap());
    assert_eq!(
        StackEffect::parse("(b -- a b b c)").unwrap(),
        StackEffect::parse("(b -- c b b a)").unwrap()
    );
    assert_ne!(
        StackEffect::parse("(a b -- b a b a)").unwrap(),
        StackEffect::parse("(x -- y)").unwrap()
    );
}

#[test]
fn stack_effect_chain_effects() {
    let new = se("( -- x)");
    let swap = se("(a b -- b a)");
    let dup = se("(var -- var var)");
    let drop = se("(x -- )");
    let put = se("(a b -- c a b)");

    let drop3 = se("(a b c -- )");

    assert_eq!(new.chain(&new).unwrap(), se("( -- x y)"));
    assert_eq!(swap.chain(&swap).unwrap(), se("( -- )"));
    assert_eq!(dup.chain(&dup).unwrap(), se("(x -- x x x)"));
    assert_eq!(drop.chain(&drop).unwrap(), se("(b a -- )"));
    assert_eq!(put.chain(&put).unwrap(), se("(a b -- c d a b)"));

    assert_eq!(dup.chain(&drop).unwrap(), se("( -- )"));

    assert_eq!(swap.chain(&put).unwrap(), se("(a b -- c b a)"));
    assert_eq!(put.chain(&swap).unwrap(), se("(a b -- c b a)"));

    assert_eq!(dup.chain(&drop).unwrap().chain(&drop).unwrap(), se("(x --)"));

    assert_eq!(put, se("(a b -- c a b)"));
    assert_eq!(put.chain(&swap).unwrap(), se("(a b -- c b a)"));
    assert_eq!(put.chain(&swap).unwrap().chain(&drop).unwrap(), se("(a b -- c b)"));
    assert_eq!(
        put.chain(&swap).unwrap().chain(&drop).unwrap().chain(&dup).unwrap(),
        se("(a b -- c b b)")
    );
    assert_eq!(
        put.chain(&swap)
            .unwrap()
            .chain(&drop)
            .unwrap()
            .chain(&dup)
            .unwrap()
            .chain(&new)
            .unwrap(),
        se("(a b -- c b b d)")
    );
    assert_eq!(
        put.chain(&swap)
            .unwrap()
            .chain(&drop)
            .unwrap()
            .chain(&dup)
            .unwrap()
            .chain(&new)
            .unwrap()
            .chain(&swap)
            .unwrap(),
        se("(a b -- c b d b)")
    );

    assert_eq!(drop3.chain(&swap).unwrap(), se("(a b c d e -- b a)"));
    assert_eq!(swap.chain(&drop3).unwrap(), se("(c a b -- )"));
}

#[test]
fn stack_effect_regression_input_mapping() {
    let sfx = StackEffect::new_pushing("z")
        .chain(&StackEffect::new_pushing("z"))
        .unwrap()
        .chain(&se("(x c b a -- x)"))
        .unwrap();
    assert_eq!(sfx, se("(x c -- x)"));
}

#[test]
fn stack_effect_chain_unspec() {
    let new = se("( -- x)");
    let rot = se("(a b c -- b c a)");
    let call = se("(..a func(..a -- ..b) -- ..b)");

    assert_eq!(new.chain(&new).unwrap(), se("( -- x y)"));
    assert_eq!(new.chain(&new).unwrap().chain(&rot).unwrap(), se("(f -- x y f)"));
    assert_eq!(
        new.chain(&new).unwrap().chain(&rot).unwrap().chain(&call).unwrap(),
        se("(..a f(..a x y -- ..b) -- ..b)")
    );
}

#[test]
fn stack_effect_if_effect() {
    let sfx = se("(..a ? yes(..a -- ..b) no(..a -- ..b) -- ..b)");
    let yes = se("(..d -- ..d f(..c -- ..c x))");
    let no = se("(..d -- ..d f(..c -- ..c x))");
    let put = se("(..d -- ..d f(..c -- ..c x))");
    let drop = se("(..d -- ..d f(..c x -- ..c))");

    assert_eq!(yes.chain(&no).unwrap().chain(&sfx).unwrap(), se("(cond -- value)"));
    assert_eq!(drop.chain(&drop).unwrap().chain(&sfx).unwrap(), se("(x ? -- )"));
    assert_eq!(put.chain(&put).unwrap().chain(&sfx).unwrap(), se("(? -- x)"));
    // the two branches have incompatible effects: one leaves an item, the
    // other takes one, so the rows of `if` cannot be unified
    assert!(put.chain(&drop).unwrap().chain(&sfx).is_err());
    assert!(drop.chain(&put).unwrap().chain(&sfx).is_err());
}

#[test]
fn multiple_renaming() {
    let store = se("( x -- )");
    let fetch = se("( -- x )");
    let two_dup = store
        .chain(&store)
        .unwrap()
        .chain(&fetch)
        .unwrap()
        .chain(&fetch)
        .unwrap()
        .chain(&fetch)
        .unwrap()
        .chain(&fetch)
        .unwrap();

    assert_eq!(two_dup, se("(a b -- c d e f)"));
}

#[test]
fn equivalence_effects() {
    assert_eq!(se("( -- )"), se("(--)"));
    assert_eq!(se("(b -- b)"), se("(a -- a)"));
    assert_eq!(se("(x y -- y x)"), se("(a b -- b a)"));

    assert_ne!(se("(a b -- a a)"), se("(a b -- b b)"));
    assert_eq!(se("(a b -- c)"), se("(b a -- z)"));

    assert_eq!(se("( -- a b)"), se("( -- b a)"));
    assert_eq!(se("(b -- a b b c)"), se("(b -- c b b a)"));
}

#[test]
fn chain_effects() {
    let new = se("( -- x)");
    let swap = se("(a b -- b a)");
    let dup = se("(var -- var var)");
    let drop = se("(x -- )");
    let put = se("(a b -- c a b)");

    let drop3 = se("(a b c -- )");

    assert_eq!(new.chain(&new).unwrap(), se("( -- x y)"));
    assert_eq!(swap.chain(&swap).unwrap(), se("( -- )"));
    assert_eq!(dup.chain(&dup).unwrap(), se("(x -- x x x)"));
    assert_eq!(drop.chain(&drop).unwrap(), se("(b a -- )"));
    assert_eq!(put.chain(&put).unwrap(), se("(a b -- c d a b)"));

    assert_eq!(dup.chain(&drop).unwrap(), se("( -- )"));

    assert_eq!(swap.chain(&put).unwrap(), se("(a b -- c b a)"));
    assert_eq!(put.chain(&swap).unwrap(), se("(a b -- c b a)"));

    assert_eq!(dup.chain(&drop).unwrap().chain(&drop).unwrap(), se("(x --)"));

    assert_eq!(put, se("(a b -- c a b)"));
    assert_eq!(put.chain(&swap).unwrap(), se("(a b -- c b a)"));
    assert_eq!(put.chain(&swap).unwrap().chain(&drop).unwrap(), se("(a b -- c b)"));
    assert_eq!(
        put.chain(&swap).unwrap().chain(&drop).unwrap().chain(&dup).unwrap(),
        se("(a b -- c b b)")
    );
    assert_eq!(
        put.chain(&swap).unwrap().chain(&drop).unwrap().chain(&dup).unwrap().chain(&new).unwrap(),
        se("(a b -- c b b d)")
    );
    assert_eq!(
        put.chain(&swap)
            .unwrap()
            .chain(&drop)
            .unwrap()
            .chain(&dup)
            .unwrap()
            .chain(&new)
            .unwrap()
            .chain(&swap)
            .unwrap(),
        se("(a b -- c b d b)")
    );

    assert_eq!(drop3.chain(&swap).unwrap(), se("(a b c d e -- b a)"));
    assert_eq!(swap.chain(&drop3).unwrap(), se("(c a b -- )"));
}

#[test]
fn regression_input_mapping() {
    let sfx = StackEffect::new_pushing("z")
        .chain(&StackEffect::new_pushing("z"))
        .unwrap()
        .chain(&se("(x c b a -- x)"))
        .unwrap();
    assert_eq!(sfx, se("(x c -- x)"));
}

#[test]
fn chain_unspec() {
    let new = se("( -- x)");
    let rot = se("(a b c -- b c a)");
    let call = se("(..a func(..a -- ..b) -- ..b)");

    assert_eq!(new.chain(&new).unwrap(), se("( -- x y)"));
    assert_eq!(new.chain(&new).unwrap().chain(&rot).unwrap(), se("(f -- x y f)"));
    assert_eq!(
        new.chain(&new).unwrap().chain(&rot).unwrap().chain(&call).unwrap(),
        se("(..a f(..a x y -- ..b) -- ..b)")
    );
}

#[test]
fn if_effect() {
    let sfx = se("(..a ? yes(..a -- ..b) no(..a -- ..b) -- ..b)");
    let yes = se("(..d -- ..d f(..c -- ..c x))");
    let no = se("(..d -- ..d f(..c -- ..c x))");

    assert_eq!(yes.chain(&no).unwrap().chain(&sfx).unwrap(), se("(cond -- value)"));
}
