use forthen::abstract_stack::{AbstractStack, Sequence, StackItem};
use forthen::errors::Error;

#[test]
fn simple_chaining() {
    let mut astack = AbstractStack::new();
    assert_eq!(astack.to_text(), ".. -- ..");

    // SWAP (..a x y -- ..a y x)
    let iy = StackItem::item(&mut astack, "y");
    let y = astack.pop(Sequence::single(iy)).unwrap();
    let ix = StackItem::item(&mut astack, "x");
    let x = astack.pop(Sequence::single(ix)).unwrap();
    let ia = StackItem::row(&mut astack, "a");
    let r = astack.pop(Sequence::single(ia)).unwrap();
    astack.push(r);
    astack.push(y);
    astack.push(x);
    assert_eq!(astack.to_text(), ".. x y -- .. y x");

    // DROP (..b z -- ..b)
    let iz = StackItem::item(&mut astack, "z");
    astack.pop(Sequence::single(iz)).unwrap();
    let ib = StackItem::row(&mut astack, "b");
    let b = astack.pop(Sequence::single(ib)).unwrap();
    astack.push(b);
    assert_eq!(astack.to_text(), ".. x y -- .. y");

    // DROP (z -- )
    let iz = StackItem::item(&mut astack, "z");
    astack.pop(Sequence::single(iz)).unwrap();
    assert_eq!(astack.to_text(), ".. x y -- ..");

    // DROP (z -- )
    let iz = StackItem::item(&mut astack, "z");
    astack.pop(Sequence::single(iz)).unwrap();
    assert_eq!(astack.to_text(), ".. z x y -- ..");
}

#[test]
fn quotation_chaining() {
    let mut astack = AbstractStack::new();
    assert_eq!(astack.to_text(), ".. -- ..");

    // SWAP (x y -- y x)
    let iy = StackItem::item(&mut astack, "y");
    let y = astack.pop(Sequence::single(iy)).unwrap();
    let ix = StackItem::item(&mut astack, "x");
    let x = astack.pop(Sequence::single(ix)).unwrap();
    astack.push(y);
    astack.push(x);
    assert_eq!(astack.to_text(), ".. x y -- .. y x");

    // CALL (..a f(..a -- ..b) - ..b)
    let a = StackItem::row(&mut astack, "a");
    let b = StackItem::row(&mut astack, "b");
    let f = StackItem::quot(&mut astack, "f", &[a], &[b]);
    astack.pop(Sequence::single(f)).unwrap();
    astack.pop(Sequence::single(a)).unwrap();
    astack.push(Sequence::single(b));
    assert_eq!(astack.to_text(), ".. f(.. y -- ..b) y -- ..b");
}

#[test]
fn quotation_cancelled() {
    let mut astack = AbstractStack::new();

    // [ + ] (-- g(..e x y -- ..e z))
    let e = StackItem::row(&mut astack, "e");
    let x = StackItem::item(&mut astack, "x");
    let y = StackItem::item(&mut astack, "y");
    let z = StackItem::item(&mut astack, "z");
    let g = StackItem::quot(&mut astack, "g", &[e, x, y], &[e, z]);
    astack.push(Sequence::single(g));
    assert_eq!(astack.to_text(), ".. -- .. g(..e x y -- ..e z)");

    // CALL (..c f(..c -- ..d) - ..d)
    let c = StackItem::row(&mut astack, "c");
    let d = StackItem::row(&mut astack, "d");
    let f = StackItem::quot(&mut astack, "f", &[c], &[d]);
    astack.pop(Sequence::single(f)).unwrap();
    astack.pop(Sequence::single(c)).unwrap();
    astack.push(Sequence::single(d));
    assert_eq!(astack.to_text(), "..e x y -- ..e z");
}

#[test]
fn invalid_chaining() {
    let mut astack = AbstractStack::new();

    // [ + ] (-- g(..e y -- ..e z))
    let e = StackItem::row(&mut astack, "e");
    let y = StackItem::item(&mut astack, "y");
    let z = StackItem::item(&mut astack, "z");
    let g = StackItem::quot(&mut astack, "g", &[e, y], &[e, z]);
    astack.push(Sequence::single(g));

    // CALL (..c f(..c i j -- ..d k) - ..d)
    let c = StackItem::row(&mut astack, "c");
    let i = StackItem::item(&mut astack, "i");
    let j = StackItem::item(&mut astack, "j");
    let k = StackItem::item(&mut astack, "k");
    let f = StackItem::quot(&mut astack, "f", &[c, i, j], &[c, k]);
    match astack.pop(Sequence::single(f)) {
        Err(Error::IncompatibleStackEffects) => {}
        _ => panic!("Expected Error"),
    }
}

#[test]
fn invalid_chaining2() {
    let mut astack = AbstractStack::new();

    // [ put ] (-- f(..a -- ..a x))
    let a = StackItem::row(&mut astack, "a");
    let x = StackItem::item(&mut astack, "x");
    let f = StackItem::quot(&mut astack, "f", &[a], &[a, x]);
    astack.push(Sequence::single(f));

    // [ drop ] (-- g(..b y -- ..b))
    let b = StackItem::row(&mut astack, "b");
    let y = StackItem::item(&mut astack, "y");
    let g = StackItem::quot(&mut astack, "g", &[b, y], &[b]);
    astack.push(Sequence::single(g));

    // IF (..c ? h(..c -- ..d) i(..c -- ..d) -- ..d)
    let c = StackItem::row(&mut astack, "c");
    let d = StackItem::row(&mut astack, "d");
    let h = StackItem::quot(&mut astack, "h", &[c], &[d]);
    let i = StackItem::quot(&mut astack, "i", &[c], &[d]);
    match astack.pop(Sequence::single(i)) {
        Ok(_) => {}
        Err(e) => panic!("Expected Result {:?}", e),
    }
    match astack.pop(Sequence::single(h)) {
        Ok(_) => panic!("Expected Error"),
        Err(_) => {}
    }
}
