use cfg_tt::cfg::Cfg;
use cfg_tt::token::Token;

fn atom(name: &str) -> Cfg {
    Cfg::Atomic(vec![Token::Ident(name.to_string())])
}
fn any(v: Vec<Cfg>) -> Cfg {
    Cfg::Any(v)
}
fn all(v: Vec<Cfg>) -> Cfg {
    Cfg::All(v)
}
fn not(x: Cfg) -> Cfg {
    Cfg::Not(Box::new(x))
}

#[test]
fn implies_itself() {
    let a = atom("a");
    assert!(a.implies(&a));
}

#[test]
fn implies_ignores_idenitiy() {
    let a1 = atom("a");
    let a2 = atom("a");
    assert!(a1.implies(&a2));
    assert!(a2.implies(&a1));
}

#[test]
fn distinct_atomics_dont_imply_each_other() {
    let a = atom("a");
    let b = atom("b");
    assert!(!a.implies(&b));
    assert!(!b.implies(&a));
}

#[test]
fn neg_does_not_imply_anything() {
    let a = atom("a");
    let not_a = not(a.cfg_copy());
    assert!(!not_a.implies(&a));
    assert!(!a.implies(&not_a));
}

#[test]
fn all_implies_contained() {
    let a = atom("a");
    let b = atom("b");
    let a_and_b = all(vec![a.cfg_copy(), b.cfg_copy()]);

    assert!(a_and_b.implies(&a));
    assert!(a_and_b.implies(&b));
}

#[test]
fn any_doesnt_imply_contained() {
    let a = atom("a");
    let b = atom("b");
    let a_or_b = any(vec![a.cfg_copy(), b.cfg_copy()]);

    assert!(!a_or_b.implies(&a));
    assert!(!a_or_b.implies(&b));
}

#[test]
fn child_implies_any() {
    let a = atom("a");
    let b = atom("b");
    let a_or_b = any(vec![a.cfg_copy(), b.cfg_copy()]);

    assert!(a.implies(&a_or_b));
    assert!(b.implies(&a_or_b));
}

#[test]
fn child_does_not_imply_all() {
    let a = atom("a");
    let b = atom("b");
    let a_and_b = all(vec![a.cfg_copy(), b.cfg_copy()]);

    assert!(!a.implies(&a_and_b));
    assert!(!b.implies(&a_and_b));
}

#[test]
fn double_negation_is_ignored() {
    let a = atom("a");
    let nna = not(not(a.cfg_copy()));

    assert!(a.implies(&nna));
    assert!(nna.implies(&a));
}

#[test]
fn ordering_of_any_does_not_matter() {
    let a = atom("a");
    let b = atom("b");
    let c = atom("c");

    let x1 = any(vec![a.cfg_copy(), b.cfg_copy(), c.cfg_copy()]);
    let x2 = any(vec![c.cfg_copy(), a.cfg_copy(), b.cfg_copy()]);
    assert!(x1.implies(&x2));
    assert!(x2.implies(&x1));
}

#[test]
fn ordering_of_all_does_not_matter() {
    let a = atom("a");
    let b = atom("b");
    let c = atom("c");

    let y1 = all(vec![a.cfg_copy(), b.cfg_copy(), c.cfg_copy()]);
    let y2 = all(vec![c, a, b]);
    assert!(y1.implies(&y2));
    assert!(y2.implies(&y1));
}

#[test]
fn de_morgan_equality() {
    // not(any(a, b)) and all(not(a), not(b)) imply each other
    let a = atom("a");
    let b = atom("b");

    let left = not(any(vec![a.cfg_copy(), b.cfg_copy()]));
    let right = all(vec![not(a), not(b)]);

    assert!(left.implies(&right));
    assert!(right.implies(&left));
}
