use watchsat::{Lit, VarId};

#[test]
fn constructors_set_variable_and_sign() {
    let positive = Lit::new(VarId::new(3), true);
    let negative = Lit::new(VarId::new(3), false);

    assert_eq!(positive.var(), VarId::new(3));
    assert!(positive.is_positive());
    assert_eq!(negative.var(), VarId::new(3));
    assert!(!negative.is_positive());
}

#[test]
fn negation_flips_the_sign_only() {
    let literal = Lit::new(VarId::new(7), true);

    assert_eq!(!literal, Lit::new(VarId::new(7), false));
    assert_eq!(!&literal, Lit::new(VarId::new(7), false));
}

#[test]
fn display_uses_expected_symbol() {
    assert_eq!(Lit::new(VarId::new(2), true).to_text(), "b2");
    assert_eq!(Lit::new(VarId::new(2), false).to_text(), "¬b2");
}

#[test]
fn partial_order_compares_variable_first_then_sign() {
    let a = Lit::new(VarId::new(1), false);
    let b = Lit::new(VarId::new(1), true);
    let c = Lit::new(VarId::new(2), false);

    assert!(a < b);
    assert!(b < c);
    assert!(a < c);
}

#[test]
fn default_literal_uses_sentinel_values() {
    let literal = Lit::default();

    assert_eq!(literal.var(), VarId::new(usize::MAX));
    assert!(!literal.is_positive());
}
