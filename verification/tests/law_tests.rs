use watchsat::{false_lit, neg, pos, true_lit, Clause, ClauseId, Engine, LBool, Lit, PropagationError, VarId};

#[test]
fn negating_twice_gives_the_literal_back() {
    let l = Lit::new(VarId::new(4), false);
    assert_eq!(!!l, l);
    assert_eq!(l.negate().negate(), l);
    assert_ne!(!l, l);
}

#[test]
fn negation_flips_the_value_of_a_literal() {
    let mut engine = Engine::new();
    let a = engine.add_var();
    let b = engine.add_var();
    engine.assert_lit(neg(a)).unwrap();

    assert_eq!(engine.lit_value(&pos(a)), LBool::False);
    assert_eq!(engine.lit_value(&!pos(a)), LBool::True);
    assert_eq!(engine.lit_value(&pos(b)), LBool::Undef);
    assert_eq!(engine.lit_value(&!pos(b)), LBool::Undef);
}

#[test]
fn positive_literal_has_the_value_of_its_variable() {
    let mut engine = Engine::new();
    let a = engine.add_var();
    assert_eq!(engine.lit_value(&pos(a)), engine.value(a));
    engine.assert_lit(pos(a)).unwrap();
    assert_eq!(engine.lit_value(&pos(a)), engine.value(a));
    assert_eq!(engine.value(a), LBool::True);
}

#[test]
fn literals_are_ordered_by_variable_then_sign() {
    assert!(neg(VarId(1)) < pos(VarId(1)));
    assert!(pos(VarId(1)) < neg(VarId(2)));
    assert!(!(pos(VarId(3)) < pos(VarId(3))));
    assert_eq!(pos(VarId(3)).partial_cmp(&pos(VarId(3))), Some(std::cmp::Ordering::Equal));
    assert_eq!(pos(VarId(5)).partial_cmp(&neg(VarId(2))), Some(std::cmp::Ordering::Greater));
}

#[test]
fn reserved_variable_stays_true() {
    let mut engine = Engine::new();
    assert_eq!(engine.lit_value(&true_lit()), LBool::True);
    assert_eq!(engine.lit_value(&false_lit()), LBool::False);

    let a = engine.add_var();
    let b = engine.add_var();
    engine.add_clause(vec![neg(a), pos(b)]).unwrap();
    engine.add_clause(vec![neg(a), neg(b)]).unwrap();
    assert!(engine.assert_lit(pos(a)).is_err());
    assert_eq!(engine.value(VarId(0)), LBool::True);
    engine.assert_lit(neg(a)).unwrap();
    engine.undo(a);
    assert_eq!(engine.value(VarId(0)), LBool::True);
}

#[test]
fn refused_assertion_restores_the_assignment() {
    let mut engine = Engine::new();
    let d = engine.add_var();
    let a = engine.add_var();
    let b = engine.add_var();
    let c = engine.add_var();

    engine.add_clause(vec![neg(a), pos(b)]).unwrap();
    engine.add_clause(vec![neg(b), pos(c)]).unwrap();
    engine.add_clause(vec![neg(b), neg(c)]).unwrap();

    engine.assert_lit(pos(d)).unwrap();
    let result = engine.assert_lit(pos(a));
    assert!(matches!(result, Err(PropagationError::Conflict { .. })));

    assert_eq!(engine.value(d), LBool::True);
    assert_eq!(engine.value(a), LBool::Undef);
    assert_eq!(engine.value(b), LBool::Undef);
    assert_eq!(engine.value(c), LBool::Undef);
    assert_eq!(engine.decision_var(b), None);
    assert_eq!(engine.decision_var(c), None);
}

#[test]
fn propagated_variables_are_tagged_with_their_decision() {
    let mut engine = Engine::new();
    let a = engine.add_var();
    let b = engine.add_var();
    let c = engine.add_var();

    engine.add_clause(vec![neg(a), pos(b)]).unwrap();
    engine.add_clause(vec![neg(b), neg(c)]).unwrap();
    engine.assert_lit(pos(a)).unwrap();

    assert_eq!(engine.decision_var(a), None);
    assert_eq!(engine.decision_var(b), Some(a));
    assert_eq!(engine.decision_var(c), Some(a));
    assert_eq!(engine.value(c), LBool::False);
}

#[test]
fn settled_propagation_leaves_no_unit_clause() {
    let mut engine = Engine::new();
    let a = engine.add_var();
    let b = engine.add_var();
    let c = engine.add_var();
    let d = engine.add_var();

    engine.add_clause(vec![pos(a), pos(b), pos(c), pos(d)]).unwrap();
    engine.add_clause(vec![pos(a), neg(c)]).unwrap();

    engine.assert_lit(neg(b)).unwrap();
    assert_eq!(engine.value(c), LBool::Undef);
    assert_eq!(engine.value(d), LBool::Undef);

    // a false makes c false, and then the first clause is unit in d.
    engine.assert_lit(neg(a)).unwrap();
    assert_eq!(engine.value(c), LBool::False);
    assert_eq!(engine.value(d), LBool::True);
    assert!(engine.watches_consistent());
}

#[test]
fn empty_clause_is_refused() {
    let mut engine = Engine::new();
    let result = engine.add_clause(vec![]);
    assert_eq!(result, Err(PropagationError::Conflict { clause: vec![] }));
}

#[test]
fn contradicting_unit_clause_is_refused() {
    let mut engine = Engine::new();
    let a = engine.add_var();
    engine.add_clause(vec![pos(a)]).unwrap();
    let result = engine.add_clause(vec![neg(a)]);
    assert_eq!(result, Err(PropagationError::Conflict { clause: vec![neg(a)] }));
    assert_eq!(engine.value(a), LBool::True);
}

#[test]
fn enqueue_reports_acceptance() {
    let mut engine = Engine::new();
    let a = engine.add_var();
    assert!(engine.enqueue(pos(a), None));
    assert!(engine.enqueue(pos(a), None));
    assert!(!engine.enqueue(neg(a), None));
    assert_eq!(engine.value(a), LBool::True);
}

#[test]
fn texts_have_exact_forms() {
    assert_eq!(VarId(12).to_text(), "b12");
    assert_eq!(VarId(0).to_text(), "b0");
    assert_eq!(pos(VarId(7)).to_text(), "b7");
    assert_eq!(neg(VarId(7)).to_text(), "¬b7");
    assert_eq!(LBool::True.to_text(), "True");
    assert_eq!(LBool::False.to_text(), "False");
    assert_eq!(LBool::Undef.to_text(), "Undef");
    let clause = Clause { lits: vec![neg(VarId(10)), pos(VarId(2))] };
    assert_eq!(clause.to_text(), "¬b10 ∨ b2");
    assert_eq!(ClauseId(4).to_text(), "c4");
}

#[test]
fn engine_text_lists_variables_then_clauses() {
    let mut engine = Engine::new();
    let a = engine.add_var();
    let b = engine.add_var();
    engine.add_clause(vec![pos(a), neg(b)]).unwrap();
    assert_eq!(engine.to_text(), "b0: True\nb1: Undef\nb2: Undef\nb1 ∨ ¬b2\n");
}

#[test]
fn notifications_come_in_assignment_order() {
    let mut engine = Engine::new();
    let a = engine.add_var();
    let b = engine.add_var();
    let c = engine.add_var();
    engine.listen(c);
    engine.listen(b);
    engine.listen(b);
    engine.add_clause(vec![neg(a), pos(b)]).unwrap();
    engine.add_clause(vec![neg(b), neg(c)]).unwrap();
    engine.assert_lit(pos(a)).unwrap();
    assert_eq!(engine.take_notifications(), vec![(b, LBool::True), (c, LBool::False)]);
    assert_eq!(engine.take_notifications(), vec![]);
}

#[test]
fn can_assert_checks_the_preconditions() {
    let mut engine = Engine::new();
    let a = engine.add_var();
    assert!(engine.can_assert(pos(a)));
    engine.assert_lit(pos(a)).unwrap();
    assert!(!engine.can_assert(pos(a)));
    assert!(!engine.can_assert(neg(a)));
}

#[test]
fn learnt_clause_is_false_before_the_assertion_but_for_its_head() {
    let mut engine = Engine::new();
    let d = engine.add_var();
    let a = engine.add_var();
    let b = engine.add_var();
    let c = engine.add_var();

    engine.add_clause(vec![neg(a), pos(b)]).unwrap();
    engine.add_clause(vec![neg(b), neg(d), pos(c)]).unwrap();
    engine.add_clause(vec![neg(c), neg(b)]).unwrap();

    engine.assert_lit(pos(d)).unwrap();
    let result = engine.assert_lit(pos(a));
    assert_eq!(result, Err(PropagationError::Conflict { clause: vec![neg(b), neg(d)] }));
    // ¬d is false under what held before the assertion; b was unassigned.
    assert_eq!(engine.lit_value(&neg(d)), LBool::False);
    assert_eq!(engine.value(b), LBool::Undef);
}

#[test]
fn settled_engine_accepts_every_unassigned_decision() {
    let mut engine = Engine::new();
    let a = engine.add_var();
    let b = engine.add_var();
    let c = engine.add_var();
    let d = engine.add_var();
    engine.add_clause(vec![pos(a), pos(b), pos(c)]).unwrap();
    engine.add_clause(vec![neg(a), pos(d)]).unwrap();
    engine.add_clause(vec![neg(b), neg(d)]).unwrap();

    engine.assert_lit(pos(b)).unwrap();
    assert_eq!(engine.value(d), LBool::False);
    assert_eq!(engine.value(a), LBool::False);
    assert_eq!(engine.value(c), LBool::Undef);
    assert!(engine.can_assert(pos(c)));
    assert!(engine.can_assert(neg(c)));
    assert!(!engine.can_assert(pos(a)));
}

#[test]
fn unit_clause_before_any_decision_has_no_decision_var() {
    let mut engine = Engine::new();
    let a = engine.add_var();
    assert_eq!(engine.add_clause(vec![pos(a)]), Ok(()));
    assert_eq!(engine.value(a), LBool::True);
    assert_eq!(engine.decision_var(a), None);
}

#[test]
fn decision_counts_as_implication_point() {
    let mut engine = Engine::new();
    let a = engine.add_var();
    let b = engine.add_var();
    engine.add_clause(vec![neg(a), pos(b)]).unwrap();
    engine.add_clause(vec![neg(a), neg(b)]).unwrap();
    assert_eq!(engine.assert_lit(pos(a)), Err(PropagationError::Conflict { clause: vec![neg(a)] }));
    assert_eq!(engine.value(a), LBool::Undef);
    assert_eq!(engine.value(b), LBool::Undef);
}

#[test]
fn conflict_with_the_decision_as_only_current_literal() {
    let mut engine = Engine::new();
    let a = engine.add_var();
    let x = engine.add_var();
    engine.assert_lit(pos(x)).unwrap();
    engine.add_clause(vec![neg(a), neg(x)]).unwrap();
    assert!(engine.can_assert(pos(a)));
    assert_eq!(engine.assert_lit(pos(a)), Err(PropagationError::Conflict { clause: vec![neg(a), neg(x)] }));
    assert_eq!(engine.value(a), LBool::Undef);
    assert_eq!(engine.value(x), LBool::True);
}

#[test]
fn satisfied_tautology_is_no_conflict() {
    let mut engine = Engine::new();
    let a = engine.add_var();
    engine.add_clause(vec![pos(a), neg(a)]).unwrap();
    assert_eq!(engine.assert_lit(pos(a)), Ok(()));
    assert_eq!(engine.value(a), LBool::True);
}

#[test]
fn deciding_continues_after_a_refusal() {
    let mut engine = Engine::new();
    let a = engine.add_var();
    let b = engine.add_var();
    let c = engine.add_var();
    engine.add_clause(vec![neg(a), pos(b)]).unwrap();
    engine.add_clause(vec![neg(a), neg(b)]).unwrap();
    engine.add_clause(vec![pos(a), pos(c)]).unwrap();
    assert!(engine.assert_lit(pos(a)).is_err());
    assert!(engine.watches_consistent());
    assert!(engine.can_assert(neg(a)));
    assert_eq!(engine.assert_lit(neg(a)), Ok(()));
    assert_eq!(engine.value(c), LBool::True);
}

#[test]
fn deciding_the_head_of_a_learnt_clause() {
    let mut engine = Engine::new();
    let u = engine.add_var();
    let x = engine.add_var();
    engine.assert_lit(neg(x)).unwrap();
    engine.add_clause(vec![neg(u), pos(x)]).unwrap();
    assert!(engine.can_assert(neg(u)));
    assert_eq!(engine.assert_lit(neg(u)), Ok(()));
}

#[test]
fn queued_unit_satisfying_a_clause_leaves_the_decision_free() {
    let mut engine = Engine::new();
    let a = engine.add_var();
    let b = engine.add_var();
    engine.add_clause(vec![pos(a), pos(b)]).unwrap();
    engine.add_clause(vec![pos(a)]).unwrap();
    assert!(engine.can_assert(neg(b)));
    assert_eq!(engine.assert_lit(neg(b)), Ok(()));
    assert_eq!(engine.value(a), LBool::True);
    assert_eq!(engine.value(b), LBool::False);
}

#[test]
fn refusal_with_a_queued_unit_restores_the_values() {
    let mut engine = Engine::new();
    let a = engine.add_var();
    let b = engine.add_var();
    let c = engine.add_var();
    engine.add_clause(vec![pos(a), pos(b)]).unwrap();
    engine.add_clause(vec![pos(b), pos(c)]).unwrap();
    engine.add_clause(vec![pos(b), neg(c)]).unwrap();
    engine.add_clause(vec![pos(a)]).unwrap();
    assert!(engine.can_assert(neg(b)));
    assert_eq!(engine.assert_lit(neg(b)), Err(PropagationError::Conflict { clause: vec![pos(b)] }));
    assert_eq!(engine.value(a), LBool::True);
    assert_eq!(engine.value(b), LBool::Undef);
    assert_eq!(engine.value(c), LBool::Undef);
}

#[test]
fn undone_decision_can_be_asserted_again() {
    let mut engine = Engine::new();
    let a = engine.add_var();
    let b = engine.add_var();
    engine.add_clause(vec![neg(a), pos(b)]).unwrap();
    engine.assert_lit(pos(a)).unwrap();
    assert_eq!(engine.decision_var(b), Some(a));
    engine.undo(a);
    assert_eq!(engine.decision_var(b), None);
    assert!(engine.can_assert(pos(a)));
    assert_eq!(engine.assert_lit(pos(a)), Ok(()));
    assert_eq!(engine.value(a), LBool::True);
    assert_eq!(engine.value(b), LBool::True);
}

#[test]
fn clause_stored_with_a_false_watch_is_left_unit() {
    let mut engine = Engine::new();
    let a = engine.add_var();
    let b = engine.add_var();
    let c = engine.add_var();
    engine.assert_lit(neg(a)).unwrap();
    engine.add_clause(vec![pos(a), pos(b), pos(c)]).unwrap();
    assert_eq!(engine.assert_lit(neg(b)), Ok(()));
    // The clause was stored watching the false literal `a`, so it was not
    // settled: the assertion moves its watch to `c` without forcing it.
    assert_eq!(engine.value(c), LBool::Undef);
    assert!(engine.watches_consistent());
}

#[test]
fn decision_contradicting_a_queued_unit_is_refused() {
    let mut engine = Engine::new();
    let a = engine.add_var();
    let x = engine.add_var();
    engine.add_clause(vec![neg(a), neg(x)]).unwrap();
    engine.add_clause(vec![pos(a)]).unwrap();
    assert!(engine.can_assert(pos(x)));
    assert_eq!(engine.assert_lit(pos(x)), Err(PropagationError::Conflict { clause: vec![neg(x), neg(a)] }));
    assert_eq!(engine.value(a), LBool::True);
    assert_eq!(engine.value(x), LBool::Undef);
}

#[test]
fn clause_falsified_before_a_decision_blocks_it() {
    let mut engine = Engine::new();
    let a = engine.add_var();
    let b = engine.add_var();
    let x = engine.add_var();
    engine.assert_lit(neg(b)).unwrap();
    engine.add_clause(vec![pos(a)]).unwrap();
    engine.add_clause(vec![neg(a), pos(b)]).unwrap();
    assert!(!engine.can_assert(pos(x)));
}
