use std::sync::{Arc, Mutex};

use watchsat::{neg, pos, Clause, Engine, LBool, Lit, PropagationError, VarId};

#[test]
fn test_basic_assignment_and_value() {
    let mut engine = Engine::new();
    let a = engine.add_var();

    assert_eq!(engine.value(a), LBool::Undef);

    engine.assert_lit(pos(a)).unwrap();
    assert_eq!(engine.value(a), LBool::True);
    assert_eq!(engine.lit_value(&pos(a)), LBool::True);
    assert_eq!(engine.lit_value(&neg(a)), LBool::False);
}

#[test]
fn test_unit_propagation_simple() {
    let mut engine = Engine::new();
    let a = engine.add_var();
    let b = engine.add_var();

    // Clause: (¬a ∨ b)  => If a is true, b must be true.
    engine.add_clause(vec![neg(a), pos(b)]).unwrap();

    engine.assert_lit(pos(a)).unwrap();

    assert_eq!(engine.value(b), LBool::True, "b should be propagated by unit clause");
    assert_eq!(engine.decision_var(b), Some(a), "a should be the decision variable for b");
}

#[test]
fn test_chained_propagation() {
    let mut engine = Engine::new();
    let a = engine.add_var();
    let b = engine.add_var();
    let c = engine.add_var();

    // (¬a ∨ b) and (¬b ∨ c): a -> b -> c
    engine.add_clause(vec![neg(a), pos(b)]).unwrap();
    engine.add_clause(vec![neg(b), pos(c)]).unwrap();

    engine.assert_lit(pos(a)).unwrap();

    assert_eq!(engine.value(c), LBool::True, "c should propagate via b");
}

#[test]
fn test_two_watched_literals_movement() {
    let mut engine = Engine::new();
    let a = engine.add_var();
    let b = engine.add_var();
    let c = engine.add_var();

    // Clause: (a ∨ b ∨ c), initially watching a and b.
    engine.add_clause(vec![pos(a), pos(b), pos(c)]).unwrap();

    // a = False moves the watch from a to c, since b is still unassigned.
    engine.assert_lit(neg(a)).unwrap();
    assert_eq!(engine.value(b), LBool::Undef, "b should still be undef");
    assert_eq!(engine.value(c), LBool::Undef, "c should still be undef");

    // b = False propagates c.
    engine.assert_lit(neg(b)).unwrap();
    assert_eq!(engine.value(c), LBool::True, "c must be true now");
}

#[test]
fn test_listeners() {
    let mut engine = Engine::new();
    let a = engine.add_var();
    let b = engine.add_var();

    let triggered = Arc::new(Mutex::new(false));
    let triggered_clone = Arc::clone(&triggered);

    // Listen to b
    let listener = move |_: VarId, _: LBool| {
        let mut val = triggered_clone.lock().unwrap();
        *val = true;
    };
    engine.listen(b);

    // (¬a ∨ b)
    engine.add_clause(vec![neg(a), pos(b)]).unwrap();

    // Assert a, which propagates b, which is reported to the listener
    engine.assert_lit(pos(a)).unwrap();
    for (var, value) in engine.take_notifications() {
        if var == b {
            listener(var, value);
        }
    }

    assert!(*triggered.lock().unwrap(), "Listener on b should have been triggered");
}

#[test]
fn test_diamond_propagation() {
    let mut engine = Engine::new();
    let x1 = engine.add_var();
    let x2 = engine.add_var();
    let x3 = engine.add_var();
    let x4 = engine.add_var();

    // x1 -> x2
    engine.add_clause(vec![neg(x1), pos(x2)]).unwrap();
    // x1 -> x3
    engine.add_clause(vec![neg(x1), pos(x3)]).unwrap();
    // (x2 ∧ x3) -> x4
    engine.add_clause(vec![neg(x2), neg(x3), pos(x4)]).unwrap();

    engine.assert_lit(pos(x1)).unwrap();

    assert_eq!(engine.value(x4), LBool::True, "x4 should be forced via x2 and x3");
}

#[test]
fn test_complex_conflict_1uip() {
    let mut engine = Engine::new();
    let vars: Vec<VarId> = (0..10).map(|_| engine.add_var()).collect();

    // Chain: x1 -> x2 -> x3 -> x4
    engine.add_clause(vec![neg(vars[1]), pos(vars[2])]).unwrap();
    engine.add_clause(vec![neg(vars[2]), pos(vars[3])]).unwrap();
    engine.add_clause(vec![neg(vars[3]), pos(vars[4])]).unwrap();

    // (x4 ∧ x5) -> conflict
    engine.add_clause(vec![neg(vars[4]), neg(vars[5])]).unwrap();

    // (x3 ∧ x6) -> x5
    engine.add_clause(vec![neg(vars[3]), neg(vars[6]), pos(vars[5])]).unwrap();

    engine.assert_lit(pos(vars[6])).unwrap();

    // x1 -> x2 -> x3 -> x4 -> conflict with x5
    let result = engine.assert_lit(pos(vars[1]));

    assert!(result.is_err(), "Should detect a conflict");
    if let Err(PropagationError::Conflict { clause }) = result {
        assert!(!clause.is_empty(), "Conflict clause should not be empty");
    }
}

#[test]
fn test_conflict_analysis() {
    let mut engine = Engine::new();
    let x1 = engine.add_var();
    let x2 = engine.add_var();
    let x3 = engine.add_var();
    let x4 = engine.add_var();
    let x5 = engine.add_var();
    let x6 = engine.add_var();
    let x7 = engine.add_var();
    let x8 = engine.add_var();
    let x9 = engine.add_var();

    engine.add_clause(vec![pos(x1), pos(x2)]).unwrap();
    engine.add_clause(vec![pos(x1), pos(x3), pos(x7)]).unwrap();
    engine.add_clause(vec![neg(x2), neg(x3), pos(x4)]).unwrap();
    engine.add_clause(vec![neg(x4), pos(x5), pos(x8)]).unwrap();
    engine.add_clause(vec![neg(x4), pos(x6), pos(x9)]).unwrap();
    engine.add_clause(vec![neg(x5), neg(x6)]).unwrap();

    engine.assert_lit(neg(x7)).unwrap();
    engine.assert_lit(neg(x8)).unwrap();
    engine.assert_lit(neg(x9)).unwrap();

    // ¬x1 triggers conflict analysis
    let result = engine.assert_lit(neg(x1));
    assert!(result.is_err(), "Should trigger conflict");
}

#[test]
fn test_display_implementations() {
    // LBool
    assert_eq!(LBool::True.to_text(), "True");
    assert_eq!(LBool::False.to_text(), "False");
    assert_eq!(LBool::Undef.to_text(), "Undef");

    // Lit
    let lit_pos = pos(VarId(5));
    let lit_neg = neg(VarId(5));
    assert_eq!(lit_pos.to_text(), "b5");
    assert_eq!(lit_neg.to_text(), "¬b5");

    // Clause
    let clause = Clause { lits: vec![pos(VarId(1)), neg(VarId(2)), pos(VarId(3))] };
    assert_eq!(clause.to_text(), "b1 ∨ ¬b2 ∨ b3");

    // Engine
    let mut engine = Engine::new();
    let a = engine.add_var();
    let _ = engine.add_clause(vec![pos(a)]);
    let output = engine.to_text();
    assert!(output.contains("b0"));
    assert!(output.contains("b1"));
}

#[test]
fn test_lit_default_and_operators() {
    let default_lit = Lit::default();
    assert_eq!(default_lit.var(), VarId(usize::MAX));
    assert!(!default_lit.is_positive());

    let lit = pos(VarId(3));
    let neg_lit = !lit;
    assert_eq!(neg_lit.var(), VarId(3));
    assert!(!neg_lit.is_positive());

    let lit_ref = &pos(VarId(4));
    let neg_lit_ref = !lit_ref;
    assert_eq!(neg_lit_ref.var(), VarId(4));
    assert!(!neg_lit_ref.is_positive());

    let lit1 = pos(VarId(1));
    let lit2 = pos(VarId(2));
    let lit3 = neg(VarId(1));
    assert!(lit1 < lit2);
    assert!(lit3 < lit1); // same variable: negative sorts before positive
}

#[test]
fn test_decision_var_getter() {
    let mut engine = Engine::new();
    let a = engine.add_var();
    let b = engine.add_var();

    engine.add_clause(vec![neg(a), pos(b)]).unwrap();

    assert_eq!(engine.decision_var(b), None);

    engine.assert_lit(pos(a)).unwrap();
    assert_eq!(engine.decision_var(b), Some(a));
}

#[test]
fn test_empty_clause() {
    let mut engine = Engine::new();
    let result = engine.add_clause(vec![]);
    assert!(result.is_err(), "Empty clause should return error");
}

#[test]
fn test_unit_clause() {
    let mut engine = Engine::new();
    let a = engine.add_var();

    let _ = engine.add_clause(vec![pos(a)]);

    assert_eq!(engine.value(a), LBool::True);
}

#[test]
fn test_enqueue_already_assigned() {
    let mut engine = Engine::new();
    let a = engine.add_var();
    let b = engine.add_var();

    engine.add_clause(vec![pos(a), pos(b)]).unwrap();

    engine.assert_lit(pos(a)).unwrap();
    assert_eq!(engine.value(a), LBool::True);

    let result = engine.enqueue(pos(a), None);
    assert!(result, "Enqueuing consistent value should succeed");

    let result2 = engine.enqueue(neg(a), None);
    assert!(!result2, "Enqueuing inconsistent value should fail");
}

#[test]
fn test_no_conflict_when_consistent() {
    let mut engine = Engine::new();
    let a = engine.add_var();

    let result = engine.assert_lit(pos(a));
    assert!(result.is_ok(), "Should succeed with consistent assertion");
}

#[test]
fn test_propagate_satisfied_clause() {
    let mut engine = Engine::new();
    let a = engine.add_var();
    let b = engine.add_var();
    let c = engine.add_var();

    engine.add_clause(vec![pos(a), pos(b), pos(c)]).unwrap();

    engine.assert_lit(pos(a)).unwrap();

    // The clause is already satisfied by a
    engine.assert_lit(neg(b)).unwrap();

    assert_eq!(engine.value(c), LBool::Undef);
}

#[test]
fn test_watch_literal_unwatching() {
    let mut engine = Engine::new();
    let a = engine.add_var();
    let b = engine.add_var();
    let c = engine.add_var();
    let d = engine.add_var();

    engine.add_clause(vec![pos(a), pos(b), pos(c), pos(d)]).unwrap();

    engine.assert_lit(neg(a)).unwrap();
    assert_eq!(engine.value(b), LBool::Undef);
    assert_eq!(engine.value(c), LBool::Undef);
    assert_eq!(engine.value(d), LBool::Undef);

    engine.assert_lit(neg(b)).unwrap();
    assert_eq!(engine.value(c), LBool::Undef);
    assert_eq!(engine.value(d), LBool::Undef);

    engine.assert_lit(neg(c)).unwrap();
    assert_eq!(engine.value(d), LBool::True, "d should be propagated");
}

#[test]
fn test_conflict_with_multiple_watched_literals() {
    let mut engine = Engine::new();
    let a = engine.add_var();
    let b = engine.add_var();

    engine.add_clause(vec![pos(a), pos(b)]).unwrap();
    engine.add_clause(vec![neg(a), neg(b)]).unwrap();

    engine.assert_lit(pos(a)).unwrap();
    assert_eq!(engine.value(b), LBool::False);

    assert_eq!(engine.value(b), LBool::False, "b should be False");
}

#[test]
fn test_lit_value_with_all_states() {
    let mut engine = Engine::new();
    let a = engine.add_var();

    assert_eq!(engine.lit_value(&pos(a)), LBool::Undef);
    assert_eq!(engine.lit_value(&neg(a)), LBool::Undef);

    engine.assert_lit(pos(a)).unwrap();
    assert_eq!(engine.lit_value(&pos(a)), LBool::True);
    assert_eq!(engine.lit_value(&neg(a)), LBool::False);
}

#[test]
fn test_lit_value_with_false_assignment() {
    let mut engine = Engine::new();
    let a = engine.add_var();

    engine.assert_lit(neg(a)).unwrap();
    assert_eq!(engine.lit_value(&pos(a)), LBool::False);
    assert_eq!(engine.lit_value(&neg(a)), LBool::True);
}

#[test]
fn test_enqueue_with_true_assignment() {
    let mut engine = Engine::new();
    let a = engine.add_var();

    engine.assert_lit(pos(a)).unwrap();

    let result = engine.enqueue(pos(a), None);
    assert!(result);
}

#[test]
fn test_enqueue_with_false_assignment() {
    let mut engine = Engine::new();
    let a = engine.add_var();

    engine.assert_lit(neg(a)).unwrap();

    let result = engine.enqueue(neg(a), None);
    assert!(result);
}

#[test]
fn test_conflict_restoring_pos_watches() {
    let mut engine = Engine::new();
    let a = engine.add_var();
    let b = engine.add_var();

    engine.add_clause(vec![pos(a), pos(b)]).unwrap();
    engine.add_clause(vec![neg(a), neg(b)]).unwrap();

    engine.assert_lit(neg(a)).unwrap();

    assert_eq!(engine.value(b), LBool::True);
}

#[test]
fn test_propagate_with_negative_literal() {
    let mut engine = Engine::new();
    let a = engine.add_var();
    let b = engine.add_var();
    let c = engine.add_var();

    engine.add_clause(vec![neg(a), neg(b), pos(c)]).unwrap();

    engine.assert_lit(pos(a)).unwrap();
    engine.assert_lit(pos(b)).unwrap();

    assert_eq!(engine.value(c), LBool::True);
}

#[test]
fn test_engine_display_with_multiple_clauses() {
    let mut engine = Engine::new();
    let a = engine.add_var();
    let b = engine.add_var();

    engine.add_clause(vec![pos(a), pos(b)]).unwrap();
    engine.add_clause(vec![neg(a), pos(b)]).unwrap();

    let output = engine.to_text();
    assert!(output.contains("b0"));
    assert!(output.contains("b1"));
    assert!(output.contains("b2"));
    assert!(output.contains("∨"));
}

#[test]
fn test_conflict_error_propagation() {
    let mut engine = Engine::new();
    let x1 = engine.add_var();
    let x2 = engine.add_var();
    let x3 = engine.add_var();
    let x4 = engine.add_var();
    let x5 = engine.add_var();
    let x6 = engine.add_var();
    let x7 = engine.add_var();
    let x8 = engine.add_var();
    let x9 = engine.add_var();

    engine.add_clause(vec![pos(x1), pos(x2)]).unwrap();
    engine.add_clause(vec![pos(x1), pos(x3), pos(x7)]).unwrap();
    engine.add_clause(vec![neg(x2), neg(x3), pos(x4)]).unwrap();
    engine.add_clause(vec![neg(x4), pos(x5), pos(x8)]).unwrap();
    engine.add_clause(vec![neg(x4), pos(x6), pos(x9)]).unwrap();
    engine.add_clause(vec![neg(x5), neg(x6)]).unwrap();

    engine.assert_lit(neg(x7)).unwrap();
    engine.assert_lit(neg(x8)).unwrap();
    engine.assert_lit(neg(x9)).unwrap();
    let result = engine.assert_lit(neg(x1));
    assert!(result.is_err(), "Should trigger conflict");

    if let Err(PropagationError::Conflict { clause }) = result {
        assert!(!clause.is_empty(), "Conflict clause should contain learnt literals");
    }
}

#[test]
fn test_conflict_with_true_value() {
    let mut engine = Engine::new();
    let a = engine.add_var();
    let b = engine.add_var();

    let _ = engine.add_clause(vec![pos(a), pos(b)]);
    let _ = engine.add_clause(vec![neg(a), neg(b)]);

    engine.assert_lit(pos(a)).unwrap();
    assert_eq!(engine.value(b), LBool::False);
}

#[test]
fn test_watch_negative_literal_swap() {
    let mut engine = Engine::new();
    let a = engine.add_var();
    let b = engine.add_var();
    let c = engine.add_var();
    let d = engine.add_var();

    engine.add_clause(vec![neg(a), neg(b), neg(c), neg(d)]).unwrap();

    engine.assert_lit(pos(a)).unwrap();
    engine.assert_lit(pos(b)).unwrap();

    assert_eq!(engine.value(c), LBool::Undef);
    assert_eq!(engine.value(d), LBool::Undef);

    // c = True makes the clause unit, forcing d = False
    engine.assert_lit(pos(c)).unwrap();

    assert_eq!(engine.value(d), LBool::False);
}

#[test]
fn test_clause_display_via_engine() {
    let clause = Clause { lits: vec![pos(VarId(1)), neg(VarId(2)), pos(VarId(3))] };

    let output = clause.to_text();
    assert_eq!(output, "b1 ∨ ¬b2 ∨ b3");
}

#[test]
fn test_default_engine() {
    let engine = Engine::default();
    assert_eq!(engine.value(VarId(0)), LBool::True); // variable 0 is forced to True by new()
}
