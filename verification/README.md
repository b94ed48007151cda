# watchsat

A small SAT engine core: variables, literals and clauses, unit propagation
with two watched literals per clause, and 1-UIP conflict analysis that
undoes the current decision level and returns a learnt clause. The engine is
written in Verus, and its behaviour is stated in contracts that Verus proves.

## Layout

- `src/engine.rs`: the `Engine` (variables, assignments, watch lists,
  clauses, the propagation queue, listened variables) and its operations:
  `new`, `add_var`, `add_clause`, `enqueue`, `assert_lit`, `undo`, `value`,
  `lit_value`, `decision_var`, `listen`, `take_notifications`, `to_text`.
- `src/model.rs`: `EngineState`, the mathematical view of an engine, with the
  invariants the operations keep (`wf`, `watch_ok`, `watch_proper`,
  `watch_settled`, `reasons_sound`, ...).
- `src/propagation.rs`: what an accepted assertion leaves (`propagating`) and
  what a refused one leaves (`refused`).
- `src/soundness.rs`, `src/completeness.rs`: proofs that propagation only
  assigns literals forced by their reason clause, and that once it settles no
  clause is left unit or falsified unnoticed.
- `src/entailment.rs`: clauses read as formulas, and resolution; the clause
  learnt from a conflict is implied by the clauses.
- `src/notification.rs`: what listeners are told.
- `src/laws.rs`: laws of the library stated as proof functions.
- `src/lit.rs`, `src/lit_order.rs`, `src/var.rs`, `src/lbool.rs`,
  `src/clause.rs`, `src/text.rs`: literals, their order, variables, the
  three-valued `LBool`, clauses, and their text forms.
- `app/`: an engine with callbacks (`ListeningEngine`), which calls each
  listener with the notifications that the verified engine records, and
  `Display` for the library's types.
- `tests/`: tests of the library.

## Assertions

`Engine::assert_lit(lit)` makes `lit` a decision and propagates it. Its
precondition asks that `lit`'s variable is unassigned, that every decision tag
names an assigned variable, that the watch lists account for every entry, and
that each clause mentioning a variable still queued from before, and not made
true by it, keeps a literal on another variable that is not false: a clause
falsified before the decision, and visited for a queued variable, would leave
conflict analysis without a literal of the new level. `Engine::can_assert`
checks exactly this. Every operation keeps the
tags and the watch accounting (`undo` also clears the tags naming the variable
it unassigns), and the last condition holds whenever nothing is queued.

An assertion is refused only on a genuine conflict: when the watch lists are
proper, if some assignment satisfies every clause, keeps the current values
and makes `lit` true, the assertion succeeds. A refusal undoes the level and
returns the first-UIP clause: the resolvent of the falsified clause with the
reason clauses of the level, taken back along the trail until one literal of
the level is left, which comes first.

An accepted assertion keeps settled every clause that was settled before it
(its two watched literals registered, and false only while their variable is
queued), and so leaves none of them unit or falsified. A clause stored while
one of its watched literals is already false is not settled; propagation does
not revisit it for that literal, so it may be left unit.
