//! Laws of literals, their order, and the reserved variable.
use vstd::prelude::*;

use crate::clause::ClauseId;
use crate::lbool::LBool;
use crate::lit::Lit;
use crate::lit_order::lit_less;
use crate::model::{is_false, lit_value, propagating, satisfied, EngineState};
use crate::var::VarId;
use crate::propagation::refused;

verus! {

/// Negating a literal flips its value (true and false swap, unassigned
/// stays unassigned), and negating twice gives the literal back.
pub proof fn law_negation_flips(a: Seq<LBool>, l: Lit)
    ensures
        lit_value(a, l.negated()) == match lit_value(a, l) {
            LBool::True => LBool::False,
            LBool::False => LBool::True,
            LBool::Undef => LBool::Undef,
        },
        l.negated().negated() == l,
        l.negated() != l,
{
}

/// The positive literal of a variable has the variable's value.
pub proof fn law_positive_literal_value(a: Seq<LBool>, l: Lit)
    requires
        l.sign,
    ensures
        lit_value(a, l) == a[l.vi()],
{
}

/// Literals are totally and strictly ordered: by variable index, then the
/// negative literal before the positive one.
pub proof fn law_lit_order(a: Lit, b: Lit, c: Lit)
    ensures
        !lit_less(a, a),
        lit_less(a, b) ==> !lit_less(b, a),
        lit_less(a, b) && lit_less(b, c) ==> lit_less(a, c),
        a == b || lit_less(a, b) || lit_less(b, a),
{
}

/// The reserved variable `0`, true in a new engine, stays true through
/// adding variables and clauses, asking literals to hold, accepted and
/// refused asserts, and undoing any other variable.
pub proof fn law_reserved_variable_stays_true(
    o: EngineState,
    l: Lit,
    r: Option<ClauseId>,
    lits: Seq<Lit>,
    lit: Lit,
    t: EngineState,
    learnt: Seq<Lit>,
    v: int,
)
    requires
        o.num_vars() >= 1,
        o.assigns[0] == LBool::True,
    ensures
        EngineState::initial().assigns[0] == LBool::True,
        o.with_new_var().assigns[0] == LBool::True,
        0 <= l.vi() < o.num_vars() ==> o.after_enqueue(l, r).assigns[0] == LBool::True,
        lits.len() >= 2 ==> o.with_clause(lits).assigns[0] == LBool::True,
        propagating(o, lit, t) ==> t.assigns[0] == LBool::True,
        refused(o, lit, t, learnt) ==> t.assigns[0] == LBool::True,
        0 < v < o.num_vars() ==> o.with_undone(v).assigns[0] == LBool::True,
{
    if 0 <= l.vi() < o.num_vars() && l.vi() == 0 {
        assert(o.after_enqueue(l, r) == o);
    }
}

/// Once propagation has settled (the watch invariant holds for the clauses
/// outside `bad` and nothing is queued), no such clause is left unit or
/// falsified unnoticed: each clause outside `bad` whose literals are pairwise
/// distinct is satisfied, or its first two literals are distinct, not false,
/// and each is watched by the clause. With `bad` empty this covers every
/// clause; after an accepted assertion, `bad` is the set of clauses that were
/// unsettled before it.
pub proof fn law_propagation_complete(s: EngineState, bad: Set<ClauseId>, c: ClauseId)
    requires
        s.wf(),
        s.settled_except(bad),
        !bad.contains(c),
        s.queue.len() == 0,
        c.0 < s.num_clauses(),
        s.clauses[c.0 as int].no_duplicates(),
    ensures
        satisfied(s.assigns, s.clauses[c.0 as int]) || ({
            let lits = s.clauses[c.0 as int];
            &&& lits[0] != lits[1]
            &&& !is_false(s.assigns, lits[0])
            &&& !is_false(s.assigns, lits[1])
            &&& s.watch_list(lits[0]).contains(c)
            &&& s.watch_list(lits[1]).contains(c)
        }),
{
    let lits = s.clauses[c.0 as int];
    if !satisfied(s.assigns, lits) {
        assert(lits.len() >= 2);
        let g0 = lits[0];
        let g1 = lits[1];
        assert(s.watch_list(g0).contains(c));
        assert(s.watch_list(g1).contains(c));
    }
}

/// The decision tags that `Engine::decision_var` reports, while an
/// assertion of `lit` propagates: the decided variable has none, since it was
/// set directly; each variable that the assertion assigned otherwise is tagged
/// with it; every other variable keeps its tag; and an unassigned variable has
/// none.
pub proof fn law_decision_tags(o: EngineState, lit: Lit, s: EngineState, v: VarId)
    requires
        o.wf(),
        0 <= lit.vi() < o.num_vars(),
        o.assigns[lit.vi()] == LBool::Undef,
        propagating(o, lit, s),
        s.wf(),
        0 <= v.0 < o.num_vars(),
    ensures
        s.decisions[lit.vi()] == None::<VarId>,
        s.assigns[v.0 as int] != LBool::Undef && o.assigns[v.0 as int] == LBool::Undef && v != lit.x
            ==> s.decisions[v.0 as int] == Some(lit.x),
        o.assigns[v.0 as int] != LBool::Undef ==> s.decisions[v.0 as int] == o.decisions[v.0 as int],
        s.assigns[v.0 as int] == LBool::Undef ==> s.decisions[v.0 as int] == None::<VarId>,
{
    assert(s.trail.contains(v) <==> (o.assigns[v.0 as int] == LBool::Undef && s.assigns[v.0 as int] != LBool::Undef));
}

/// With nothing queued from before, the queue condition of a decision
/// holds: no queued variable can leave a clause without a literal of the
/// new level.
pub proof fn law_nothing_queued_queue_ready(s: EngineState)
    requires
        s.queue.len() == 0,
    ensures
        s.queue_ready(),
{
}

/// When every decision tag names an assigned variable, as every operation
/// keeps, an unassigned variable tags nothing.
pub proof fn law_live_tags_untagged(s: EngineState, x: VarId)
    requires
        s.tags_live(),
        0 <= x.0 < s.num_vars(),
        s.assigns[x.0 as int] == LBool::Undef,
    ensures
        s.untagged(x),
{
    assert forall|v: int| 0 <= v < s.num_vars() implies #[trigger] s.decisions[v] != Some(x) by {
        if s.decisions[v] == Some(x) {
            assert(s.assigns[x.0 as int] != LBool::Undef);
        }
    }
}

} // verus!
