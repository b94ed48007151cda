//! The SAT engine: variables, clauses, assignments and watch lists.
use std::collections::VecDeque;

use vstd::prelude::*;
use vstd::string::StringExecFns;

use crate::clause::{push_lits_text, Clause, ClauseId};
use crate::completeness::{
    lemma_enqueue_complete, lemma_hand_done_complete, lemma_listening_frame, lemma_unsettled,
    lemma_kept_start, lemma_kept_grow, lemma_take_kept, lemma_visit_kept, lemma_restore_kept, lemma_kept_settled,
    lemma_new_var_complete, lemma_start_complete, lemma_take_complete, lemma_visit_complete,
    lemma_with_clause_complete,
};
use crate::entailment::{
    counted, extends, falsified, first_uip, touches_below, holds, lemma_conflict_refutes, lemma_models_same, models, implied, lemma_counted_none, lemma_counted_pop, lemma_implied_mono, lemma_implied_own,
    lemma_implied_same, lemma_resolve, marks_accounted, others, pivot, resolvent, rest,
};
use crate::laws::law_live_tags_untagged;
use crate::lbool::LBool;
use crate::lit::Lit;
use crate::model::{
    holds_true_on, clauses_text, is_false, is_true, lemma_distinct_vars_len,
    lemma_first_open, lemma_first_open_at, lemma_occ_absent, lemma_occ_empty, lemma_occ_skip,
    lemma_open_count_le, lemma_open_count_mark, lemma_open_count_pos, lemma_open_count_unmarked,
    lit_value, mentions, occ, open_count, propagating, same_literals, swapped, vars_text,
    watch_front, watched_count, EngineState,
};
use crate::notification::{lemma_enqueue_notes, lemma_fresh_notes, lemma_visit_notes, notes};
use crate::propagation::{
    lemma_conflict_open, lemma_hand_empty, lemma_tags_frame, lemma_level_restore, lemma_restore_watch,
    conflict_reached, lemma_start, lemma_take_watches, lemma_visit_propagating, refused,
};
use crate::soundness::{
    lemma_conflict_falsified, lemma_enqueue_sound, lemma_hand_done_sound, lemma_new_var_sound,
    lemma_ordered_at, lemma_proper_any_assigns, lemma_proper_frame, lemma_restore_proper,
    lemma_start_sound, lemma_take_sound, lemma_visit_ordered, lemma_visit_sound,
    lemma_with_clause_sound,
};
use crate::text::push_decimal;
use crate::var::VarId;

verus! {

/// A CDCL-based SAT engine.
///
/// The `Engine` manages variable assignments, watch lists for unit propagation,
/// and performs conflict analysis to learn new clauses.
pub struct Engine {
    pub(crate) assigns: Vec<LBool>,
    pub(crate) reason: Vec<Option<ClauseId>>,
    pub(crate) propagated_vars: Vec<VarId>,
    pub(crate) decision_vars: Vec<Option<VarId>>,
    pub(crate) decision_var: VarId,
    pub(crate) pos_watches: Vec<Vec<ClauseId>>,
    pub(crate) neg_watches: Vec<Vec<ClauseId>>,
    pub(crate) clauses: Vec<Clause>,
    pub(crate) prop_q: VecDeque<VarId>,
    pub(crate) listened: Vec<VarId>,
    pub(crate) notifications: Vec<(VarId, LBool)>,
}

/// Failure of an insertion or a propagation.
#[derive(Debug, Clone, PartialEq, Eq)]
pub enum PropagationError {
    /// Propagation or insertion produced an unsatisfied clause.
    ///
    /// The payload contains a clause explaining the conflict.
    Conflict { clause: Vec<Lit> },
}

impl View for Engine {
    type V = EngineState;

    closed spec fn view(&self) -> EngineState {
        EngineState {
            assigns: self.assigns@,
            reasons: self.reason@,
            trail: self.propagated_vars@,
            decisions: self.decision_vars@,
            decision: self.decision_var,
            pos_watches: self.pos_watches@.map_values(|w: Vec<ClauseId>| w@),
            neg_watches: self.neg_watches@.map_values(|w: Vec<ClauseId>| w@),
            clauses: self.clauses@.map_values(|c: Clause| c.lits@),
            queue: self.prop_q@,
            listened: self.listened@,
            notifications: self.notifications@,
        }
    }
}

impl Engine {
    /// How the abstract clauses and watch lists relate to the stored ones.
    proof fn lemma_view(&self)
        ensures
            self@.clauses.len() == self.clauses@.len(),
            forall|c: int| 0 <= c < self.clauses@.len() ==> #[trigger] self@.clauses[c] == self.clauses@[c].lits@,
            self@.pos_watches.len() == self.pos_watches@.len(),
            forall|v: int| 0 <= v < self.pos_watches@.len() ==> #[trigger] self@.pos_watches[v] == self.pos_watches@[v]@,
            self@.neg_watches.len() == self.neg_watches@.len(),
            forall|v: int| 0 <= v < self.neg_watches@.len() ==> #[trigger] self@.neg_watches[v] == self.neg_watches@[v]@,
            self@.trail.len() <= usize::MAX,
            self@.assigns.len() <= usize::MAX,
            self@.queue.len() <= usize::MAX,
    {
        assert(self.propagated_vars@.len() == self.propagated_vars.len());
        assert(self.assigns@.len() == self.assigns.len());
        assert(self.prop_q@.len() == self.prop_q.len());
    }

    /// Creates an empty SAT engine.
    ///
    /// A reserved internal variable is created at index `0` so that
    /// `true_lit()` and `false_lit()` always have a defined value.
    pub fn new() -> (e: Engine)
        ensures
            e@ == EngineState::initial(),
            e@.wf(),
            e@.watch_ok(),
            e@.watch_proper(),
            e@.queue_assigned(),
            e@.watch_settled(),
            e@.tags_live(),
    {
        let mut e = Engine {
            assigns: Vec::new(),
            reason: Vec::new(),
            propagated_vars: Vec::new(),
            decision_vars: Vec::new(),
            decision_var: VarId(usize::MAX),
            pos_watches: Vec::new(),
            neg_watches: Vec::new(),
            clauses: Vec::new(),
            prop_q: VecDeque::new(),
            listened: Vec::new(),
            notifications: Vec::new(),
        };
        e.add_var();
        e.assigns.set(0, LBool::True);
        proof {
            assert(e@.pos_watches =~= seq![Seq::<ClauseId>::empty()]);
            assert(e@.neg_watches =~= seq![Seq::<ClauseId>::empty()]);
            assert(e@.clauses =~= Seq::<Seq<Lit>>::empty());
            assert(e@.assigns =~= seq![LBool::True]);
        }
        e
    }

    /// Adds a fresh variable and returns its identifier.
    pub fn add_var(&mut self) -> (v: VarId)
        ensures
            v.0 == old(self)@.num_vars(),
            final(self)@ == old(self)@.with_new_var(),
            old(self)@.wf() ==> final(self)@.wf(),
            old(self)@.wf() && old(self)@.watch_ok() ==> final(self)@.watch_ok(),
            old(self)@.wf() && old(self)@.watch_proper() ==> final(self)@.watch_proper(),
            old(self)@.wf() && old(self)@.queue_assigned() ==> final(self)@.queue_assigned(),
            old(self)@.wf() && old(self)@.watch_settled() ==> final(self)@.watch_settled(),
            old(self)@.wf() && old(self)@.tags_live() ==> final(self)@.tags_live(),
    {
        let var_id = self.assigns.len();
        self.assigns.push(LBool::Undef);
        self.reason.push(None);
        self.decision_vars.push(None);
        self.pos_watches.push(Vec::new());
        self.neg_watches.push(Vec::new());
        proof {
            let o = old(self)@;
            let s = self@;
            assert(s.pos_watches =~= o.pos_watches.push(Seq::empty()));
            assert(s.neg_watches =~= o.neg_watches.push(Seq::empty()));
            assert(s =~= o.with_new_var());
            if o.wf() {
                lemma_new_var_sound(o);
            }
            if o.wf() && o.watch_settled() {
                lemma_new_var_complete(o);
            }
            if o.wf() && o.watch_ok() {
                assert forall|v: int, c: ClauseId|
                    0 <= v < s.num_vars() && 0 <= c.0 < s.num_clauses() implies #[trigger] s.entries(
                    v,
                    c,
                    -1,
                    Seq::empty(),
                ) <= watched_count(s.clauses[c.0 as int], v) by {
                    if v < o.num_vars() {
                        assert(s.entries(v, c, -1, Seq::empty()) == o.entries(v, c, -1, Seq::empty()));
                    } else {
                        lemma_occ_empty(c);
                    }
                }
            }
        }
        VarId(var_id)
    }

    /// Returns the current assignment of a variable.
    pub fn value(&self, var: VarId) -> (r: LBool)
        requires
            self@.wf(),
            var.0 < self@.num_vars(),
        ensures
            r == self@.assigns[var.0 as int],
    {
        self.value_of(var)
    }

    /// The value of `var`; needs only that `var` is a variable.
    fn value_of(&self, var: VarId) -> (r: LBool)
        requires
            var.0 < self@.num_vars(),
        ensures
            r == self@.assigns[var.0 as int],
    {
        self.assigns[var.0].copied()
    }

    /// The value of literal `l`; needs only that its variable is a variable.
    fn lit_val(&self, l: &Lit) -> (r: LBool)
        requires
            l.vi() < self@.num_vars(),
        ensures
            r == lit_value(self@.assigns, *l),
    {
        match self.value_of(l.var()) {
            LBool::True => {
                if l.is_positive() {
                    LBool::True
                } else {
                    LBool::False
                }
            },
            LBool::False => {
                if l.is_positive() {
                    LBool::False
                } else {
                    LBool::True
                }
            },
            LBool::Undef => LBool::Undef,
        }
    }

    /// Returns the current value of a literal under the current assignment.
    ///
    /// If the variable is unassigned, the result is `LBool::Undef`.
    pub fn lit_value(&self, lit: &Lit) -> (r: LBool)
        requires
            self@.wf(),
            lit.vi() < self@.num_vars(),
        ensures
            r == lit_value(self@.assigns, *lit),
    {
        self.lit_val(lit)
    }

    /// Returns the decision variable that implied `var`, if any.
    ///
    /// `None` means either `var` is unassigned, or it was set directly as a
    /// decision variable rather than by implication.
    pub fn decision_var(&self, var: VarId) -> (r: Option<VarId>)
        requires
            self@.wf(),
            var.0 < self@.num_vars(),
        ensures
            r == self@.decisions[var.0 as int],
    {
        self.decision_vars[var.0]
    }

    /// Clears the assignment of `var` and its implication metadata.
    ///
    /// This is mainly used internally during conflict analysis.
    pub fn undo(&mut self, var: VarId)
        requires
            old(self)@.wf(),
            var.0 < old(self)@.num_vars(),
        ensures
            final(self)@ == old(self)@.with_undone(var.0 as int).without_tags_of(var),
            final(self)@.wf(),
            old(self)@.watch_ok() ==> final(self)@.watch_ok(),
            old(self)@.watch_proper() ==> final(self)@.watch_proper(),
            old(self)@.tags_live() ==> final(self)@.tags_live(),
    {
        self.clear_var(var);
        let ghost mid = self@;
        // The variables that `var` implied are no longer implied by it
        let n = self.decision_vars.len();
        let mut i: usize = 0;
        while i < n
            invariant
                n == mid.decisions.len(),
                i <= n,
                self@ == (EngineState { decisions: self@.decisions, ..mid }),
                self@.decisions.len() == n,
                forall|v: int| 0 <= v < i ==> #[trigger] self@.decisions[v] == (if mid.decisions[v] == Some(var) {
                    None
                } else {
                    mid.decisions[v]
                }),
                forall|v: int| i <= v < n ==> #[trigger] self@.decisions[v] == mid.decisions[v],
            decreases n - i,
        {
            proof {
                self.lemma_view();
            }
            if self.decision_vars[i] == Some(var) {
                self.decision_vars.set(i, None);
            }
            proof {
                self.lemma_view();
            }
            i = i + 1;
        }
        proof {
            let o = old(self)@;
            let t = self@;
            assert(t.decisions =~= mid.without_tags_of(var).decisions);
            assert(t =~= o.with_undone(var.0 as int).without_tags_of(var));
            if o.watch_ok() {
                o.lemma_watches_frame(t);
            }
            if o.watch_proper() {
                lemma_proper_any_assigns(o, t);
            }
            assert(t.shaped());
            assert(t.unassigned_clean());
        }
    }

    /// `undo` on a state that need not satisfy the invariant.
    fn clear_var(&mut self, var: VarId)
        requires
            var.0 < old(self)@.num_vars(),
            old(self)@.reasons.len() == old(self)@.num_vars(),
            old(self)@.decisions.len() == old(self)@.num_vars(),
        ensures
            final(self)@ == old(self)@.with_undone(var.0 as int),
    {
        self.assigns.set(var.0, LBool::Undef);
        self.reason.set(var.0, None);
        self.decision_vars.set(var.0, None);
        proof {
            assert(self@ =~= old(self)@.with_undone(var.0 as int));
        }
    }

    /// Whether assignments of `var` are reported.
    fn is_listened(&self, var: VarId) -> (b: bool)
        ensures
            b == self@.listened.contains(var),
    {
        let mut i: usize = 0;
        while i < self.listened.len()
            invariant
                i <= self.listened@.len(),
                forall|k: int| 0 <= k < i ==> self.listened@[k] != var,
            decreases self.listened@.len() - i,
        {
            if self.listened[i] == var {
                return true;
            }
            i = i + 1;
        }
        false
    }

    /// Assigns `lit` true with the given reason, if its variable is unassigned.
    ///
    /// Returns whether `lit` is true afterwards: `false` means that the
    /// variable was already assigned the opposite value. The reason, when
    /// given, names a stored clause, as in every call that the engine itself
    /// makes (a unit clause being added, or a clause found unit while
    /// propagating): conflict analysis reads it.
    pub fn enqueue(&mut self, lit: Lit, reason: Option<ClauseId>) -> (ok: bool)
        requires
            old(self)@.wf(),
            lit.vi() < old(self)@.num_vars(),
            reason matches Some(c) ==> c.0 < old(self)@.num_clauses(),
        ensures
            ok == old(self)@.accepts(lit),
            final(self)@ == old(self)@.after_enqueue(lit, reason),
            final(self)@.wf(),
            old(self)@.watch_ok() ==> final(self)@.watch_ok(),
            old(self)@.watch_proper() ==> final(self)@.watch_proper(),
            old(self)@.queue_assigned() ==> final(self)@.queue_assigned(),
            old(self)@.watch_settled() ==> final(self)@.watch_settled(),
            old(self)@.tags_live() ==> final(self)@.tags_live(),
    {
        let ok = self.assign(lit, reason);
        proof {
            lemma_enqueue_sound(old(self)@, lit, reason);
            if old(self)@.watch_settled() {
                lemma_enqueue_complete(old(self)@, lit, reason, Set::empty());
            }
            if old(self)@.watch_ok() {
                old(self)@.lemma_watches_frame(self@);
            }
        }
        ok
    }

    /// `enqueue` on a state whose watch lists may be partly taken out.
    fn assign(&mut self, lit: Lit, reason: Option<ClauseId>) -> (ok: bool)
        requires
            old(self)@.shaped(),
            old(self)@.unassigned_clean(),
            lit.vi() < old(self)@.num_vars(),
            reason matches Some(c) ==> c.0 < old(self)@.num_clauses(),
        ensures
            ok == old(self)@.accepts(lit),
            final(self)@ == old(self)@.after_enqueue(lit, reason),
            final(self)@.shaped(),
            final(self)@.unassigned_clean(),
    {
        match self.value_of(lit.var()) {
            LBool::True => lit.is_positive(),
            LBool::False => !lit.is_positive(),
            LBool::Undef => {
                let ghost o = self@;
                let v = lit.var();
                self.assigns.set(v.0, if lit.is_positive() { LBool::True } else { LBool::False });
                self.reason.set(v.0, reason);
                self.propagated_vars.push(v);
                // Tag the variable with the current decision, if there is one
                let d = self.decision_var;
                if v != d && d.0 < self.assigns.len() && self.assigns[d.0].copied() != LBool::Undef {
                    self.decision_vars.set(v.0, Some(d));
                }
                self.prop_q.push_back(v);
                if self.is_listened(v) {
                    let val = self.assigns[v.0].copied();
                    self.notifications.push((v, val));
                }
                proof {
                    assert(self@ =~= o.after_enqueue(lit, reason));
                    assert(self@.shaped());
                    assert(self@.unassigned_clean());
                }
                true
            },
        }
    }

    /// Registers clause `c` in the watch list of `l`.
    fn watch(&mut self, l: Lit, c: ClauseId)
        requires
            0 <= l.vi() < old(self)@.pos_watches.len(),
            old(self)@.neg_watches.len() == old(self)@.pos_watches.len(),
        ensures
            final(self)@ == old(self)@.with_watch(l, c),
    {
        let ghost o = self@;
        if l.is_positive() {
            self.pos_watches[l.x.0].push(c);
        } else {
            self.neg_watches[l.x.0].push(c);
        }
        proof {
            assert(self@.pos_watches =~= o.with_watch(l, c).pos_watches);
            assert(self@.neg_watches =~= o.with_watch(l, c).neg_watches);
            assert(self@ =~= o.with_watch(l, c));
        }
    }

    /// Adds a clause to the formula.
    ///
    /// A unit clause is not stored: its literal is assigned at once (and its
    /// consequences are propagated by the next `assert`).
    ///
    /// # Errors
    ///
    /// Returns `PropagationError::Conflict` when inserting an empty clause or
    /// when a unit clause contradicts the current assignment.
    pub fn add_clause(&mut self, lits: Vec<Lit>) -> (r: Result<(), PropagationError>)
        requires
            old(self)@.wf(),
            forall|k: int| 0 <= k < lits@.len() ==> #[trigger] lits@[k].vi() < old(self)@.num_vars(),
        ensures
            final(self)@.wf(),
            old(self)@.watch_ok() ==> final(self)@.watch_ok(),
            old(self)@.watch_proper() ==> final(self)@.watch_proper(),
            old(self)@.queue_assigned() ==> final(self)@.queue_assigned(),
            old(self)@.watch_settled() && (lits@.len() >= 2 ==> old(self)@.settles(lits@))
                ==> final(self)@.watch_settled(),
            old(self)@.tags_live() ==> final(self)@.tags_live(),
            lits@.len() == 0 ==> final(self)@ == old(self)@ && (r matches Err(
                PropagationError::Conflict { clause },
            ) && clause@.len() == 0),
            lits@.len() == 1 ==> final(self)@ == old(self)@.after_enqueue(lits@[0], None) && (r is Ok
                <==> old(self)@.accepts(lits@[0])) && (r matches Err(PropagationError::Conflict { clause })
                ==> clause@ == lits@),
            lits@.len() >= 2 ==> r is Ok && final(self)@ == old(self)@.with_clause(lits@),
    {
        if lits.len() == 0 {
            return Err(PropagationError::Conflict { clause: Vec::new() });
        } else if lits.len() == 1 {
            let ghost o = self@;
            let ok = self.enqueue(lits[0], None);
            if !ok {
                return Err(PropagationError::Conflict { clause: lits });
            }
            return Ok(());
        }
        let ghost o = self@;
        let clause_id = ClauseId(self.clauses.len());
        self.watch(lits[0], clause_id);
        self.watch(lits[1], clause_id);
        self.clauses.push(Clause { lits });
        proof {
            let s = self@;
            assert(s.clauses =~= o.clauses.push(lits@));
            assert(s =~= o.with_clause(lits@));
            o.lemma_with_clause_wf(lits@);
            lemma_with_clause_sound(o, lits@);
            if o.watch_settled() && o.settles(lits@) {
                lemma_with_clause_complete(o, lits@);
            }
        }
        Ok(())
    }

    /// Exchanges the literals at positions `i` and `j` of clause `c`.
    fn swap_lits(&mut self, c: usize, i: usize, j: usize)
        requires
            c < old(self)@.num_clauses(),
            i < old(self)@.clauses[c as int].len(),
            j < old(self)@.clauses[c as int].len(),
        ensures
            final(self)@ == old(self)@.with_clause_lits(
                ClauseId(c),
                swapped(old(self)@.clauses[c as int], i as int, j as int),
            ),
    {
        let ghost o = self@;
        let a = self.clauses[c].lits[i];
        let b = self.clauses[c].lits[j];
        self.clauses[c].lits.set(i, b);
        self.clauses[c].lits.set(j, a);
        proof {
            let t = o.with_clause_lits(ClauseId(c), swapped(o.clauses[c as int], i as int, j as int));
            assert(self@.clauses =~= t.clauses);
            assert(self@ =~= t);
        }
    }

    /// Visits clause `clause_id`, taken from the watch list of the literal of
    /// `lit`'s variable that became false (`lit` is the one that holds).
    ///
    /// Returns `false` when the clause turns out to be falsified.
    fn propagate(&mut self, clause_id: ClauseId, lit: Lit, Ghost(hand): Ghost<Seq<ClauseId>>) -> (ok: bool)
        requires
            old(self)@.wf_with_hand(lit.vi(), hand),
            hand.len() > 0,
            hand[0] == clause_id,
            lit.vi() < old(self)@.num_vars(),
        ensures
            final(self)@ == old(self)@.after_visit(clause_id, lit),
            ok == old(self)@.visit_ok(clause_id, lit),
            final(self)@.wf_with_hand(lit.vi(), hand.skip(1)),
            watch_front(old(self)@.clauses[clause_id.0 as int], lit.x)[1].x == lit.x,
    {
        let ghost o = self@;
        proof {
            o.lemma_visit_wf(clause_id, lit, hand);
        }
        let c = clause_id.0;
        let ghost lits = watch_front(o.clauses[c as int], lit.x);
        // Ensure the first literal is not the one that was just assigned
        if self.clauses[c].lits[0].var() == lit.var() {
            self.swap_lits(c, 0, 1);
        }
        let ghost mid = self@;
        assert(mid.clauses =~= o.with_clause_lits(clause_id, lits).clauses);
        assert(mid == o.with_clause_lits(clause_id, lits));
        assert(mid.clauses[c as int] == lits);
        assert(self.clauses@[c as int].lits@ == mid.clauses[c as int]);
        proof {
            lemma_first_open(o.assigns, lits, 2);
        }
        // Check if clause is already satisfied; it stays with the literal it
        // was taken from
        if self.lit_val(&self.clauses[c].lits[0]) == LBool::True || self.lit_val(&self.clauses[c].lits[1])
            == LBool::True {
            self.watch(lit.negate(), clause_id);
            return true;
        }
        // Find the next literal that is not false
        let len = self.clauses[c].lits.len();
        let mut i: usize = 2;
        while i < len
            invariant
                self@ == mid,
                mid.clauses[c as int] == lits,
                c < mid.num_clauses(),
                len == lits.len(),
                2 <= i <= len,
                forall|j: int| 2 <= j < i ==> is_false(o.assigns, #[trigger] lits[j]),
                mid.assigns == o.assigns,
                mid == o.with_clause_lits(clause_id, lits),
                c == clause_id.0,
                c < o.num_clauses(),
                lits == watch_front(o.clauses[c as int], lit.x),
                o == old(self)@,
                o.after_visit(clause_id, lit).wf_with_hand(lit.vi(), hand.skip(1)),
                lits[1].x == lit.x,
                !is_true(o.assigns, lits[0]),
                !is_true(o.assigns, lits[1]),
                self.clauses@[c as int].lits@ == lits,
                lits.len() >= 2,
                mid.shaped(),
            decreases len - i,
        {
            if self.lit_val(&self.clauses[c].lits[i]) != LBool::False {
                proof {
                    lemma_first_open_at(o.assigns, lits, 2, i as int);
                }
                // Move this literal to the second position and watch it
                self.swap_lits(c, 1, i);
                assert(self@.clauses[c as int] == swapped(lits, 1, i as int));
                assert(mid.clauses.update(c as int, swapped(lits, 1, i as int)) =~= o.clauses.update(
                    c as int,
                    swapped(lits, 1, i as int),
                ));
                assert(mid.with_clause_lits(clause_id, swapped(lits, 1, i as int)) == o.with_clause_lits(
                    clause_id,
                    swapped(lits, 1, i as int),
                ));
                proof {
                    self.lemma_view();
                }
                let l1 = self.clauses[c].lits[1];
                self.watch(l1, clause_id);
                return true;
            }
            i = i + 1;
        }
        proof {
            lemma_first_open_at(o.assigns, lits, 2, len as int);
        }
        // The clause is unit or falsified
        self.watch(lit.negate(), clause_id);
        let first = self.clauses[c].lits[0];
        self.assign(first, Some(clause_id))
    }

    /// Learns a clause from the falsified clause `clause` by 1-UIP analysis,
    /// undoing every assignment of the current decision level on the way.
    ///
    /// Starting from `clause`, the variables of the current level (the decision
    /// and those tagged with it) are counted and the other literals collected;
    /// then the trail is unwound to the latest counted variable, which is
    /// resolved away through its reason clause, until one counted variable is
    /// left: the unique implication point, whose negation heads the learnt clause.
    #[verifier::rlimit(50)]
    fn analyze_conflict(&mut self, clause: ClauseId) -> (learnt: Vec<Lit>)
        requires
            old(self)@.wf(),
            old(self)@.level_ok(),
            clause.0 < old(self)@.num_clauses(),
            old(self)@.has_open_lit(clause.0 as int),
        ensures
            final(self)@ == old(self)@.with_level_undone(),
            learnt@.len() >= 1,
            old(self)@.trail.contains(learnt@[0].x),
            is_false(old(self)@.assigns, learnt@[0]),
            forall|k: int| 0 <= k < learnt@.len() ==> #[trigger] learnt@[k].vi() < old(self)@.num_vars(),
            forall|i: int, j: int|
                0 <= i < j < learnt@.len() ==> #[trigger] learnt@[i].x != #[trigger] learnt@[j].x,
            old(self)@.reasons_sound() && (forall|j: int|
                0 <= j < old(self)@.clauses[clause.0 as int].len() ==> is_false(
                    old(self)@.assigns,
                    #[trigger] old(self)@.clauses[clause.0 as int][j],
                )) ==> forall|k: int| 1 <= k < learnt@.len() ==> is_false(old(self)@.assigns, #[trigger] learnt@[k]),
            old(self)@.reasons_ordered() ==> forall|k: int|
                1 <= k < learnt@.len() ==> !old(self)@.trail.contains(#[trigger] learnt@[k].x),
            old(self)@.reasons_sound() && old(self)@.reasons_ordered() && old(self)@.reasons_hold() && (forall|
                j: int,
            |
                0 <= j < old(self)@.clauses[clause.0 as int].len() ==> is_false(
                    old(self)@.assigns,
                    #[trigger] old(self)@.clauses[clause.0 as int][j],
                )) ==> implied(old(self)@.clauses, learnt@.to_set()) && learnt@.to_set() == first_uip(
                old(self)@,
                old(self)@.clauses[clause.0 as int].to_set(),
                old(self)@.trail.len() - 1,
            ),
    {
        let ghost o = self@;
        let ghost d = o.decision;
        let ghost strong = o.reasons_sound() && (forall|j: int|
            0 <= j < o.clauses[clause.0 as int].len() ==> is_false(o.assigns, #[trigger] o.clauses[clause.0 as int][j]));
        let ghost ordered = o.reasons_ordered();
        let ghost learning = strong && ordered && o.reasons_hold();
        let n = self.assigns.len();
        proof {
            self.lemma_view();
            o.lemma_undone_from_all();
        }
        let mut seen: Vec<bool> = Vec::new();
        let mut k: usize = 0;
        while k < n
            invariant
                seen@.len() == k,
                k <= n,
                forall|i: int| 0 <= i < k ==> !seen@[i],
            decreases n - k,
        {
            seen.push(false);
            k = k + 1;
        }
        proof {
            lemma_open_count_unmarked(o.trail, seen@);
        }
        let ghost clause0 = clause;
        let ghost target = first_uip(o, o.clauses[clause.0 as int].to_set(), o.trail.len() - 1);
        let mut counter: usize = 0;
        let mut p: Option<(Lit, Option<ClauseId>)> = None;
        let mut learnt: Vec<Lit> = Vec::new();
        learnt.push(Lit::default());
        let mut clause = clause;
        proof {
            if learning {
                lemma_implied_own(o.clauses, clause.0 as int);
                let r = resolvent(o, seen@, learnt@, self@.trail, o.clauses[clause.0 as int], 0, pivot(p));
                assert(o.clauses[clause.0 as int].to_set().subset_of(r)) by {
                    assert forall|l: Lit| o.clauses[clause.0 as int].to_set().contains(l) implies r.contains(l) by {
                        let i = choose|i: int| 0 <= i < o.clauses[clause.0 as int].len() && o.clauses[clause.0 as int][i] == l;
                        assert(rest(o.clauses[clause.0 as int], 0, pivot(p)).contains(l));
                    }
                }
                lemma_implied_mono(o.clauses, o.clauses[clause.0 as int].to_set(), r);
                assert(r =~= o.clauses[clause.0 as int].to_set()) by {
                    assert forall|l: Lit| r.contains(l) implies o.clauses[clause.0 as int].to_set().contains(l) by {
                        assert(learnt@.subrange(1, learnt@.len() as int).len() == 0);
                        if counted(o, seen@, self@.trail).contains(l) {
                            assert(!seen@[l.vi()]);
                        }
                        if rest(o.clauses[clause.0 as int], 0, pivot(p)).contains(l) {
                            let i = choose|i: int|
                                0 <= i < o.clauses[clause.0 as int].len() && o.clauses[clause.0 as int][i] == l && pivot(p) != Some(l.x);
                            assert(o.clauses[clause.0 as int].contains(l));
                        }
                    }
                }
            }
        }
        loop
            invariant_except_break
                p is None ==> self@ == o && counter == 0 && o.has_open_lit(clause.0 as int),
                p is Some ==> counter >= 1,
                1 <= self@.trail.len(),
                p matches Some(pp) ==> self@.trail.len() < o.trail.len() && o.trail[self@.trail.len() as int]
                    == pp.0.x && o.reasons[pp.0.x.0 as int] == Some(clause),
                learning ==> implied(
                    o.clauses,
                    resolvent(o, seen@, learnt@, self@.trail, o.clauses[clause.0 as int], 0, pivot(p)),
                ),
                learning ==> marks_accounted(o, seen@, learnt@),
                learning ==> target == first_uip(
                    o,
                    resolvent(o, seen@, learnt@, self@.trail, o.clauses[clause.0 as int], 0, pivot(p)),
                    self@.trail.len() - 1,
                ),
            invariant
                target == first_uip(o, o.clauses[clause0.0 as int].to_set(), o.trail.len() - 1),
                o.wf(),
                o.level_ok(),
                o.assigns.len() <= usize::MAX,
                n == o.num_vars(),
                d == o.decision,
                self@.trail.len() <= o.trail.len(),
                self@ == o.undone_from(self@.trail.len() as int),
                seen@.len() == n,
                counter == open_count(self@.trail, seen@),
                clause.0 < o.num_clauses(),
                learnt@.len() >= 1,
                forall|k: int| 1 <= k < learnt@.len() ==> #[trigger] learnt@[k].vi() < n,
                forall|k: int| 1 <= k < learnt@.len() ==> seen@[#[trigger] learnt@[k].vi()],
                forall|k: int|
                    1 <= k < learnt@.len() ==> !self@.trail.contains(#[trigger] learnt@[k].x),
                forall|i: int, j: int|
                    1 <= i < j < learnt@.len() ==> #[trigger] learnt@[i].x != #[trigger] learnt@[j].x,
                strong ==> o.reasons_sound(),
                strong ==> forall|j: int|
                    0 <= j < o.clauses[clause.0 as int].len() ==> (p matches Some(pp) && pp.0.x == (
                    #[trigger] o.clauses[clause.0 as int][j]).x) || is_false(o.assigns, o.clauses[clause.0 as int][j]),
                strong ==> forall|k: int| 1 <= k < learnt@.len() ==> is_false(o.assigns, #[trigger] learnt@[k]),
                ordered == o.reasons_ordered(),
                ordered ==> forall|k: int|
                    1 <= k < learnt@.len() ==> !o.trail.contains(#[trigger] learnt@[k].x),
                learning == (strong && ordered && o.reasons_hold()),
            ensures
                learning ==> implied(o.clauses, learnt@.to_set()),
                learning ==> learnt@.to_set() == target,
                strong ==> forall|k: int| 1 <= k < learnt@.len() ==> is_false(o.assigns, #[trigger] learnt@[k]),
                ordered ==> forall|k: int|
                    1 <= k < learnt@.len() ==> !o.trail.contains(#[trigger] learnt@[k].x),
                self@ == o.undone_from(self@.trail.len() as int),
                self@.trail.len() <= o.trail.len(),
                learnt@.len() >= 1,
                o.trail.contains(learnt@[0].x),
                is_false(o.assigns, learnt@[0]),
                forall|k: int| 0 <= k < learnt@.len() ==> #[trigger] learnt@[k].vi() < n,
                forall|i: int, j: int|
                    0 <= i < j < learnt@.len() ==> #[trigger] learnt@[i].x != #[trigger] learnt@[j].x,
            decreases self@.trail.len(),
        {
            proof {
                o.lemma_undone_level(self@.trail.len() as int);
                self.lemma_view();
            }
            let ghost top = self@;
            let ghost counter0 = counter;
            // 1. Process the current clause (either the conflict or a reason)
            let len = self.clauses[clause.0].lits.len();
            let mut j: usize = 0;
            while j < len
                invariant
                    self@ == top,
                    top.trail.len() <= usize::MAX,
                    top.level_ok(),
                    top.shaped(),
                    top.decision == d,
                    n == top.num_vars(),
                    clause.0 < top.num_clauses(),
                    len == top.clauses[clause.0 as int].len(),
                    self.clauses@[clause.0 as int].lits@ == top.clauses[clause.0 as int],
                    j <= len,
                    seen@.len() == n,
                    counter == open_count(top.trail, seen@),
                    counter >= counter0,
                    forall|i: int|
                        0 <= i < j ==> (p matches Some(pp) && pp.0.x == (#[trigger] top.clauses[clause.0 as int][i]).x)
                            || seen@[top.clauses[clause.0 as int][i].vi()],
                    learnt@.len() >= 1,
                    forall|k: int| 1 <= k < learnt@.len() ==> #[trigger] learnt@[k].vi() < n,
                    forall|k: int| 1 <= k < learnt@.len() ==> seen@[#[trigger] learnt@[k].vi()],
                    forall|k: int|
                        1 <= k < learnt@.len() ==> !top.trail.contains(#[trigger] learnt@[k].x),
                    forall|i: int, j: int|
                        1 <= i < j < learnt@.len() ==> #[trigger] learnt@[i].x != #[trigger] learnt@[j].x,
                    top.clauses == o.clauses,
                    strong ==> forall|i: int|
                        0 <= i < o.clauses[clause.0 as int].len() ==> (p matches Some(pp) && pp.0.x == (
                        #[trigger] o.clauses[clause.0 as int][i]).x) || is_false(o.assigns, o.clauses[clause.0 as int][i]),
                    strong ==> forall|k: int| 1 <= k < learnt@.len() ==> is_false(o.assigns, #[trigger] learnt@[k]),
                    o.level_ok(),
                    top.trail.len() <= o.trail.len(),
                    top.trail == o.trail.subrange(0, top.trail.len() as int),
                    ordered == o.reasons_ordered(),
                    p is None ==> top == o,
                    p matches Some(pp) ==> top.trail.len() < o.trail.len() && o.trail[top.trail.len() as int]
                        == pp.0.x && o.reasons[pp.0.x.0 as int] == Some(clause) && pp.0.x != d,
                    ordered ==> forall|k: int|
                        1 <= k < learnt@.len() ==> !o.trail.contains(#[trigger] learnt@[k].x),
                    learning == (strong && ordered && o.reasons_hold()),
                    learning ==> marks_accounted(o, seen@, learnt@),
                    learning ==> implied(
                        o.clauses,
                        resolvent(o, seen@, learnt@, top.trail, o.clauses[clause.0 as int], j as int, pivot(p)),
                    ),
                    learning ==> target == first_uip(
                        o,
                        resolvent(o, seen@, learnt@, top.trail, o.clauses[clause.0 as int], j as int, pivot(p)),
                        top.trail.len() - 1,
                    ),
                    d == o.decision,
                    n == o.num_vars(),
                decreases len - j,
            {
                let ghost seen0 = seen@;
                let ghost learnt0 = learnt@;
                let lit = self.clauses[clause.0].lits[j];
                let v = lit.var();
                assert(top.clauses[clause.0 as int][j as int] == lit);
                assert(lit.vi() < n);
                // Skip the variable we are currently resolving away
                let skip = match p {
                    Some(pp) => pp.0.var() == v,
                    None => false,
                };
                proof {
                    // A variable of the clause on the trail is still on the trail here.
                    if ordered && !skip && o.trail.contains(v) {
                        let jj = choose|jj: int| 0 <= jj < o.trail.len() && o.trail[jj] == v;
                        if let Some(pp) = p {
                            let kk = top.trail.len() as int;
                            assert(o.trail[0] == d);
                            assert(1 <= kk < o.trail.len());
                            assert(o.reasons[o.trail[kk].0 as int] == Some(clause));
                            assert(o.clauses[clause.0 as int].contains(lit));
                            assert(lit != o.holding_lit(o.trail[kk]));
                            if jj >= kk {
                                lemma_ordered_at(o, kk, clause, lit, jj);
                            }
                        }
                        assert(top.trail[jj] == v);
                        assert(top.trail.contains(v));
                    }
                }
                if !skip {
                    if !seen[v.0] {
                        assert forall|k: int| 1 <= k < learnt@.len() implies #[trigger] learnt@[k].x != v by {
                            if learnt@[k].x == v {
                                assert(seen@[learnt@[k].vi()]);
                            }
                        }
                        proof {
                            lemma_open_count_mark(top.trail, seen@, v);
                            lemma_open_count_le(top.trail, seen@.update(v.0 as int, true));
                        }
                        seen.set(v.0, true);
                        let tagged = match self.decision_vars[v.0] {
                            Some(dv) => dv == self.decision_var,
                            None => false,
                        };
                        // The variables of the current level: the decision and
                        // those tagged with it
                        let counted = tagged || v == self.decision_var;
                        if counted {
                            counter = counter + 1;
                        } else {
                            proof {
                                assert(!top.trail.contains(v)) by {
                                    if top.trail.contains(v) && v != d {
                                        assert(top.decisions[v.0 as int] == Some(d));
                                    }
                                }
                            }
                            // This literal comes from a previous decision level
                            learnt.push(lit);
                        }
                    }
                }
                proof {
                    if learning {
                        let cl = o.clauses[clause.0 as int];
                        let pvt = pivot(p);
                        assert(pvt != Some(lit.x) <==> !skip);
                        assert forall|u: VarId| 0 <= u.0 < n && #[trigger] seen@[u.0 as int] implies (exists|k: int|
                            1 <= k < learnt@.len() && learnt@[k].x == u) || o.trail.contains(u) by {
                            if seen0[u.0 as int] {
                                if exists|k: int| 1 <= k < learnt0.len() && learnt0[k].x == u {
                                    let k = choose|k: int| 1 <= k < learnt0.len() && learnt0[k].x == u;
                                    assert(learnt@[k] == learnt0[k]);
                                }
                            } else {
                                assert(u.0 == v.0);
                                assert(u == v);
                                assert(!skip && !seen0[v.0 as int]);
                                if top.decisions[v.0 as int] == Some(d) || v == d {
                                    assert(top.trail[0] == d);
                                    assert(top.trail.contains(v));
                                    let jj = choose|jj: int| 0 <= jj < top.trail.len() && top.trail[jj] == v;
                                    assert(o.trail[jj] == v);
                                } else {
                                    assert(learnt@[learnt@.len() - 1].x == v);
                                }
                            }
                        }
                        let old_r = resolvent(o, seen0, learnt0, top.trail, cl, j as int, pvt);
                        let new_r = resolvent(o, seen@, learnt@, top.trail, cl, j as int + 1, pvt);
                        let l0 = learnt0.subrange(1, learnt0.len() as int);
                        let l1 = learnt@.subrange(1, learnt@.len() as int);
                        assert forall|l: Lit| old_r.contains(l) implies new_r.contains(l) by {
                            if l0.to_set().contains(l) {
                                let k = choose|k: int| 0 <= k < l0.len() && l0[k] == l;
                                assert(l1[k] == l);
                                assert(l1.to_set().contains(l));
                            } else if counted(o, seen0, top.trail).contains(l) {
                                assert(seen@[l.vi()]);
                                assert(counted(o, seen@, top.trail).contains(l));
                            } else {
                                let i = choose|i: int| j <= i < cl.len() && cl[i] == l && pvt != Some(l.x);
                                if i > j {
                                    assert(rest(cl, j as int + 1, pvt).contains(l));
                                } else {
                                    assert(l == lit);
                                    assert(is_false(o.assigns, l));
                                    if seen0[v.0 as int] {
                                        if exists|k: int| 1 <= k < learnt0.len() && learnt0[k].x == v {
                                            let k = choose|k: int| 1 <= k < learnt0.len() && learnt0[k].x == v;
                                            assert(is_false(o.assigns, learnt0[k]));
                                            assert(learnt0[k] == l);
                                            assert(l0[k - 1] == l);
                                            assert(l1[k - 1] == l);
                                            assert(l1.to_set().contains(l));
                                        } else {
                                            assert(o.trail.contains(v));
                                            assert(top.trail.contains(v));
                                            assert(counted(o, seen@, top.trail).contains(l));
                                        }
                                    } else if top.decisions[v.0 as int] == Some(d) || v == d {
                                        assert(top.trail[0] == d);
                                        assert(top.trail.contains(v));
                                        assert(counted(o, seen@, top.trail).contains(l));
                                    } else {
                                        assert(l1[l1.len() - 1] == l);
                                        assert(l1.to_set().contains(l));
                                    }
                                }
                            }
                        }
                        lemma_implied_mono(o.clauses, old_r, new_r);
                        assert forall|l: Lit| new_r.contains(l) implies old_r.contains(l) by {
                            if l1.to_set().contains(l) {
                                let k = choose|k: int| 0 <= k < l1.len() && l1[k] == l;
                                if k < l0.len() {
                                    assert(l0[k] == l);
                                    assert(l0.to_set().contains(l));
                                } else {
                                    assert(l == lit);
                                    assert(rest(cl, j as int, pvt).contains(l));
                                }
                            } else if counted(o, seen@, top.trail).contains(l) {
                                if seen0[l.vi()] {
                                    assert(counted(o, seen0, top.trail).contains(l));
                                } else {
                                    assert(l.vi() == v.0);
                                    assert(l.x == v);
                                    assert(is_false(o.assigns, lit));
                                    assert(l == lit);
                                    assert(rest(cl, j as int, pvt).contains(l));
                                }
                            } else {
                                let i = choose|i: int| j + 1 <= i < cl.len() && cl[i] == l && pvt != Some(l.x);
                                assert(rest(cl, j as int, pvt).contains(l));
                            }
                        }
                        assert(new_r =~= old_r);
                    }
                }
                j = j + 1;
            }
            proof {
                if p is None {
                    let w = choose|w: int|
                        0 <= w < top.clauses[clause.0 as int].len() && top.trail.contains(
                            #[trigger] top.clauses[clause.0 as int][w].x,
                        );
                    let x = top.clauses[clause.0 as int][w].x;
                    assert(seen@[x.0 as int]);
                    let kx = choose|kx: int| 0 <= kx < top.trail.len() && top.trail[kx] == x;
                    lemma_open_count_pos(top.trail, seen@, kx);
                }
            }
            // 2. Find the next variable from the trail assigned at this level
            let mut pv: VarId = VarId(0);
            let mut psign: bool = false;
            let mut preason: Option<ClauseId> = None;
            proof {
                if learning {
                    let cl = o.clauses[clause.0 as int];
                    let r = resolvent(o, seen@, learnt@, top.trail, cl, len as int, pivot(p));
                    assert(r =~= learnt@.subrange(1, learnt@.len() as int).to_set().union(counted(o, seen@, self@.trail)));
                    assert(target == first_uip(o, r, self@.trail.len() - 1));
                }
            }
            loop
                invariant_except_break
                    counter == open_count(self@.trail, seen@),
                    1 <= self@.trail.len(),
                    learning ==> implied(
                        o.clauses,
                        learnt@.subrange(1, learnt@.len() as int).to_set().union(counted(o, seen@, self@.trail)),
                    ),
                    learning ==> target == first_uip(
                        o,
                        learnt@.subrange(1, learnt@.len() as int).to_set().union(counted(o, seen@, self@.trail)),
                        self@.trail.len() - 1,
                    ),
                invariant
                    learning == (strong && ordered && o.reasons_hold()),
                    learning ==> marks_accounted(o, seen@, learnt@),
                    o.wf(),
                    o.level_ok(),
                    o.assigns.len() <= usize::MAX,
                    n == o.num_vars(),
                    d == o.decision,
                    self@.trail.len() <= o.trail.len(),
                    self@ == o.undone_from(self@.trail.len() as int),
                    seen@.len() == n,
                    counter >= 1,
                    self@.trail.len() <= top.trail.len(),
                    learnt@.len() >= 1,
                    forall|k: int| 1 <= k < learnt@.len() ==> #[trigger] learnt@[k].vi() < n,
                    forall|k: int| 1 <= k < learnt@.len() ==> seen@[#[trigger] learnt@[k].vi()],
                    forall|k: int|
                        1 <= k < learnt@.len() ==> !self@.trail.contains(#[trigger] learnt@[k].x),
                    forall|i: int, j: int|
                        1 <= i < j < learnt@.len() ==> #[trigger] learnt@[i].x != #[trigger] learnt@[j].x,
                    strong ==> forall|k: int| 1 <= k < learnt@.len() ==> is_false(o.assigns, #[trigger] learnt@[k]),
                    ordered ==> forall|k: int|
                        1 <= k < learnt@.len() ==> !o.trail.contains(#[trigger] learnt@[k].x),
                ensures
                    learning ==> implied(
                        o.clauses,
                        learnt@.subrange(1, learnt@.len() as int).to_set().union(counted(o, seen@, self@.trail)).insert(
                            Lit { x: pv, sign: !psign },
                        ),
                    ),
                    learning && counter - 1 == 0 ==> target == learnt@.subrange(1, learnt@.len() as int).to_set().insert(
                        Lit { x: pv, sign: !psign },
                    ),
                    learning && counter - 1 > 0 && preason is Some ==> target == first_uip(
                        o,
                        learnt@.subrange(1, learnt@.len() as int).to_set().union(counted(o, seen@, self@.trail)).union(
                            others(o.clauses[preason->Some_0.0 as int], pv),
                        ),
                        self@.trail.len() - 1,
                    ),
                    self@.trail.len() < o.trail.len(),
                    o.trail[self@.trail.len() as int] == pv,
                    counter - 1 == open_count(self@.trail, seen@),
                    o.trail.contains(pv),
                    pv.0 < n,
                    psign == (o.assigns[pv.0 as int] == LBool::True),
                    o.assigns[pv.0 as int] != LBool::Undef,
                    preason == o.reasons[pv.0 as int],
                    forall|k: int| 1 <= k < learnt@.len() ==> #[trigger] learnt@[k].x != pv,
                    self@.trail.len() < top.trail.len(),
                decreases self@.trail.len(),
            {
                let ghost before = self@;
                let ghost len0 = before.trail.len() as int;
                proof {
                    o.lemma_undone_level(len0);
                    o.lemma_undone_step(len0);
                    if len0 == 1 {
                        assert(before.trail.drop_last().len() == 0);
                        assert(before.trail.last() == d);
                    }
                }
                let v = self.propagated_vars.pop().expect("There should be a variable to resolve away");
                proof {
                    assert(before.trail.no_duplicates()) by {
                        assert forall|a: int, b: int| 0 <= a < b < before.trail.len() implies before.trail[a]
                            != before.trail[b] by {
                            assert(before.trail[a] == o.trail[a] && before.trail[b] == o.trail[b]);
                        }
                    }
                    assert(o.assigns[o.trail[len0 - 1].0 as int] != LBool::Undef);
                    lemma_counted_pop(o, seen@, before.trail);
                    assert(v == before.trail[len0 - 1]);
                    assert(before.trail.subrange(0, len0 - 1) == before.trail.drop_last());
                    assert(o.trail[len0 - 1] == v);
                    assert(before.trail.contains(v));
                    assert(o.trail.contains(v));
                    if learning {
                        let ll = learnt@.subrange(1, learnt@.len() as int).to_set();
                        let f = falsified(o, v);
                        let r = ll.union(counted(o, seen@, before.trail));
                        assert(v.0 < n);
                        assert(is_false(o.assigns, f));
                        assert(!ll.contains(f)) by {
                            if ll.contains(f) {
                                let k = choose|k: int| 0 <= k < learnt@.len() - 1 && learnt@.subrange(1, learnt@.len() as int)[k] == f;
                                assert(learnt@[k + 1] == f);
                            }
                        }
                        assert(r.contains(f) == seen@[v.0 as int]);
                        if !seen@[v.0 as int] {
                            assert(first_uip(o, r, len0 - 1) == first_uip(o, r, len0 - 2));
                        }
                    }
                }
                if seen[v.0] {
                    let sign = self.value_of(v) == LBool::True;
                    let reason = self.reason[v.0];
                    self.clear_var(v);
                    pv = v;
                    psign = sign;
                    preason = reason;
                    proof {
                        let gone = o.trail.subrange(len0, o.trail.len() as int);
                        assert(!gone.contains(v)) by {
                            if gone.contains(v) {
                                let k = choose|k: int| 0 <= k < gone.len() && gone[k] == v;
                                assert(o.trail[k + len0] == v);
                            }
                        }
                        assert(VarId(v.0 as usize) == v);
                        assert(before.assigns[v.0 as int] == o.assigns[v.0 as int]);
                        assert(before.reasons[v.0 as int] == o.reasons[v.0 as int]);
                        assert(before.trail[len0 - 1] == v);
                        if learning {
                            let ll = learnt@.subrange(1, learnt@.len() as int).to_set();
                            let f = falsified(o, v);
                            let tr = before.trail.drop_last();
                            assert(self@.trail == tr);
                            assert(tr == o.trail.subrange(0, len0 - 1));
                            let r = ll.union(counted(o, seen@, before.trail));
                            assert(f == Lit { x: pv, sign: !psign });
                            assert(counted(o, seen@, before.trail) == counted(o, seen@, tr).insert(f));
                            assert(!tr.contains(v)) by {
                                if tr.contains(v) {
                                    let k = choose|k: int| 0 <= k < tr.len() && tr[k] == v;
                                    assert(before.trail[k] == v);
                                }
                            }
                            assert(!ll.contains(f)) by {
                                if ll.contains(f) {
                                    let k = choose|k: int| 0 <= k < learnt@.len() - 1 && learnt@.subrange(1, learnt@.len() as int)[k] == f;
                                    assert(learnt@[k + 1] == f);
                                }
                            }
                            assert(r.remove(f) =~= ll.union(counted(o, seen@, tr)));
                            if open_count(tr, seen@) == 0 {
                                assert(!touches_below(o, r, len0 - 1)) by {
                                    if touches_below(o, r, len0 - 1) {
                                        let l = choose|l: Lit| r.contains(l) && #[trigger] o.trail.subrange(0, len0 - 1).contains(l.x);
                                        if ll.contains(l) {
                                            let k = choose|k: int| 0 <= k < learnt@.len() - 1 && learnt@.subrange(1, learnt@.len() as int)[k] == l;
                                            assert(learnt@[k + 1] == l);
                                            let kk = choose|kk: int| 0 <= kk < len0 - 1 && #[trigger] o.trail.subrange(0, len0 - 1)[kk] == l.x;
                                            assert(o.trail[kk] == l.x);
                                        } else {
                                            let kk = choose|kk: int| 0 <= kk < tr.len() && tr[kk] == l.x;
                                            assert(seen@[tr[kk].0 as int]);
                                            lemma_open_count_pos(tr, seen@, kk);
                                        }
                                    }
                                }
                                lemma_counted_none(o, seen@, tr);
                                assert(r =~= ll.insert(f));
                            } else {
                                assert(touches_below(o, r, len0 - 1)) by {
                                    if !(exists|k: int| 0 <= k < tr.len() && seen@[#[trigger] tr[k].0 as int]) {
                                        lemma_open_count_unmarked(tr, seen@);
                                    }
                                    let k = choose|k: int| 0 <= k < tr.len() && seen@[#[trigger] tr[k].0 as int];
                                    let u = tr[k];
                                    assert(u.0 < n);
                                    assert(o.assigns[u.0 as int] != LBool::Undef);
                                    let l = falsified(o, u);
                                    assert(tr.contains(u));
                                    assert(counted(o, seen@, tr).contains(l));
                                    assert(r.contains(l));
                                    assert(o.trail.subrange(0, len0 - 1).contains(l.x));
                                }
                                if let Some(c) = preason {
                                    assert(first_uip(o, r, len0 - 1) == first_uip(
                                        o,
                                        r.remove(f).union(others(o.clauses[c.0 as int], v)),
                                        len0 - 2,
                                    ));
                                }
                            }
                        }
                    }
                    break;
                }
                proof {
                    if len0 == 1 {
                        assert(before.trail.drop_last().len() == 0);
                        assert(before.trail.last() == v);
                        assert(!seen@[v.0 as int]);
                        assert(open_count(before.trail.drop_last(), seen@) == 0);
                        assert(open_count(before.trail, seen@) == 0);
                    }
                }
                self.clear_var(v);
            }
            counter = counter - 1;
            // 3. Check for 1-UIP (First Unique Implication Point)
            if counter == 0 {
                let head = Lit::new(pv, psign);
                let ghost l0 = learnt@;
                learnt.set(0, head.negate());
                proof {
                    if learning {
                        lemma_counted_none(o, seen@, self@.trail);
                        let a = l0.subrange(1, l0.len() as int).to_set().union(counted(o, seen@, self@.trail)).insert(
                            Lit { x: pv, sign: !psign },
                        );
                        assert(a =~= learnt@.to_set()) by {
                            assert forall|l: Lit| a.contains(l) <==> learnt@.to_set().contains(l) by {
                                if a.contains(l) {
                                    if l == learnt@[0] {
                                    } else {
                                        let k = choose|k: int| 0 <= k < l0.len() - 1 && l0.subrange(1, l0.len() as int)[k] == l;
                                        assert(learnt@[k + 1] == l);
                                    }
                                }
                                if learnt@.to_set().contains(l) {
                                    let k = choose|k: int| 0 <= k < learnt@.len() && learnt@[k] == l;
                                    if k > 0 {
                                        assert(l0.subrange(1, l0.len() as int)[k - 1] == l);
                                    }
                                }
                            }
                        }
                    }
                }
                break;
            }
            proof {
                // A variable is left to resolve, so the decision, first on the
                // trail, has not been reached.
                if self@.trail.len() == 0 {
                    assert(open_count(self@.trail, seen@) == 0);
                }
                assert(o.trail[0] == d);
                assert(o.trail.no_duplicates());
                assert(pv != d);
                let kp = self@.trail.len() as int;
                assert(o.trail[kp] == pv);
                assert(preason is Some);
            }
            p = Some((Lit::new(pv, psign), preason));
            // 4. Update clause to the reason of the variable we just resolved away
            clause = preason.expect("There should be a reason clause for this variable");
            proof {
                if learning {
                    let head = Lit { x: pv, sign: psign };
                    let kk = choose|kk: int| 0 <= kk < o.trail.len() && o.trail[kk] == pv;
                    assert(kk != 0);
                    assert(o.reasons[o.trail[kk].0 as int] == Some(clause));
                    assert(o.holding_lit(o.trail[kk]) == head);
                    assert(o.clauses[clause.0 as int].contains(head));
                    let a = learnt@.subrange(1, learnt@.len() as int).to_set().union(counted(o, seen@, self@.trail));
                    assert(head.negated() == Lit { x: pv, sign: !psign });
                    assert forall|l: Lit| o.clauses[clause.0 as int].contains(l) && l.x == head.x implies l == head by {
                        if l != head {
                            lemma_ordered_at(o, kk, clause, l, kk);
                        }
                    }
                    lemma_resolve(o.clauses, a, head, clause.0 as int);
                    assert(rest(o.clauses[clause.0 as int], 0, pivot(p)) =~= others(o.clauses[clause.0 as int], pv));
                    assert(a.union(others(o.clauses[clause.0 as int], head.x)) =~= resolvent(
                        o,
                        seen@,
                        learnt@,
                        self@.trail,
                        o.clauses[clause.0 as int],
                        0,
                        pivot(p),
                    ));
                }
                if strong {
                    let kk = choose|kk: int| 0 <= kk < o.trail.len() && o.trail[kk] == pv;
                    assert(kk != 0);
                    assert(o.reasons[o.trail[kk].0 as int] == Some(clause));
                    assert forall|i: int| 0 <= i < o.clauses[clause.0 as int].len() implies (p matches Some(
                        pp,
                    ) && pp.0.x == (#[trigger] o.clauses[clause.0 as int][i]).x) || is_false(
                        o.assigns,
                        o.clauses[clause.0 as int][i],
                    ) by {
                        assert(o.clauses[clause.0 as int].contains(o.clauses[clause.0 as int][i]));
                    }
                }
            }
        }
        // 5. Final cleanup - undo all assignments made at this level
        loop
            invariant
                o.wf(),
                o.level_ok(),
                o.assigns.len() <= usize::MAX,
                n == o.num_vars(),
                self@.trail.len() <= o.trail.len(),
                self@ == o.undone_from(self@.trail.len() as int),
            ensures
                self@.trail.len() == 0,
                self@ == o.undone_from(0),
            decreases self@.trail.len(),
        {
            let ghost len0 = self@.trail.len() as int;
            proof {
                if len0 > 0 {
                    o.lemma_undone_step(len0);
                }
            }
            match self.propagated_vars.pop() {
                Some(var) => {
                    proof {
                        assert(self@.trail =~= o.trail.subrange(0, len0 - 1));
                    }
                    self.clear_var(var);
                },
                None => {
                    break;
                },
            }
        }
        let dv = self.decision_var;
        proof {
            assert(self@.trail.len() == 0);
            let g = o.trail.subrange(0, o.trail.len() as int);
            assert(g[0] == d);
            assert(VarId(d.0 as usize) == d);
            assert(g.contains(d));
        }
        self.clear_var(dv);
        proof {
            assert(self@ =~= o.undone_from(0));
        }
        learnt
    }

    /// Asserts a decision literal and runs propagation.
    ///
    /// Variables queued by earlier unit clauses are propagated first, then the
    /// decision. Each clause watching a literal that became false is visited;
    /// when one turns out falsified, the remaining watches are put back, the
    /// queue is dropped and conflict analysis (1-UIP) undoes the level and
    /// returns a learnt clause.
    ///
    /// # Errors
    ///
    /// Returns `PropagationError::Conflict` when propagation derives a
    /// contradiction. The returned clause is the analyzed learnt clause: as a
    /// set, the `first_uip` clause of the falsified clause in the state that
    /// propagation reached, its head the negation of the implication point.
    #[verifier::rlimit(100)]
    pub fn assert_lit(&mut self, lit: Lit) -> (r: Result<(), PropagationError>)
        requires
            old(self)@.wf(),
            old(self)@.watch_ok(),
            lit.vi() < old(self)@.num_vars(),
            old(self)@.assigns[lit.vi()] == LBool::Undef,
            old(self)@.tags_live(),
            old(self)@.queue_ready(),
        ensures
            final(self)@.wf(),
            propagating(old(self)@, lit, final(self)@) || r is Err,
            r is Ok ==> final(self)@.watch_ok() && final(self)@.queue.len() == 0 && propagating(
                old(self)@,
                lit,
                final(self)@,
            ),
            r is Ok && old(self)@.watch_proper() && old(self)@.queue_assigned() ==> final(self)@.reasons_sound()
                && final(self)@.watch_proper(),
            r is Ok && old(self)@.watch_settled() && old(self)@.queue_assigned() ==> final(self)@.watch_settled(),
            r is Ok && old(self)@.queue_assigned() ==> final(self)@.settled_except(old(self)@.unsettled()),
            final(self)@.tags_live(),
            old(self)@.watch_proper() && old(self)@.queue_assigned() && (exists|m: spec_fn(VarId) -> bool|
                #[trigger] models(m, old(self)@.clauses) && extends(m, old(self)@.assigns) && holds(m, lit))
                ==> r is Ok,
            r is Ok ==> final(self)@.notifications == old(self)@.notifications + notes(
                final(self)@.trail,
                final(self)@.assigns,
                old(self)@.listened,
            ),
            final(self)@.notifications.len() >= old(self)@.notifications.len(),
            final(self)@.notifications.subrange(0, old(self)@.notifications.len() as int)
                == old(self)@.notifications,
            forall|k: int|
                old(self)@.notifications.len() <= k < final(self)@.notifications.len() ==> {
                    let e = #[trigger] final(self)@.notifications[k];
                    &&& old(self)@.listened.contains(e.0)
                    &&& e.0.0 < old(self)@.num_vars()
                    &&& old(self)@.assigns[e.0.0 as int] == LBool::Undef
                    &&& e.1 != LBool::Undef
                },
            r is Err ==> final(self)@.watch_ok() && final(self)@.queue_assigned(),
            r is Err && old(self)@.watch_proper() && old(self)@.queue_assigned() ==> final(self)@.watch_proper(),
            r is Err && old(self)@.watch_settled() && old(self)@.watch_proper() && old(self)@.queue.len() == 0
                ==> final(self)@.watch_settled(),
            r matches Err(PropagationError::Conflict { clause }) ==> refused(
                old(self)@,
                lit,
                final(self)@,
                clause@,
            ),
            r matches Err(PropagationError::Conflict { clause }) ==> (old(self)@.watch_proper()
                && old(self)@.queue_assigned() ==> implied(old(self)@.clauses, clause@.to_set()) && forall|k: int|
                1 <= k < clause@.len() ==> is_false(old(self)@.assigns, #[trigger] clause@[k])),
            r matches Err(PropagationError::Conflict { clause }) ==> (old(self)@.watch_proper()
                && old(self)@.queue_assigned() ==> exists|s: EngineState, c: int|
                #[trigger] conflict_reached(old(self)@, lit, s, c) && clause@.to_set() == first_uip(
                    s,
                    s.clauses[c].to_set(),
                    s.trail.len() - 1,
                ) && final(self)@.notifications == old(self)@.notifications + notes(
                    s.trail,
                    s.assigns,
                    old(self)@.listened,
                )),
    {
        let ghost o = self@;
        let ghost sound = o.watch_proper() && o.queue_assigned();
        let ghost complete = o.queue_assigned();
        let ghost unsettled0 = o.unsettled();
        let ghost fresh = o.watch_settled() && o.watch_proper() && o.queue.len() == 0;
        let ghost h0 = Lit { x: VarId(0), sign: true };
        proof {
            self.lemma_view();
            law_live_tags_untagged(o, lit.x);
            lemma_start(o, lit);
            if sound {
                lemma_start_sound(o, lit);
                assert(o.decided(lit).trail.len() == 1);
            }
            if complete {
                lemma_unsettled(o);
                lemma_start_complete(o, lit, unsettled0);
            }
            let p = EngineState { decision: lit.x, trail: Seq::empty(), ..o };
            assert(p.notifications == o.notifications + notes(p.trail, p.assigns, p.listened));
            lemma_enqueue_notes(p, lit, None, o.notifications);
        }
        self.decision_var = lit.var();
        self.propagated_vars.clear();
        self.assign(lit, None);
        proof {
            assert(self@ =~= o.decided(lit));
            o.lemma_watches_frame(self@);
            if fresh {
                lemma_kept_start(o, self@);
            }
        }
        loop
            invariant
                o == old(self)@,
                o.wf(),
                o.queue_ready(),
                o.tags_live(),
                o.num_vars() <= usize::MAX,
                lit.vi() < o.num_vars(),
                self@.wf(),
                self@.watch_ok(),
                propagating(o, lit, self@),
                sound == (o.watch_proper() && o.queue_assigned()),
                sound ==> self@.watch_proper() && self@.reasons_sound() && self@.reasons_ordered(),
                complete == o.queue_assigned(),
                unsettled0 == o.unsettled(),
                complete ==> self@.settled_except(unsettled0),
                fresh == (o.watch_settled() && o.watch_proper() && o.queue.len() == 0),
                h0 == (Lit { x: VarId(0), sign: true }),
                fresh ==> self@.watches_kept(o.assigns, h0, Seq::empty()),
                self@.notifications == o.notifications + notes(self@.trail, self@.assigns, o.listened),
            ensures
                self@.wf(),
                self@.watch_ok(),
                propagating(o, lit, self@),
                self@.queue.len() == 0,
                sound ==> self@.watch_proper() && self@.reasons_sound(),
                complete ==> self@.settled_except(unsettled0),
                fresh ==> self@.watches_kept(o.assigns, h0, Seq::empty()),
                self@.notifications == o.notifications + notes(self@.trail, self@.assigns, o.listened),
            decreases o.num_vars() - self@.trail.len(), self@.queue.len(),
        {
            let ghost before = self@;
            proof {
                lemma_distinct_vars_len(before.trail, o.num_vars() as int);
            }
            let var = match self.prop_q.pop_front() {
                Some(v) => v,
                None => {
                    break;
                },
            };
            proof {
                assert(before.queue[0] == var);
                assert(o.queue.contains(var) || before.trail.contains(var));
                assert(var.0 < o.num_vars());
                let q = self@;
                assert(q == (EngineState { queue: before.queue.subrange(1, before.queue.len() as int), ..before }));
                assert forall|k: int| 0 <= k < q.queue.len() implies o.queue.contains(#[trigger] q.queue[k])
                    || q.trail.contains(q.queue[k]) by {
                    assert(q.queue[k] == before.queue[k + 1]);
                }
                before.lemma_watches_frame(q);
                assert(propagating(o, lit, q));
                if sound || complete {
                    assert(o.assigns[var.0 as int] != LBool::Undef || before.trail.contains(var));
                    if before.trail.contains(var) {
                        let kk = choose|kk: int| 0 <= kk < before.trail.len() && before.trail[kk] == var;
                        assert(before.assigns[before.trail[kk].0 as int] != LBool::Undef);
                    }
                    assert(q.assigns[var.0 as int] != LBool::Undef);
                }
                if sound {
                    lemma_proper_frame(before, q);
                    assert(q.reasons_sound());
                    assert(q.reasons_ordered());
                }
            }
            let mut watches: Vec<ClauseId> = Vec::new();
            let ghost pre_take = self@;
            let taken_neg = self.value_of(var) == LBool::True;
            if taken_neg {
                self.neg_watches.set_and_swap(var.0, &mut watches);
            } else {
                self.pos_watches.set_and_swap(var.0, &mut watches);
            }
            proof {
                self.lemma_view();
                let t = self@;
                if taken_neg {
                    assert(t.neg_watches =~= pre_take.neg_watches.update(var.0 as int, Seq::empty()));
                    assert(t.pos_watches =~= pre_take.pos_watches);
                    assert(watches@ == pre_take.neg_watches[var.0 as int]);
                } else {
                    assert(t.pos_watches =~= pre_take.pos_watches.update(var.0 as int, Seq::empty()));
                    assert(t.neg_watches =~= pre_take.neg_watches);
                    assert(watches@ == pre_take.pos_watches[var.0 as int]);
                }
                assert(t == (EngineState { pos_watches: t.pos_watches, neg_watches: t.neg_watches, ..pre_take }));
                lemma_take_watches(pre_take, t, var.0 as int, watches@);
                assert(watches@.skip(0) =~= watches@);
                if sound {
                    let f = Lit { x: var, sign: !taken_neg };
                    assert(watches@ == pre_take.watch_list(f));
                    lemma_take_sound(pre_take, t, f, watches@);
                }
                if fresh {
                    let f = Lit { x: var, sign: !taken_neg };
                    assert(pre_take.watches_kept(o.assigns, h0, Seq::empty())) by {
                        lemma_kept_grow(before, pre_take, o.assigns, h0, Seq::empty(), h0, Seq::empty());
                    }
                    assert(watches@ == pre_take.watch_list(f));
                    lemma_take_kept(pre_take, t, o.assigns, f, watches@);
                }
                if complete {
                    let f = Lit { x: var, sign: !taken_neg };
                    assert(watches@ == before.watch_list(f));
                    assert(is_false(before.assigns, f));
                    lemma_take_complete(before, t, f, watches@, unsettled0);
                }
            }
            let mut i: usize = 0;
            while i < watches.len()
                invariant
                    o == old(self)@,
                    o.wf(),
                    o.queue_ready(),
                    o.tags_live(),
                    o.num_vars() <= usize::MAX,
                    lit.vi() < o.num_vars(),
                    var.0 < o.num_vars(),
                    i <= watches@.len(),
                    self@.wf_with_hand(var.0 as int, watches@.skip(i as int)),
                    forall|k: int| 0 <= k < watches@.len() ==> #[trigger] watches@[k].0 < self@.num_clauses(),
                    propagating(o, lit, self@),
                    o.queue.contains(var) || self@.trail.contains(var),
                    self@.trail.len() >= before.trail.len(),
                    sound == (o.watch_proper() && o.queue_assigned()),
                    sound ==> self@.assigns[var.0 as int] != LBool::Undef && taken_neg == (
                        self@.assigns[var.0 as int] == LBool::True),
                    sound ==> self@.watches_proper(Lit { x: var, sign: !taken_neg }, watches@.skip(i as int))
                        && self@.reasons_sound() && self@.reasons_ordered(),
                    complete == o.queue_assigned(),
                    unsettled0 == o.unsettled(),
                    complete ==> self@.assigns[var.0 as int] != LBool::Undef && taken_neg == (
                        self@.assigns[var.0 as int] == LBool::True),
                    complete ==> self@.watches_settled(Lit { x: var, sign: !taken_neg }, watches@.skip(i as int), unsettled0),
                    fresh == (o.watch_settled() && o.watch_proper() && o.queue.len() == 0),
                    fresh ==> self@.watches_kept(o.assigns, Lit { x: var, sign: !taken_neg }, watches@.skip(i as int)),
                    self@.notifications == o.notifications + notes(self@.trail, self@.assigns, o.listened),
                    self@.queue.len() + before.trail.len() + 1 == before.queue.len() + self@.trail.len(),
                decreases watches@.len() - i,
            {
                let ghost cur = self@;
                let ghost hand = watches@.skip(i as int);
                let l = Lit::new(var, self.value_of(var) == LBool::True);
                proof {
                    lemma_visit_propagating(o, lit, cur, watches@[i as int], l, hand);
                    if sound {
                        assert(l.negated() == Lit { x: var, sign: !taken_neg });
                        lemma_visit_sound(cur, watches@[i as int], l, hand);
                        assert forall|k: int| 0 <= k < cur.trail.len() implies cur.assigns[#[trigger] cur.trail[k].0 as int]
                            != LBool::Undef by {
                            assert(cur.trail.contains(cur.trail[k]));
                        }
                        lemma_visit_ordered(cur, watches@[i as int], l, hand);
                        assert(cur.after_visit(watches@[i as int], l).assigns[var.0 as int] == cur.assigns[var.0 as int]);
                    }
                    if cur.trail.contains(var) {
                        let k = choose|k: int| 0 <= k < cur.trail.len() && cur.trail[k] == var;
                    }
                    assert forall|k: int| 0 <= k < cur.trail.len() implies #[trigger] cur.trail[k].0 < cur.num_vars()
                        && cur.assigns[cur.trail[k].0 as int] != LBool::Undef by {
                        assert(cur.trail.contains(cur.trail[k]));
                    }
                    lemma_visit_notes(cur, watches@[i as int], l, o.notifications);
                    if fresh {
                        assert(l.negated() == Lit { x: var, sign: !taken_neg });
                        assert(cur.trail.contains(var));
                        assert(o.assigns[var.0 as int] == LBool::Undef);
                        lemma_visit_kept(cur, o.assigns, watches@[i as int], l, hand);
                    }
                }
                let ok = self.propagate(watches[i], l, Ghost(hand));
                if !ok {
                    proof {
                        lemma_conflict_open(o, lit, cur, watches@[i as int], l, hand);
                        if sound {
                            let ci = watches@[i as int].0 as int;
                            let t = self@;
                            lemma_conflict_falsified(cur, watches@[i as int], l, hand);
                            assert forall|c: int| 0 <= c < o.num_clauses() implies #[trigger] same_literals(
                                o.clauses[c],
                                t.clauses[c],
                            ) by {
                                assert(same_literals(t.clauses[c], o.clauses[c]));
                            }
                            // No assignment that satisfies the clauses and keeps the values
                            // before the assertion makes `lit` true.
                            assert forall|m: spec_fn(VarId) -> bool|
                                !(#[trigger] models(m, o.clauses) && extends(m, o.assigns) && holds(m, lit)) by {
                                if models(m, o.clauses) {
                                    lemma_models_same(o.clauses, t.clauses, m);
                                }
                                lemma_conflict_refutes(o, lit, t, ci, m);
                            }
                        }
                    }
                    let ghost conf = self@;
                    proof {
                        assert(hand.skip(1) =~= watches@.skip(i as int + 1));
                    }
                    // The clause found falsified is already back in its list; put
                    // back the others
                    let mut k: usize = i + 1;
                    while k < watches.len()
                        invariant
                            i < k <= watches@.len(),
                            var.0 < self@.num_vars(),
                            self@.shaped(),
                            self@.unassigned_clean(),
                            self@.wf_with_hand(var.0 as int, watches@.skip(k as int)),
                            sound ==> self@.watches_proper(Lit { x: var, sign: !taken_neg }, watches@.skip(k as int)),
                            sound ==> self@.assigns[var.0 as int] != LBool::Undef && taken_neg == (
                                self@.assigns[var.0 as int] == LBool::True),
                            forall|j: int| 0 <= j < watches@.len() ==> #[trigger] watches@[j].0 < self@.num_clauses(),
                            self@ == (EngineState {
                                pos_watches: self@.pos_watches,
                                neg_watches: self@.neg_watches,
                                ..conf
                            }),
                            fresh ==> sound,
                            fresh ==> self@.watches_kept(o.assigns, Lit { x: var, sign: !taken_neg }, watches@.skip(k as int)),
                        decreases watches@.len() - k,
                    {
                        let ghost pre_push = self@;
                        proof {
                            self.lemma_view();
                        }
                        if self.value_of(var) == LBool::True {
                            self.neg_watches[var.0].push(watches[k]);
                            proof {
                                self.lemma_view();
                                assert(self@.neg_watches =~= pre_push.neg_watches.update(
                                    var.0 as int,
                                    pre_push.neg_watches[var.0 as int].push(watches@[k as int]),
                                ));
                                assert(self@.pos_watches =~= pre_push.pos_watches);
                            }
                        } else {
                            self.pos_watches[var.0].push(watches[k]);
                            proof {
                                self.lemma_view();
                                assert(self@.pos_watches =~= pre_push.pos_watches.update(
                                    var.0 as int,
                                    pre_push.pos_watches[var.0 as int].push(watches@[k as int]),
                                ));
                                assert(self@.neg_watches =~= pre_push.neg_watches);
                            }
                        }
                        proof {
                            assert(watches@.skip(k as int)[0] == watches@[k as int]);
                            lemma_restore_watch(pre_push, self@, var.0 as int, watches@.skip(k as int));
                            if sound {
                                lemma_restore_proper(pre_push, self@, Lit { x: var, sign: !taken_neg }, watches@.skip(k as int));
                            }
                            if fresh {
                                lemma_restore_kept(pre_push, self@, o.assigns, Lit { x: var, sign: !taken_neg }, watches@.skip(k as int));
                            }
                            assert(watches@.skip(k as int).skip(1) =~= watches@.skip(k as int + 1));
                        }
                        k = k + 1;
                    }
                    let ghost pre_clear = self@;
                    proof {
                        assert(watches@.skip(k as int) =~= Seq::<ClauseId>::empty());
                        lemma_hand_empty(pre_clear, var.0 as int);
                        if sound {
                            lemma_hand_done_sound(pre_clear, Lit { x: var, sign: !taken_neg });
                        }
                    }
                    self.prop_q.clear();
                    proof {
                        let t = self@;
                        assert(t == (EngineState { queue: Seq::empty(), ..pre_clear }));
                        assert(t.shaped());
                        assert(t.has_open_lit(watches@[i as int].0 as int));
                        assert(t.level_ok());
                        assert(propagating(o, lit, conf));
                        assert(propagating(o, lit, t));
                        lemma_level_restore(o, lit, t);
                        assert(t.trail == conf.trail);
                        assert forall|c: int| 0 <= c < o.num_clauses() implies #[trigger] same_literals(
                            t.clauses[c],
                            o.clauses[c],
                        ) by {
                            assert(same_literals(conf.clauses[c], o.clauses[c]));
                        }
                        assert forall|kk: int| 0 <= kk < t.trail.len() implies o.assigns[t.trail[kk].0 as int] == LBool::Undef
                            || t.trail[kk] == lit.x by {
                            let u = t.trail[kk];
                            assert(t.trail.contains(u));
                            assert(u.0 < o.num_vars());
                        }
                    }
                    let ghost pre_an = self@;
                    proof {
                        if sound {
                            assert(propagating(o, lit, pre_an));
                            assert forall|k: int| 1 <= k < pre_an.trail.len() implies (pre_an.reasons[#[trigger] pre_an.trail[k].0 as int] matches Some(c)
                                ==> c.0 < pre_an.num_clauses() && pre_an.clauses[c.0 as int].contains(
                                pre_an.holding_lit(pre_an.trail[k]),
                            )) by {
                                assert(pre_an.reasons[pre_an.trail[k].0 as int] matches Some(c) && c.0
                                    < pre_an.num_clauses() && pre_an.clauses[c.0 as int].contains(
                                    Lit { x: pre_an.trail[k], sign: pre_an.assigns[pre_an.trail[k].0 as int] == LBool::True },
                                ));
                            }
                            assert(pre_an.reasons_hold());
                        }
                    }
                    let learnt = self.analyze_conflict(watches[i]);
                    proof {
                        pre_clear.lemma_watches_frame(self@);
                        if sound {
                            lemma_proper_any_assigns(pre_clear, self@);
                        }
                        if sound {
                            let ci = watches@[i as int].0 as int;
                            assert(pre_an.reasons_sound());
                            assert(pre_an.reasons_ordered());
                            assert(forall|j: int|
                                0 <= j < pre_an.clauses[ci].len() ==> is_false(
                                    pre_an.assigns,
                                    #[trigger] pre_an.clauses[ci][j],
                                ));
                            assert(propagating(o, lit, pre_an));
                            assert forall|c: int| 0 <= c < o.num_clauses() implies #[trigger] same_literals(
                                o.clauses[c],
                                pre_an.clauses[c],
                            ) by {
                                assert(same_literals(pre_an.clauses[c], o.clauses[c]));
                            }
                            lemma_implied_same(o.clauses, pre_an.clauses, learnt@.to_set());
                            assert(conflict_reached(o, lit, pre_an, ci));
                            assert(conf.notifications == o.notifications + notes(conf.trail, conf.assigns, o.listened));
                            assert(pre_an.trail == conf.trail && pre_an.assigns == conf.assigns);
                            assert(learnt@.to_set() == first_uip(pre_an, pre_an.clauses[ci].to_set(), pre_an.trail.len() - 1));
                            assert forall|k: int| 1 <= k < learnt@.len() implies is_false(
                                o.assigns,
                                #[trigger] learnt@[k],
                            ) by {
                                let v = learnt@[k].x;
                                assert(is_false(pre_an.assigns, learnt@[k]));
                                assert(v.0 < o.num_vars());
                                assert(!pre_an.trail.contains(v));
                                assert(o.assigns[v.0 as int] != LBool::Undef);
                                assert(pre_an.assigns[v.0 as int] == o.assigns[v.0 as int]);
                            }
                        }
                        let t = self@;
                        assert(t.clauses == pre_an.clauses);
                        assert forall|c: int| 0 <= c < o.num_clauses() implies #[trigger] same_literals(
                            t.clauses[c],
                            o.clauses[c],
                        ) by {
                            assert(same_literals(pre_an.clauses[c], o.clauses[c]));
                        }
                        assert(pre_an.num_vars() == o.num_vars());
                        assert(forall|k: int| 0 <= k < learnt@.len() ==> #[trigger] learnt@[k].vi() < o.num_vars());
                        assert(learnt@.len() >= 1);
                        assert(refused(o, lit, t, learnt@));
                        lemma_tags_frame(o, t);
                        assert(t.notifications == conf.notifications);
                        if sound {
                            let ci = watches@[i as int].0 as int;
                            assert(t.notifications == o.notifications + notes(pre_an.trail, pre_an.assigns, o.listened));
                            assert(conflict_reached(o, lit, pre_an, ci) && learnt@.to_set() == first_uip(
                                pre_an,
                                pre_an.clauses[ci].to_set(),
                                pre_an.trail.len() - 1,
                            ) && t.notifications == o.notifications + notes(pre_an.trail, pre_an.assigns, o.listened));
                        }
                        lemma_fresh_notes(o, lit, conf);
                        if fresh {
                            assert(watches@.skip(k as int) =~= Seq::<ClauseId>::empty());
                            assert(t.assigns == o.assigns);
                            lemma_kept_grow(
                                pre_clear,
                                t,
                                o.assigns,
                                Lit { x: var, sign: !taken_neg },
                                Seq::empty(),
                                h0,
                                Seq::empty(),
                            );
                            lemma_kept_settled(t, h0);
                        }
                    }
                    return Err(PropagationError::Conflict { clause: learnt });
                }
                proof {
                    assert(hand.skip(1) =~= watches@.skip(i as int + 1));
                    if complete {
                        assert(l.negated() == Lit { x: var, sign: !taken_neg });
                        assert(is_true(cur.assigns, l));
                        lemma_visit_complete(cur, watches@[i as int], l, hand, unsettled0);
                        assert(cur.after_visit(watches@[i as int], l).assigns[var.0 as int] == cur.assigns[var.0 as int]);
                    }
                }
                i = i + 1;
            }
            proof {
                let t = self@;
                assert(watches@.skip(i as int) =~= Seq::<ClauseId>::empty());
                lemma_hand_empty(t, var.0 as int);
                if sound {
                    lemma_hand_done_sound(t, Lit { x: var, sign: !taken_neg });
                }
                if complete {
                    lemma_hand_done_complete(t, Lit { x: var, sign: !taken_neg }, unsettled0);
                }
                if fresh {
                    lemma_kept_grow(t, t, o.assigns, Lit { x: var, sign: !taken_neg }, Seq::empty(), h0, Seq::empty());
                }
                lemma_distinct_vars_len(t.trail, o.num_vars() as int);
            }
        }
        proof {
            lemma_fresh_notes(o, lit, self@);
            {
                let t = self@;
                let n = o.num_vars();
                assert forall|v: int| 0 <= v < n implies (#[trigger] t.decisions[v] matches Some(x) ==> x.0 < n
                    && t.assigns[x.0 as int] != LBool::Undef) by {
                    let vv = VarId(v as usize);
                    assert(vv.0 == v);
                    if t.trail.contains(vv) {
                        if vv == lit.x {
                            assert(t.decisions[v] == o.decisions[v]);
                            assert(o.decisions[v] is None);
                        } else {
                            assert(t.decisions[vv.0 as int] == Some(lit.x));
                        }
                    } else {
                        assert(t.decisions[vv.0 as int] == o.decisions[vv.0 as int]);
                    }
                }
            }
        }
        Ok(())
    }

    /// Starts reporting the assignments of `var`: from now on each assignment
    /// of `var` is recorded, in order, for `take_notifications`.
    pub fn listen(&mut self, var: VarId)
        requires
            old(self)@.wf(),
        ensures
            final(self)@ == (EngineState {
                listened: if old(self)@.listened.contains(var) {
                    old(self)@.listened
                } else {
                    old(self)@.listened.push(var)
                },
                ..old(self)@
            }),
            final(self)@.wf(),
            old(self)@.watch_ok() ==> final(self)@.watch_ok(),
            old(self)@.watch_proper() ==> final(self)@.watch_proper(),
            old(self)@.queue_assigned() ==> final(self)@.queue_assigned(),
            old(self)@.watch_settled() ==> final(self)@.watch_settled(),
            old(self)@.tags_live() ==> final(self)@.tags_live(),
    {
        let ghost o = self@;
        if !self.is_listened(var) {
            self.listened.push(var);
        }
        proof {
            assert(self@ =~= (EngineState {
                listened: if o.listened.contains(var) {
                    o.listened
                } else {
                    o.listened.push(var)
                },
                ..o
            }));
            if o.watch_ok() {
                o.lemma_watches_frame(self@);
            }
            lemma_listening_frame(o, self@);
        }
    }

    /// Hands out the recorded assignments of listened variables, oldest
    /// first, and forgets them.
    pub fn take_notifications(&mut self) -> (r: Vec<(VarId, LBool)>)
        requires
            old(self)@.wf(),
        ensures
            r@ == old(self)@.notifications,
            final(self)@ == (EngineState { notifications: Seq::empty(), ..old(self)@ }),
            final(self)@.wf(),
            old(self)@.watch_ok() ==> final(self)@.watch_ok(),
            old(self)@.watch_proper() ==> final(self)@.watch_proper(),
            old(self)@.queue_assigned() ==> final(self)@.queue_assigned(),
            old(self)@.watch_settled() ==> final(self)@.watch_settled(),
            old(self)@.tags_live() ==> final(self)@.tags_live(),
    {
        let ghost o = self@;
        let mut r: Vec<(VarId, LBool)> = Vec::new();
        std::mem::swap(&mut r, &mut self.notifications);
        proof {
            assert(self@ =~= (EngineState { notifications: Seq::empty(), ..o }));
            if o.watch_ok() {
                o.lemma_watches_frame(self@);
            }
            lemma_listening_frame(o, self@);
        }
        r
    }

    /// Renders the engine: one line `b<i>: <value>` per variable, then one
    /// line per stored clause.
    pub fn to_text(&self) -> (s: String)
        requires
            self@.wf(),
        ensures
            s@ == self@.text(),
    {
        proof {
            self.lemma_view();
        }
        let mut s = String::new();
        let n = self.assigns.len();
        let mut i: usize = 0;
        while i < n
            invariant
                n == self@.num_vars(),
                i <= n,
                s@ == vars_text(self@.assigns.subrange(0, i as int)),
            decreases n - i,
        {
            let ghost before = s@;
            proof {
                reveal_strlit("b");
                reveal_strlit(": ");
                reveal_strlit("\n");
            }
            s.append("b");
            push_decimal(&mut s, i);
            s.append(": ");
            self.assigns[i].push_text(&mut s);
            s.append("\n");
            proof {
                let post = self@.assigns.subrange(0, i as int + 1);
                assert(post.drop_last() =~= self@.assigns.subrange(0, i as int));
                assert(s@ =~= vars_text(post));
            }
            i = i + 1;
        }
        proof {
            assert(self@.assigns.subrange(0, n as int) =~= self@.assigns);
        }
        let ghost vt = s@;
        let m = self.clauses.len();
        let mut j: usize = 0;
        while j < m
            invariant
                m == self@.num_clauses(),
                j <= m,
                forall|c: int| 0 <= c < self.clauses@.len() ==> #[trigger] self@.clauses[c] == self.clauses@[c].lits@,
                s@ == vt + clauses_text(self@.clauses.subrange(0, j as int)),
            decreases m - j,
        {
            push_lits_text(&mut s, &self.clauses[j].lits);
            proof {
                reveal_strlit("\n");
            }
            s.append("\n");
            proof {
                let post = self@.clauses.subrange(0, j as int + 1);
                assert(post.drop_last() =~= self@.clauses.subrange(0, j as int));
                assert(post.last() == self.clauses@[j as int].lits@);
                assert(s@ =~= vt + clauses_text(post));
            }
            j = j + 1;
        }
        proof {
            assert(self@.clauses.subrange(0, m as int) =~= self@.clauses);
        }
        s
    }

    /// The number of variables.
    pub fn num_vars(&self) -> (n: usize)
        ensures
            n == self@.num_vars(),
    {
        self.assigns.len()
    }

    /// Occurrences of `c` in `list`.
    fn count_in(list: &Vec<ClauseId>, c: ClauseId) -> (r: usize)
        ensures
            r == occ(list@, c),
    {
        let mut cnt: usize = 0;
        let mut i: usize = 0;
        proof {
            assert(list@.skip(0) =~= list@);
        }
        while i < list.len()
            invariant
                i <= list@.len(),
                cnt + occ(list@.skip(i as int), c) == occ(list@, c),
                cnt <= i,
            decreases list@.len() - i,
        {
            proof {
                lemma_occ_skip(list@, i as int, c);
            }
            if list[i] == c {
                cnt = cnt + 1;
            }
            i = i + 1;
        }
        proof {
            assert(list@.skip(i as int) =~= Seq::<ClauseId>::empty());
        }
        cnt
    }

    /// Whether each clause is registered in the watch lists of a variable no
    /// more often than it watches that variable.
    pub fn watches_consistent(&self) -> (r: bool)
        requires
            self@.wf(),
        ensures
            r == self@.watch_ok(),
    {
        proof {
            self.lemma_view();
        }
        let n = self.assigns.len();
        let mut v: usize = 0;
        while v < n
            invariant
                n == self@.num_vars(),
                v <= n,
                self@.wf(),
                forall|w: int, c: ClauseId|
                    0 <= w < v && 0 <= c.0 < self@.num_clauses() ==> #[trigger] self@.entries(w, c, -1, Seq::empty())
                        <= watched_count(self@.clauses[c.0 as int], w),
            decreases n - v,
        {
            proof {
                self.lemma_view();
            }
            let mut side: usize = 0;
            while side < 2
                invariant
                    n == self@.num_vars(),
                    v < n,
                    self@.wf(),
                    side <= 2,
                    forall|c: ClauseId|
                        0 <= c.0 < self@.num_clauses() && (side >= 1 && self@.pos_watches[v as int].contains(c) || side
                            >= 2 && self@.neg_watches[v as int].contains(c)) ==> #[trigger] self@.entries(
                            v as int,
                            c,
                            -1,
                            Seq::empty(),
                        ) <= watched_count(self@.clauses[c.0 as int], v as int),
                decreases 2 - side,
            {
                proof {
                    self.lemma_view();
                }
                let list = if side == 0 { &self.pos_watches[v] } else { &self.neg_watches[v] };
                let mut k: usize = 0;
                while k < list.len()
                    invariant
                        n == self@.num_vars(),
                        v < n,
                        side < 2,
                        self@.wf(),
                        k <= list@.len(),
                        list@ == (if side == 0 { self@.pos_watches[v as int] } else { self@.neg_watches[v as int] }),
                        forall|c: ClauseId|
                            0 <= c.0 < self@.num_clauses() && (side >= 1 && self@.pos_watches[v as int].contains(c))
                                ==> #[trigger] self@.entries(v as int, c, -1, Seq::empty()) <= watched_count(
                                self@.clauses[c.0 as int],
                                v as int,
                            ),
                        forall|j: int| 0 <= j < k ==> #[trigger] self@.entries(v as int, list@[j], -1, Seq::empty())
                            <= watched_count(self@.clauses[list@[j].0 as int], v as int),
                    decreases list@.len() - k,
                {
                    proof {
                        self.lemma_view();
                    }
                    let c = list[k];
                    assert(c.0 < self@.num_clauses());
                    let e1 = Self::count_in(&self.pos_watches[v], c);
                    let e2 = Self::count_in(&self.neg_watches[v], c);
                    let lits = &self.clauses[c.0].lits;
                    assert(lits@ == self@.clauses[c.0 as int]);
                    let wc: usize = (if lits[0].x.0 == v { 1 } else { 0 }) + (if lits[1].x.0 == v { 1 } else { 0 });
                    if e1 > wc || e2 > wc - e1 {
                        proof {
                            assert(self.pos_watches@[v as int]@ == self@.pos_watches[v as int]);
                            assert(self.neg_watches@[v as int]@ == self@.neg_watches[v as int]);
                            assert(self@.entries(v as int, c, -1, Seq::empty()) > watched_count(
                                self@.clauses[c.0 as int],
                                v as int,
                            ));
                        }
                        return false;
                    }
                    k = k + 1;
                }
                proof {
                    assert forall|c: ClauseId|
                        0 <= c.0 < self@.num_clauses() && (side + 1 >= 1 && self@.pos_watches[v as int].contains(c)
                            || side + 1 >= 2 && self@.neg_watches[v as int].contains(c)) implies #[trigger] self@.entries(
                        v as int,
                        c,
                        -1,
                        Seq::empty(),
                    ) <= watched_count(self@.clauses[c.0 as int], v as int) by {
                        if side == 0 && self@.pos_watches[v as int].contains(c) {
                            let j = choose|j: int| 0 <= j < list@.len() && list@[j] == c;
                        }
                        if side == 1 && self@.neg_watches[v as int].contains(c) {
                            let j = choose|j: int| 0 <= j < list@.len() && list@[j] == c;
                        }
                    }
                }
                side = side + 1;
            }
            proof {
                assert forall|c: ClauseId| 0 <= c.0 < self@.num_clauses() implies #[trigger] self@.entries(
                    v as int,
                    c,
                    -1,
                    Seq::empty(),
                ) <= watched_count(self@.clauses[c.0 as int], v as int) by {
                    if !self@.pos_watches[v as int].contains(c) && !self@.neg_watches[v as int].contains(c) {
                        lemma_occ_absent(self@.pos_watches[v as int], c);
                        lemma_occ_absent(self@.neg_watches[v as int], c);
                    }
                }
            }
            v = v + 1;
        }
        true
    }

    /// Whether `w` is queued or is `x`.
    fn pending(&self, w: VarId) -> (r: bool)
        ensures
            r == self@.queue.contains(w),
    {
        let mut i: usize = 0;
        while i < self.prop_q.len()
            invariant
                i <= self@.queue.len(),
                forall|k: int| 0 <= k < i ==> self@.queue[k] != w,
            decreases self@.queue.len() - i,
        {
            if self.prop_q[i] == w {
                return true;
            }
            i = i + 1;
        }
        false
    }

    /// Whether clause `c` holds a literal of `w` that is true.
    fn true_on(&self, c: usize, w: VarId) -> (r: bool)
        requires
            self@.wf(),
            c < self@.num_clauses(),
        ensures
            r == holds_true_on(self@.assigns, self@.clauses[c as int], w),
    {
        proof {
            self.lemma_view();
        }
        let lits = &self.clauses[c].lits;
        let mut k: usize = 0;
        while k < lits.len()
            invariant
                self@.wf(),
                c < self@.num_clauses(),
                lits@ == self@.clauses[c as int],
                k <= lits@.len(),
                forall|j: int| 0 <= j < k ==> !(lits@[j].x == w && #[trigger] is_true(self@.assigns, lits@[j])),
            decreases lits@.len() - k,
        {
            assert(lits@[k as int].vi() < self@.num_vars());
            if lits[k].x == w && self.lit_val(&lits[k]) == LBool::True {
                assert(is_true(self@.assigns, self@.clauses[c as int][k as int]));
                return true;
            }
            k = k + 1;
        }
        false
    }

    /// Whether `assert_lit(lit)` may be called: `lit`'s variable exists and is
    /// unassigned, every decision tag names an assigned variable, each clause
    /// that mentions a variable awaiting propagation, and is not made true by
    /// it, keeps a literal on another variable that is not false, and the
    /// watch lists are consistent.
    pub fn can_assert(&self, lit: Lit) -> (r: bool)
        requires
            self@.wf(),
        ensures
            r == (lit.vi() < self@.num_vars() && self@.assigns[lit.vi()] == LBool::Undef && self@.tags_live()
                && self@.queue_ready() && self@.watch_ok()),
    {
        proof {
            self.lemma_view();
        }
        let n = self.assigns.len();
        if lit.x.0 >= n {
            return false;
        }
        if self.value_of(lit.x) != LBool::Undef {
            return false;
        }
        let mut v: usize = 0;
        while v < n
            invariant
                n == self@.num_vars(),
                self@.wf(),
                v <= n,
                forall|u: int|
                    0 <= u < v ==> (#[trigger] self@.decisions[u] matches Some(x) ==> x.0 < n && self@.assigns[x.0 as int]
                        != LBool::Undef),
            decreases n - v,
        {
            match self.decision_vars[v] {
                Some(d) => {
                    if d.0 >= n || self.value_of(d) == LBool::Undef {
                        return false;
                    }
                },
                None => {},
            }
            v = v + 1;
        }
        let m = self.clauses.len();
        let mut c: usize = 0;
        while c < m
            invariant
                n == self@.num_vars(),
                m == self@.num_clauses(),
                self@.wf(),
                lit.vi() < n,
                c <= m,
                forall|cc: int| 0 <= cc < self.clauses@.len() ==> #[trigger] self@.clauses[cc] == self.clauses@[cc].lits@,
                forall|cc: int, j: int|
                    0 <= cc < c && 0 <= j < self@.clauses[cc].len() && self@.queue.contains(self@.clauses[cc][j].x)
                        && !holds_true_on(self@.assigns, self@.clauses[cc], self@.clauses[cc][j].x) ==> exists|k: int|
                        0 <= k < self@.clauses[cc].len() && self@.clauses[cc][k].x != #[trigger] self@.clauses[cc][j].x
                            && !is_false(self@.assigns, self@.clauses[cc][k]),
            decreases m - c,
        {
            let lits = &self.clauses[c].lits;
            let len = lits.len();
            let mut j: usize = 0;
            while j < len
                invariant
                    n == self@.num_vars(),
                    self@.wf(),
                    lit.vi() < n,
                    c < m,
                    m == self@.num_clauses(),
                    lits@ == self@.clauses[c as int],
                    len == lits@.len(),
                    j <= len,
                    forall|jj: int|
                        0 <= jj < j && self@.queue.contains(lits@[jj].x) && !holds_true_on(self@.assigns, lits@, lits@[jj].x)
                            ==> exists|k: int|
                            0 <= k < lits@.len() && lits@[k].x != #[trigger] lits@[jj].x && !is_false(
                                self@.assigns,
                                lits@[k],
                            ),
                decreases len - j,
            {
                let w = lits[j].x;
                assert(lits@[j as int].vi() < n);
                if self.pending(w) && !self.true_on(c, w) {
                    let mut found = false;
                    let mut k: usize = 0;
                    while k < len
                        invariant
                            n == self@.num_vars(),
                            self@.wf(),
                            lit.vi() < n,
                            c < m,
                            m == self@.num_clauses(),
                            lits@ == self@.clauses[c as int],
                            len == lits@.len(),
                            j < len,
                            w == lits@[j as int].x,
                            k <= len,
                            found ==> exists|kk: int|
                                0 <= kk < lits@.len() && lits@[kk].x != w && !is_false(
                                    self@.assigns,
                                    lits@[kk],
                                ),
                            !found ==> forall|kk: int|
                                0 <= kk < k ==> lits@[kk].x == w || is_false(
                                    self@.assigns,
                                    #[trigger] lits@[kk],
                                ),
                        decreases len - k,
                    {
                        assert(lits@[k as int].vi() < n);
                        if lits[k].x != w && self.lit_val(&lits[k]) != LBool::False {
                            found = true;
                        }
                        k = k + 1;
                    }
                    if !found {
                        proof {
                            assert(mentions(self@.clauses[c as int], w.0 as int)) by {
                                assert(self@.clauses[c as int][j as int].vi() == w.0);
                            }
                            assert(!self@.queue_ready()) by {
                                if self@.queue_ready() {
                                    let kk = choose|kk: int|
                                        0 <= kk < self@.clauses[c as int].len() && self@.clauses[c as int][kk].x != w
                                            && !is_false(self@.assigns, #[trigger] self@.clauses[c as int][kk]);
                                    assert(lits@[kk].x == w || is_false(self@.assigns, lits@[kk]));
                                }
                            }
                        }
                        return false;
                    }
                }
                j = j + 1;
            }
            c = c + 1;
        }
        proof {
            assert forall|cc: int, w: VarId|
                0 <= cc < self@.num_clauses() && self@.queue.contains(w) && #[trigger] mentions(
                    self@.clauses[cc],
                    w.0 as int,
                ) && !holds_true_on(self@.assigns, self@.clauses[cc], w) implies exists|k: int|
                0 <= k < self@.clauses[cc].len() && self@.clauses[cc][k].x != w && !is_false(
                    self@.assigns,
                    #[trigger] self@.clauses[cc][k],
                ) by {
                let j = choose|j: int| 0 <= j < self@.clauses[cc].len() && #[trigger] self@.clauses[cc][j].vi() == w.0;
                assert(self@.clauses[cc][j].x == w);
            }
        }
        self.watches_consistent()
    }
}

impl Default for Engine {
    fn default() -> (e: Engine)
        ensures
            e@ == EngineState::initial(),
            e@.wf(),
            e@.watch_ok(),
    {
        Engine::new()
    }
}
} // verus!
