//! What holds while `Engine::assert` propagates a decision: the relation
//! `propagating` between the starting state and the current one, and why a
//! falsified clause always leads conflict analysis to a variable of the
//! current level.
use vstd::prelude::*;

use crate::clause::ClauseId;
use crate::lbool::LBool;
use crate::lit::Lit;
use crate::model::{
    holds_true_on, first_open, is_false, is_true, lemma_first_open, lemma_occ_empty, lemma_occ_push,
    lemma_occ_skip, lemma_swapped_same, lit_value, mentions, propagating, same_literals, swapped,
    watch_front, watched_count, EngineState,
};
use crate::var::VarId;

verus! {

/// What a refused `assert(lit)` from state `o` leaves: state `s` holds the
/// assignment, reasons and decision tags of `o`, an empty trail and queue,
/// `lit`'s variable as decision, and every clause of `o` with its literals
/// (their order may differ); and the learnt clause `learnt` is not empty,
/// starts with a literal on a variable that `o` left unassigned, and mentions
/// each variable once, all of them variables of `o`.
pub open spec fn refused(o: EngineState, lit: Lit, s: EngineState, learnt: Seq<Lit>) -> bool {
    &&& s.assigns == o.assigns
    &&& s.reasons == o.reasons
    &&& s.decisions == o.decisions
    &&& s.trail.len() == 0
    &&& s.queue.len() == 0
    &&& s.decision == lit.x
    &&& s.num_clauses() == o.num_clauses()
    &&& forall|c: int| 0 <= c < o.num_clauses() ==> #[trigger] same_literals(s.clauses[c], o.clauses[c])
    &&& learnt.len() >= 1
    &&& o.assigns[learnt[0].vi()] == LBool::Undef
    &&& forall|k: int| 0 <= k < learnt.len() ==> #[trigger] learnt[k].vi() < o.num_vars()
    &&& forall|i: int, j: int| 0 <= i < j < learnt.len() ==> #[trigger] learnt[i].x != #[trigger] learnt[j].x
}

/// A state `s` reached while propagating `lit` from `o`, with sound and
/// ordered reasons, in which every literal of clause `c` is false.
pub open spec fn conflict_reached(o: EngineState, lit: Lit, s: EngineState, c: int) -> bool {
    &&& propagating(o, lit, s)
    &&& s.reasons_sound()
    &&& s.reasons_ordered()
    &&& 0 <= c < s.num_clauses()
    &&& forall|j: int| 0 <= j < s.clauses[c].len() ==> is_false(s.assigns, #[trigger] s.clauses[c][j])
}

/// `watch_front` keeps the literals.
pub proof fn lemma_watch_front_same(lits: Seq<Lit>, v: VarId)
    requires
        lits.len() >= 2,
    ensures
        same_literals(watch_front(lits, v), lits),
{
    lemma_swapped_same(lits, 0, 1);
    assert forall|l: Lit| lits.contains(l) <==> lits.contains(l) by {}
}

/// `same_literals` is transitive.
pub proof fn lemma_same_trans(a: Seq<Lit>, b: Seq<Lit>, c: Seq<Lit>)
    requires
        same_literals(a, b),
        same_literals(b, c),
    ensures
        same_literals(a, c),
{
}

/// Deciding an unassigned, untagged literal starts a propagation.
pub proof fn lemma_start(o: EngineState, lit: Lit)
    requires
        o.wf(),
        0 <= lit.vi() < o.num_vars(),
        o.assigns[lit.vi()] == LBool::Undef,
        o.untagged(lit.x),
    ensures
        propagating(o, lit, o.decided(lit)),
        o.decided(lit).wf(),
        o.decided(lit).clauses == o.clauses,
        o.decided(lit).pos_watches == o.pos_watches,
        o.decided(lit).neg_watches == o.neg_watches,
{
    let s = o.decided(lit);
    let x = lit.x;
    assert(s.trail =~= seq![x]);
    assert forall|v: VarId| 0 <= v.0 < o.num_vars() implies (#[trigger] s.trail.contains(v) <==> (
    o.assigns[v.0 as int] == LBool::Undef && s.assigns[v.0 as int] != LBool::Undef)) by {
        if s.trail.contains(v) {
            assert(s.trail[0] == x);
        }
        if v == x {
            assert(s.trail[0] == v);
        }
        if v.0 == x.0 {
            assert(v == x);
        }
    }
    assert forall|v: VarId| 0 <= v.0 < o.num_vars() implies (#[trigger] s.decisions[v.0 as int] == Some(
        s.decision,
    ) <==> (s.trail.contains(v) && v != s.decision)) by {
        assert(s.decisions[v.0 as int] == o.decisions[v.0 as int]);
        if s.trail.contains(v) {
            assert(s.trail[0] == v);
        }
    }
    assert forall|k: int| 0 <= k < s.queue.len() implies o.queue.contains(#[trigger] s.queue[k])
        || s.trail.contains(s.queue[k]) by {
        if k < o.queue.len() {
            assert(o.queue[k] == s.queue[k]);
        } else {
            assert(s.queue[k] == x);
            assert(s.trail[0] == x);
        }
    }
    assert forall|c: int| 0 <= c < o.num_clauses() implies #[trigger] same_literals(
        s.clauses[c],
        o.clauses[c],
    ) by {}
    assert(s.level_ok());
}

/// Visiting a clause keeps a propagation a propagation.
pub proof fn lemma_visit_propagating(
    o: EngineState,
    lit: Lit,
    s: EngineState,
    c: ClauseId,
    l: Lit,
    hand: Seq<ClauseId>,
)
    requires
        o.wf(),
        propagating(o, lit, s),
        s.wf_with_hand(l.vi(), hand),
        hand.len() > 0,
        hand[0] == c,
        0 <= l.vi() < s.num_vars(),
    ensures
        propagating(o, lit, s.after_visit(c, l)),
{
    s.lemma_visit_wf(c, l, hand);
    let n = o.num_vars();
    let ci = c.0 as int;
    let lits = watch_front(s.clauses[ci], l.x);
    let i = first_open(s.assigns, lits, 2);
    lemma_watch_front_same(s.clauses[ci], l.x);
    lemma_first_open(s.assigns, lits, 2);
    let newl = if is_true(s.assigns, lits[0]) || is_true(s.assigns, lits[1]) {
        lits
    } else if i < lits.len() {
        swapped(lits, 1, i)
    } else {
        lits
    };
    if !is_true(s.assigns, lits[0]) && !is_true(s.assigns, lits[1]) && i < lits.len() {
        lemma_swapped_same(lits, 1, i);
    }
    assert(same_literals(newl, s.clauses[ci]));
    let t0 = s.with_clause_lits(c, newl);
    assert forall|cc: int| 0 <= cc < o.num_clauses() implies #[trigger] same_literals(
        t0.clauses[cc],
        o.clauses[cc],
    ) by {
        assert(same_literals(s.clauses[cc], o.clauses[cc]));
        if cc == ci {
            lemma_same_trans(newl, s.clauses[ci], o.clauses[ci]);
        }
    }
    assert forall|k: int| 1 <= k < t0.trail.len() implies (#[trigger] t0.reasons[t0.trail[k].0 as int] matches Some(
        cc,
    ) && cc.0 < t0.num_clauses() && t0.clauses[cc.0 as int].contains(
        Lit { x: t0.trail[k], sign: t0.assigns[t0.trail[k].0 as int] == LBool::True },
    )) by {
        let r = s.reasons[s.trail[k].0 as int];
        assert(r matches Some(cc) && cc.0 < s.num_clauses() && s.clauses[cc.0 as int].contains(
            Lit { x: s.trail[k], sign: s.assigns[s.trail[k].0 as int] == LBool::True },
        ));
    }
    if is_true(s.assigns, lits[0]) || is_true(s.assigns, lits[1]) || i < lits.len() {
        assert(propagating(o, lit, s.after_visit(c, l)));
    } else {
        let t1 = t0.with_watch(l.negated(), c);
        let f = lits[0];
        assert(s.after_visit(c, l) == t1.after_enqueue(f, Some(c)));
        assert(propagating(o, lit, t1));
        if t1.assigns[f.vi()] == LBool::Undef {
            let t = t1.after_enqueue(f, Some(c));
            let v0 = f.x;
            assert(f.vi() < n);
            assert(VarId(v0.0) == v0);
            assert(!t1.trail.contains(v0));
            assert(o.assigns[v0.0 as int] == LBool::Undef);
            assert(v0 != lit.x);
            assert(t.trail.no_duplicates()) by {
                assert forall|a: int, b: int| 0 <= a < b < t.trail.len() implies t.trail[a]
                    != t.trail[b] by {
                    if b == t.trail.len() - 1 {
                        assert(t1.trail.contains(t1.trail[a]));
                    }
                }
            }
            assert(Lit { x: v0, sign: t.assigns[v0.0 as int] == LBool::True } == f);
            assert forall|v: VarId| 0 <= v.0 < n implies (#[trigger] t.trail.contains(v) <==> (
            o.assigns[v.0 as int] == LBool::Undef && t.assigns[v.0 as int] != LBool::Undef)) by {
                if v == v0 {
                    assert(t.trail[t.trail.len() - 1] == v);
                } else {
                    assert(v.0 != v0.0);
                    assert(t.assigns[v.0 as int] == t1.assigns[v.0 as int]);
                    if t.trail.contains(v) {
                        let k = choose|k: int| 0 <= k < t.trail.len() && t.trail[k] == v;
                        assert(t1.trail[k] == v);
                    }
                    if t1.trail.contains(v) {
                        let k = choose|k: int| 0 <= k < t1.trail.len() && t1.trail[k] == v;
                        assert(t.trail[k] == v);
                    }
                }
            }
            assert forall|k: int| 0 <= k < t.trail.len() implies t.assigns[#[trigger] t.trail[k].0 as int]
                != LBool::Undef by {
                if k < t1.trail.len() {
                    assert(t1.trail[k] == t.trail[k]);
                }
            }
            assert forall|v: VarId| 0 <= v.0 < n implies (#[trigger] t.decisions[v.0 as int] == Some(
                t.decision,
            ) <==> (t.trail.contains(v) && v != t.decision)) by {
                if v != v0 {
                    assert(v.0 != v0.0);
                    assert(t.trail.contains(v) == t1.trail.contains(v)) by {
                        if t.trail.contains(v) {
                            let k = choose|k: int| 0 <= k < t.trail.len() && t.trail[k] == v;
                            assert(t1.trail[k] == v);
                        }
                        if t1.trail.contains(v) {
                            let k = choose|k: int| 0 <= k < t1.trail.len() && t1.trail[k] == v;
                            assert(t.trail[k] == v);
                        }
                    }
                } else {
                    assert(t.trail[t.trail.len() - 1] == v);
                }
            }
            assert forall|k: int| 1 <= k < t.trail.len() implies #[trigger] t.reasons[t.trail[k].0 as int]
                is Some by {
                if k < t1.trail.len() {
                    assert(t1.trail[k] == t.trail[k]);
                    assert(t.trail[k] != v0);
                    assert(t.trail[k].0 != v0.0);
                }
            }
            assert(t.level_ok());
            assert forall|v: VarId| 0 <= v.0 < n && !t.trail.contains(v) implies #[trigger] t.reasons[v.0
                as int] == o.reasons[v.0 as int] && t.decisions[v.0 as int] == o.decisions[v.0 as int] by {
                if v != v0 {
                    assert(v.0 != v0.0);
                    if t1.trail.contains(v) {
                        let k = choose|k: int| 0 <= k < t1.trail.len() && t1.trail[k] == v;
                        assert(t.trail[k] == v);
                    }
                } else {
                    assert(t.trail[t.trail.len() - 1] == v);
                }
            }
            assert forall|k: int| 1 <= k < t.trail.len() implies (#[trigger] t.reasons[t.trail[k].0 as int] matches Some(
                cc,
            ) && cc.0 < t.num_clauses() && t.clauses[cc.0 as int].contains(
                Lit { x: t.trail[k], sign: t.assigns[t.trail[k].0 as int] == LBool::True },
            )) by {
                if k < t1.trail.len() {
                    assert(t1.trail[k] == t.trail[k]);
                    assert(t.trail[k].0 != v0.0);
                    assert(t1.reasons[t1.trail[k].0 as int] matches Some(cc) && cc.0 < t1.num_clauses()
                        && t1.clauses[cc.0 as int].contains(
                        Lit { x: t1.trail[k], sign: t1.assigns[t1.trail[k].0 as int] == LBool::True },
                    ));
                } else {
                    assert(t.trail[k] == v0);
                    assert(t.clauses[ci] == lits);
                    assert(lits[0] == f);
                }
            }
            assert forall|k: int| 0 <= k < t.queue.len() implies o.queue.contains(#[trigger] t.queue[k])
                || t.trail.contains(t.queue[k]) by {
                if k < t1.queue.len() {
                    assert(t1.queue[k] == t.queue[k]);
                    if t1.trail.contains(t1.queue[k]) {
                        let j = choose|j: int| 0 <= j < t1.trail.len() && t1.trail[j] == t1.queue[k];
                        assert(t.trail[j] == t.queue[k]);
                    }
                } else {
                    assert(t.trail[t.trail.len() - 1] == v0);
                }
            }
            assert(propagating(o, lit, t));
        }
    }
}

/// A clause found falsified while propagating `lit` holds a literal of a
/// variable of the current level other than the decision, provided that the
/// state before `lit` was `queue_ready` and the visited variable was queued
/// before or assigned since.
pub proof fn lemma_conflict_open(
    o: EngineState,
    lit: Lit,
    s: EngineState,
    c: ClauseId,
    l: Lit,
    hand: Seq<ClauseId>,
)
    requires
        o.wf(),
        o.queue_ready(),
        propagating(o, lit, s),
        s.wf_with_hand(l.vi(), hand),
        hand.len() > 0,
        hand[0] == c,
        0 <= l.vi() < s.num_vars(),
        o.queue.contains(l.x) || s.trail.contains(l.x),
        !s.visit_ok(c, l),
    ensures
        s.after_visit(c, l).has_open_lit(c.0 as int),
        s.after_visit(c, l) == s.with_clause_lits(c, watch_front(s.clauses[c.0 as int], l.x)).with_watch(
            l.negated(),
            c,
        ),
{
    s.lemma_visit_wf(c, l, hand);
    let ci = c.0 as int;
    let w = l.x;
    let x = lit.x;
    let lits = watch_front(s.clauses[ci], w);
    let t = s.after_visit(c, l);
    lemma_watch_front_same(s.clauses[ci], w);
    lemma_first_open(s.assigns, lits, 2);
    assert(lits.len() >= 2);
    assert(is_false(s.assigns, lits[0]));
    assert(forall|j: int| 2 <= j < lits.len() ==> is_false(s.assigns, #[trigger] lits[j]));
    assert(t.clauses[ci] == lits);
    assert(t.trail == s.trail);
    if s.trail.contains(w) {
        assert(t.trail.contains(t.clauses[ci][1].x));
    } else {
        assert(o.queue.contains(w));
        assert(lits.contains(lits[1]));
        assert(same_literals(s.clauses[ci], o.clauses[ci]));
        assert(o.clauses[ci].contains(lits[1]));
        let k1 = choose|k: int| 0 <= k < o.clauses[ci].len() && o.clauses[ci][k] == lits[1];
        assert(o.clauses[ci][k1].vi() == w.0);
        assert(mentions(o.clauses[ci], w.0 as int));
        assert(!holds_true_on(o.assigns, o.clauses[ci], w)) by {
            if holds_true_on(o.assigns, o.clauses[ci], w) {
                let kt = choose|kt: int|
                    0 <= kt < o.clauses[ci].len() && o.clauses[ci][kt].x == w && #[trigger] is_true(
                        o.assigns,
                        o.clauses[ci][kt],
                    );
                let g = o.clauses[ci][kt];
                assert(o.clauses[ci].contains(g));
                assert(lits.contains(g));
                assert(g.vi() < o.num_vars());
                assert(s.assigns[g.vi()] == o.assigns[g.vi()]);
                assert(is_true(s.assigns, g));
                let jg = choose|jg: int| 0 <= jg < lits.len() && lits[jg] == g;
                assert(jg == 1);
            }
        }
        let k = choose|k: int|
            0 <= k < o.clauses[ci].len() && o.clauses[ci][k].x != w && !is_false(
                o.assigns,
                #[trigger] o.clauses[ci][k],
            );
        let ell = o.clauses[ci][k];
        assert(o.clauses[ci].contains(ell));
        assert(lits.contains(ell));
        let j = choose|j: int| 0 <= j < lits.len() && lits[j] == ell;
        assert(j != 1);
        assert(is_false(s.assigns, ell));
        let u = ell.x;
        assert(u.0 < o.num_vars());
        if o.assigns[u.0 as int] != LBool::Undef {
            assert(o.assigns[u.0 as int] == s.assigns[u.0 as int]);
            assert(lit_value(o.assigns, ell) == lit_value(s.assigns, ell));
            assert(false);
        }
        assert(o.assigns[u.0 as int] == LBool::Undef);
        assert(s.assigns[u.0 as int] != LBool::Undef);
        assert(VarId(u.0) == u);
        assert(s.trail.contains(u));
        assert(t.trail.contains(t.clauses[ci][j].x));
    }
}

/// Undoing the level of a propagation restores the starting assignment.
pub proof fn lemma_level_restore(o: EngineState, lit: Lit, s: EngineState)
    requires
        o.wf(),
        o.num_vars() <= usize::MAX,
        s.shaped(),
        propagating(o, lit, s),
    ensures
        s.with_level_undone().assigns == o.assigns,
        s.with_level_undone().reasons == o.reasons,
        s.with_level_undone().decisions == o.decisions,
{
    let t = s.with_level_undone();
    let gone = s.trail.subrange(0, s.trail.len() as int);
    assert(gone =~= s.trail);
    assert forall|v: int| 0 <= v < o.num_vars() implies t.assigns[v] == o.assigns[v] && t.reasons[v]
        == o.reasons[v] && t.decisions[v] == o.decisions[v] by {
        let vv = VarId(v as usize);
        assert(vv.0 == v);
        if s.trail.contains(vv) {
            assert(o.assigns[v] == LBool::Undef);
            assert(o.reasons[v] is None && o.decisions[v] is None);
        } else {
            assert(s.reasons[vv.0 as int] == o.reasons[vv.0 as int]);
            assert(s.decisions[vv.0 as int] == o.decisions[vv.0 as int]);
            if o.assigns[v] == LBool::Undef {
                assert(s.assigns[v] == LBool::Undef);
            }
        }
    }
    assert(t.assigns =~= o.assigns);
    assert(t.reasons =~= o.reasons);
    assert(t.decisions =~= o.decisions);
}

/// Taking out the watch list of variable `v` keeps the watch bounds, with the
/// taken list in hand.
pub proof fn lemma_take_watches(s: EngineState, t: EngineState, v: int, hand: Seq<ClauseId>)
    requires
        s.wf(),
        s.watch_ok(),
        0 <= v < s.num_vars(),
        t == (EngineState { pos_watches: t.pos_watches, neg_watches: t.neg_watches, ..s }),
        (t.pos_watches == s.pos_watches.update(v, Seq::empty()) && t.neg_watches == s.neg_watches
            && hand == s.pos_watches[v]) || (t.neg_watches == s.neg_watches.update(v, Seq::empty())
            && t.pos_watches == s.pos_watches && hand == s.neg_watches[v]),
    ensures
        t.wf_with_hand(v, hand),
        forall|k: int| 0 <= k < hand.len() ==> #[trigger] hand[k].0 < t.num_clauses(),
{
    assert forall|w: int, c: ClauseId|
        0 <= w < t.num_vars() && 0 <= c.0 < t.num_clauses() implies #[trigger] t.entries(w, c, v, hand)
        <= watched_count(t.clauses[c.0 as int], w) by {
        assert(s.entries(w, c, -1, Seq::empty()) <= watched_count(s.clauses[c.0 as int], w));
        lemma_occ_empty(c);
        if w == v {
            assert(t.entries(w, c, v, hand) == s.entries(w, c, -1, Seq::empty()));
        } else {
            assert(t.entries(w, c, v, hand) == s.entries(w, c, -1, Seq::empty()));
        }
    }
    assert forall|w: int, k: int|
        0 <= w < t.num_vars() && 0 <= k < t.pos_watches[w].len() implies #[trigger] t.pos_watches[w][k].0
        < t.num_clauses() by {
        assert(t.pos_watches[w][k] == s.pos_watches[w][k]);
    }
    assert forall|w: int, k: int|
        0 <= w < t.num_vars() && 0 <= k < t.neg_watches[w].len() implies #[trigger] t.neg_watches[w][k].0
        < t.num_clauses() by {
        assert(t.neg_watches[w][k] == s.neg_watches[w][k]);
    }
    assert forall|k: int| 0 <= k < hand.len() implies #[trigger] hand[k].0 < t.num_clauses() by {
        if hand == s.pos_watches[v] {
            assert(s.pos_watches[v][k].0 < s.num_clauses());
        } else {
            assert(s.neg_watches[v][k].0 < s.num_clauses());
        }
    }
}

/// Pushing a known clause onto a watch list keeps the state shaped.
pub proof fn lemma_push_watch_shaped(s: EngineState, t: EngineState, v: int, c: ClauseId)
    requires
        s.shaped(),
        0 <= v < s.num_vars(),
        c.0 < s.num_clauses(),
        t == (EngineState { pos_watches: t.pos_watches, neg_watches: t.neg_watches, ..s }),
        (t.pos_watches == s.pos_watches.update(v, s.pos_watches[v].push(c)) && t.neg_watches
            == s.neg_watches) || (t.neg_watches == s.neg_watches.update(v, s.neg_watches[v].push(c))
            && t.pos_watches == s.pos_watches),
    ensures
        t.shaped(),
{
    assert forall|w: int, k: int|
        0 <= w < t.num_vars() && 0 <= k < t.pos_watches[w].len() implies #[trigger] t.pos_watches[w][k].0
        < t.num_clauses() by {
        if w == v && k == s.pos_watches[v].len() && t.pos_watches != s.pos_watches {
        } else {
            assert(t.pos_watches[w][k] == s.pos_watches[w][k]);
        }
    }
    assert forall|w: int, k: int|
        0 <= w < t.num_vars() && 0 <= k < t.neg_watches[w].len() implies #[trigger] t.neg_watches[w][k].0
        < t.num_clauses() by {
        if w == v && k == s.neg_watches[v].len() && t.neg_watches != s.neg_watches {
        } else {
            assert(t.neg_watches[w][k] == s.neg_watches[w][k]);
        }
    }
}

/// With nothing left in hand, the bounds with a hand are the plain bounds.
pub proof fn lemma_hand_empty(t: EngineState, v: int)
    requires
        t.wf_with_hand(v, Seq::empty()),
    ensures
        t.wf(),
        t.watch_ok(),
{
    assert forall|w: int, c: ClauseId|
        0 <= w < t.num_vars() && 0 <= c.0 < t.num_clauses() implies #[trigger] t.entries(w, c, -1, Seq::empty())
        <= watched_count(t.clauses[c.0 as int], w) by {
        assert(t.entries(w, c, v, Seq::empty()) <= watched_count(t.clauses[c.0 as int], w));
        lemma_occ_empty(c);
    }
}

/// Putting the first entry in hand back into a watch list of the hand's
/// variable keeps the accounting of entries, with one fewer in hand.
pub proof fn lemma_restore_watch(s: EngineState, t: EngineState, v: int, hand: Seq<ClauseId>)
    requires
        s.wf_with_hand(v, hand),
        0 <= v < s.num_vars(),
        hand.len() > 0,
        t == (EngineState { pos_watches: t.pos_watches, neg_watches: t.neg_watches, ..s }),
        (t.pos_watches == s.pos_watches.update(v, s.pos_watches[v].push(hand[0])) && t.neg_watches
            == s.neg_watches) || (t.neg_watches == s.neg_watches.update(v, s.neg_watches[v].push(hand[0]))
            && t.pos_watches == s.pos_watches),
    ensures
        t.wf_with_hand(v, hand.skip(1)),
{
    lemma_push_watch_shaped(s, t, v, hand[0]);
    let hs = hand.skip(1);
    assert forall|w: int, c: ClauseId|
        0 <= w < t.num_vars() && 0 <= c.0 < t.num_clauses() implies #[trigger] t.entries(w, c, v, hs)
        <= watched_count(t.clauses[c.0 as int], w) by {
        assert(s.entries(w, c, v, hand) <= watched_count(s.clauses[c.0 as int], w));
        if w == v {
            lemma_occ_skip(hand, 0, c);
            assert(hand.skip(0) =~= hand);
            lemma_occ_push(s.pos_watches[v], hand[0], c);
            lemma_occ_push(s.neg_watches[v], hand[0], c);
        } else {
            assert(t.pos_watches[w] == s.pos_watches[w]);
            assert(t.neg_watches[w] == s.neg_watches[w]);
        }
    }
    assert forall|k: int| 0 <= k < hs.len() implies #[trigger] hs[k].0 < t.num_clauses() by {
        assert(hs[k] == hand[k + 1]);
    }
}

/// Decision tags that name assigned variables keep doing so when neither the
/// tags nor the values change.
pub proof fn lemma_tags_frame(o: EngineState, t: EngineState)
    requires
        o.tags_live(),
        t.decisions == o.decisions,
        t.assigns == o.assigns,
    ensures
        t.tags_live(),
{
    assert forall|v: int| 0 <= v < t.num_vars() implies (#[trigger] t.decisions[v] matches Some(x) ==> x.0
        < t.num_vars() && t.assigns[x.0 as int] != LBool::Undef) by {
        assert(o.decisions[v] matches Some(y) ==> y.0 < o.num_vars() && o.assigns[y.0 as int] != LBool::Undef);
    }
}

} // verus!
