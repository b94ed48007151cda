//! Soundness of propagation: when the watch lists are proper, every variable
//! that `Engine::assert_lit` propagates is forced by its reason clause.
use vstd::prelude::*;

use crate::clause::ClauseId;
use crate::lbool::LBool;
use crate::lit::Lit;
use crate::model::{
    first_open, is_false, is_true, lemma_first_open, lemma_occ_pos, occ,
    same_literals, swapped, watch_front, watched_by, watched_count, lemma_swapped_same, EngineState,
};
use crate::propagation::lemma_watch_front_same;

verus! {

/// Deciding a literal keeps the watch lists proper, and starts a level with
/// no propagated variable.
pub proof fn lemma_start_sound(o: EngineState, lit: Lit)
    requires
        o.wf(),
        o.watch_proper(),
        0 <= lit.vi() < o.num_vars(),
        o.assigns[lit.vi()] == LBool::Undef,
    ensures
        o.decided(lit).watch_proper(),
        o.decided(lit).reasons_sound(),
{
    let s = o.decided(lit);
    assert(s.trail.len() == 1);
    assert forall|l: Lit, k: int|
        0 <= l.vi() < s.num_vars() && 0 <= k < s.watch_list(l).len() implies watched_by(
        s.clauses[#[trigger] s.watch_list(l)[k].0 as int],
        l,
    ) by {
        assert(s.watch_list(l) == o.watch_list(l));
    }
}

/// Taking out the watch list of a literal keeps the entries proper, with the
/// taken list in hand.
pub proof fn lemma_take_sound(s: EngineState, t: EngineState, f: Lit, hand: Seq<ClauseId>)
    requires
        s.wf(),
        s.watch_proper(),
        0 <= f.vi() < s.num_vars(),
        hand == s.watch_list(f),
        t == (EngineState { pos_watches: t.pos_watches, neg_watches: t.neg_watches, ..s }),
        f.sign ==> t.pos_watches == s.pos_watches.update(f.vi(), Seq::empty()) && t.neg_watches
            == s.neg_watches,
        !f.sign ==> t.neg_watches == s.neg_watches.update(f.vi(), Seq::empty()) && t.pos_watches
            == s.pos_watches,
    ensures
        t.watches_proper(f, hand),
{
    assert forall|l: Lit, k: int|
        0 <= l.vi() < t.num_vars() && 0 <= k < t.watch_list(l).len() implies watched_by(
        t.clauses[#[trigger] t.watch_list(l)[k].0 as int],
        l,
    ) by {
        if l == f {
            assert(t.watch_list(l).len() == 0);
        } else {
            if l.vi() == f.vi() {
                assert(l.sign != f.sign);
            }
            assert(t.watch_list(l) == s.watch_list(l));
            assert(s.watch_list(l)[k] == t.watch_list(l)[k]);
        }
    }
    assert forall|k: int| 0 <= k < hand.len() implies watched_by(t.clauses[#[trigger] hand[k].0 as int], f) by {
        assert(s.watch_list(f)[k] == hand[k]);
    }
}

/// Proper entries depend only on the assignment, the clauses and the watch lists.
pub proof fn lemma_proper_frame(s: EngineState, t: EngineState)
    requires
        s.watch_proper(),
        t.assigns == s.assigns,
        t.clauses == s.clauses,
        t.pos_watches == s.pos_watches,
        t.neg_watches == s.neg_watches,
    ensures
        t.watch_proper(),
{
    assert forall|l: Lit, k: int|
        0 <= l.vi() < t.num_vars() && 0 <= k < t.watch_list(l).len() implies watched_by(
        t.clauses[#[trigger] t.watch_list(l)[k].0 as int],
        l,
    ) by {
        assert(t.watch_list(l) == s.watch_list(l));
    }
}

/// Assigning more variables keeps the entries proper, and keeps queued
/// variables assigned when the newly queued ones are assigned.
pub proof fn lemma_grow_sound(s: EngineState, t: EngineState)
    requires
        s.watch_proper(),
        s.num_vars() == t.num_vars(),
        forall|v: int| 0 <= v < s.num_vars() && s.assigns[v] != LBool::Undef ==> #[trigger] t.assigns[v] == s.assigns[v],
        t.clauses == s.clauses,
        t.pos_watches == s.pos_watches,
        t.neg_watches == s.neg_watches,
    ensures
        t.watch_proper(),
{
    assert forall|l: Lit, k: int|
        0 <= l.vi() < t.num_vars() && 0 <= k < t.watch_list(l).len() implies watched_by(
        t.clauses[#[trigger] t.watch_list(l)[k].0 as int],
        l,
    ) by {
        assert(t.watch_list(l) == s.watch_list(l));
    }
}

/// `enqueue` keeps the entries proper and the queue assigned.
pub proof fn lemma_enqueue_sound(s: EngineState, l: Lit, r: Option<ClauseId>)
    requires
        s.wf(),
        0 <= l.vi() < s.num_vars(),
    ensures
        s.watch_proper() ==> s.after_enqueue(l, r).watch_proper(),
        s.queue_assigned() ==> s.after_enqueue(l, r).queue_assigned(),
{
    let t = s.after_enqueue(l, r);
    if s.watch_proper() {
        lemma_grow_sound(s, t);
    }
    if s.queue_assigned() && s.assigns[l.vi()] == LBool::Undef {
        assert forall|k: int| 0 <= k < t.queue.len() implies t.assigns[#[trigger] t.queue[k].0 as int]
            != LBool::Undef by {
            if k < s.queue.len() {
                assert(t.queue[k] == s.queue[k]);
                assert(s.assigns[s.queue[k].0 as int] != LBool::Undef);
            }
        }
    }
}

/// A fresh variable keeps the entries proper.
pub proof fn lemma_new_var_sound(s: EngineState)
    requires
        s.wf(),
    ensures
        s.watch_proper() ==> s.with_new_var().watch_proper(),
        s.queue_assigned() ==> s.with_new_var().queue_assigned(),
{
    let t = s.with_new_var();
    if s.watch_proper() {
        assert forall|l: Lit, k: int|
            0 <= l.vi() < t.num_vars() && 0 <= k < t.watch_list(l).len() implies watched_by(
            t.clauses[#[trigger] t.watch_list(l)[k].0 as int],
            l,
        ) by {
            if l.vi() < s.num_vars() {
                assert(t.watch_list(l) == s.watch_list(l));
                assert(t.assigns[l.vi()] == s.assigns[l.vi()]);
            } else {
                assert(t.watch_list(l).len() == 0);
            }
        }
    }
    if s.queue_assigned() {
        assert forall|k: int| 0 <= k < t.queue.len() implies t.assigns[#[trigger] t.queue[k].0 as int]
            != LBool::Undef by {
            assert(s.assigns[s.queue[k].0 as int] != LBool::Undef);
        }
    }
}

/// A stored clause is watched properly by its first two literals.
pub proof fn lemma_with_clause_sound(s: EngineState, lits: Seq<Lit>)
    requires
        s.wf(),
        lits.len() >= 2,
        forall|k: int| 0 <= k < lits.len() ==> #[trigger] lits[k].vi() < s.num_vars(),
        s.num_clauses() <= usize::MAX,
    ensures
        s.watch_proper() ==> s.with_clause(lits).watch_proper(),
        s.queue_assigned() ==> s.with_clause(lits).queue_assigned(),
{
    let t = s.with_clause(lits);
    let nc = ClauseId(s.num_clauses() as usize);
    if s.watch_proper() {
        assert forall|l: Lit, k: int|
            0 <= l.vi() < t.num_vars() && 0 <= k < t.watch_list(l).len() implies watched_by(
            t.clauses[#[trigger] t.watch_list(l)[k].0 as int],
            l,
        ) by {
            let sl = s.watch_list(l);
            let e = t.watch_list(l)[k];
            if k < sl.len() {
                assert(e == sl[k]);
                assert(sl[k].0 < s.num_clauses());
                assert(t.clauses[e.0 as int] == s.clauses[e.0 as int]);
            } else {
                assert(e == nc);
                assert(t.clauses[nc.0 as int] == lits);
                assert(l == lits[0] || l == lits[1]);
            }
        }
    }
}

/// With nothing left in hand, proper entries with a hand are proper entries.
pub proof fn lemma_hand_done_sound(t: EngineState, f: Lit)
    requires
        t.watches_proper(f, Seq::empty()),
    ensures
        t.watch_proper(),
{
}

/// Visiting a clause for the true literal `l` keeps the watch lists proper
/// and the reasons of the level sound.
pub proof fn lemma_visit_sound(s: EngineState, c: ClauseId, l: Lit, hand: Seq<ClauseId>)
    requires
        s.wf_with_hand(l.vi(), hand),
        hand.len() > 0,
        hand[0] == c,
        0 <= l.vi() < s.num_vars(),
        is_true(s.assigns, l),
        s.watches_proper(l.negated(), hand),
        s.reasons_sound(),
        forall|k: int| 0 <= k < s.trail.len() ==> s.assigns[#[trigger] s.trail[k].0 as int] != LBool::Undef,
    ensures
        s.after_visit(c, l).watches_proper(l.negated(), hand.skip(1)),
        s.after_visit(c, l).reasons_sound(),
{
    s.lemma_visit_wf(c, l, hand);
    let n = s.num_vars();
    let f = l.negated();
    let w = l.x;
    let wi = l.vi();
    let ci = c.0 as int;
    let ol = s.clauses[ci];
    let lits = watch_front(ol, w);
    let i = first_open(s.assigns, lits, 2);
    lemma_first_open(s.assigns, lits, 2);
    lemma_watch_front_same(ol, w);
    let t = s.after_visit(c, l);
    let hs = hand.skip(1);
    assert(c.0 < s.num_clauses());
    assert(ol.len() >= 2);
    assert(is_false(s.assigns, f));
    assert(watched_by(ol, f));
    assert(lits[1].x == w);
    assert(lits[0] == ol[0] || lits[0] == ol[1]);
    assert(lits[1] == ol[0] || lits[1] == ol[1]);
    assert(ol[0] == lits[0] || ol[0] == lits[1]);
    assert(ol[1] == lits[0] || ol[1] == lits[1]);
    let lazy = is_true(s.assigns, lits[0]) || is_true(s.assigns, lits[1]);
    let repl = !lazy && i < lits.len();
    let newl = if lazy {
        lits
    } else if repl {
        swapped(lits, 1, i)
    } else {
        lits
    };
    let target = if lazy {
        f
    } else if repl {
        lits[i]
    } else {
        f
    };
    assert(t.clauses == s.clauses.update(ci, newl));
    assert(t.pos_watches == s.with_watch(target, c).pos_watches);
    assert(t.neg_watches == s.with_watch(target, c).neg_watches);
    // Assignments only grow: what is true or false stays so.
    assert(forall|g: Lit| 0 <= g.vi() < n && is_true(s.assigns, g) ==> #[trigger] is_true(t.assigns, g));
    assert(forall|g: Lit| 0 <= g.vi() < n && is_false(s.assigns, g) ==> #[trigger] is_false(t.assigns, g));
    assert(is_true(t.assigns, l));
    // Literals of the visited variable are `f` or `l`.
    assert(forall|g: Lit| g.x == w ==> g == f || g == l);
    // F1: a watched literal on another variable stays watched.
    assert forall|g: Lit| g.x != w && watched_by(ol, g) implies watched_by(newl, g) by {
        assert(lits[0] == g);
        if repl {
            assert(newl[0] == lits[0]);
        }
    }
    // F2: with both watched positions on the visited variable, `f` stays watched.
    if watched_count(ol, wi) == 2 {
        assert(ol[0].x == w && ol[1].x == w);
        assert(lits == swapped(ol, 0, 1));
        if !lazy {
            assert(lits[0] == f);
            if repl {
                assert(newl[0] == lits[0]);
            }
        }
        assert(watched_by(newl, f));
    }
    // F3: the new entry is proper.
    if repl {
        assert(newl[1] == lits[i]);
    }
    assert(watched_by(ol, f));
    assert(watched_by(newl, target)) by {
        if lazy && !watched_by(lits, f) {
            assert(lits[1] == l);
            assert(ol[0] == lits[0] || ol[0] == lits[1]);
            assert(ol[1] == lits[0] || ol[1] == lits[1]);
        }
    }
    // The remaining entries of the visited clause for the visited variable.
    assert(occ(hand, c) == 1 + occ(hs, c));
    assert(s.entries(wi, c, wi, hand) <= watched_count(ol, wi));
    assert forall|g: Lit, k: int|
        0 <= g.vi() < t.num_vars() && 0 <= k < t.watch_list(g).len() implies watched_by(
        t.clauses[#[trigger] t.watch_list(g)[k].0 as int],
        g,
    ) by {
        let sl = s.watch_list(g);
        if g == target && k == sl.len() {
            assert(t.watch_list(g)[k] == c);
        } else {
            assert(k < sl.len());
            assert(t.watch_list(g)[k] == sl[k]);
            let e = sl[k];
            assert(watched_by(s.clauses[e.0 as int], g));
            if e == c {
                if g.x != w {
                } else {
                    lemma_occ_pos(sl, k);
                    assert(occ(sl, c) >= 1);
                    if g.sign {
                        assert(sl == s.pos_watches[wi]);
                    } else {
                        assert(sl == s.neg_watches[wi]);
                    }
                    assert(watched_count(ol, wi) == 2);
                    if g == l {
                        assert(watched_by(ol, l));
                        assert(g != f);
                        assert(ol[0] == l || ol[1] == l);
                        assert(lits == swapped(ol, 0, 1));
                        assert(lazy);
                        assert(newl == lits);
                    }
                }
            } else {
                assert(t.clauses[e.0 as int] == s.clauses[e.0 as int]);
            }
        }
    }
    assert forall|k: int| 0 <= k < hs.len() implies watched_by(t.clauses[#[trigger] hs[k].0 as int], f) by {
        assert(hs[k] == hand[k + 1]);
        let e = hs[k];
        if e == c {
            lemma_occ_pos(hs, k);
            assert(watched_count(ol, wi) == 2);
        } else {
            assert(t.clauses[e.0 as int] == s.clauses[e.0 as int]);
        }
    }
    // Reasons.
    assert forall|k: int| 1 <= k < t.trail.len() implies (#[trigger] t.reasons[t.trail[k].0 as int] matches Some(
        cc,
    ) && cc.0 < t.num_clauses() && forall|g: Lit|
        t.clauses[cc.0 as int].contains(g) ==> g == t.holding_lit(t.trail[k]) || is_false(
            t.assigns,
            g,
        )) by {
        if k < s.trail.len() {
            let v = s.trail[k];
            assert(t.trail[k] == v);
            assert(s.assigns[v.0 as int] != LBool::Undef);
            assert(t.assigns[v.0 as int] == s.assigns[v.0 as int]);
            assert(t.reasons[v.0 as int] == s.reasons[v.0 as int]);
            let cc = s.reasons[v.0 as int]->Some_0;
            assert(s.reasons[s.trail[k].0 as int] matches Some(cc2) && cc2.0 < s.num_clauses() && forall|
                g: Lit,
            | s.clauses[cc2.0 as int].contains(g) ==> g == s.holding_lit(s.trail[k]) || is_false(s.assigns, g));
            assert forall|g: Lit| t.clauses[cc.0 as int].contains(g) implies g == t.holding_lit(v) || is_false(
                t.assigns,
                g,
            ) by {
                if cc == c {
                    assert(newl.contains(g));
                    if repl {
                        lemma_swapped_same(lits, 1, i);
                    }
                    assert(ol.contains(g));
                }
                assert(s.clauses[cc.0 as int].contains(g));
                if is_false(s.assigns, g) {
                    assert(g.vi() < n) by {
                        let j = choose|j: int| 0 <= j < s.clauses[cc.0 as int].len() && s.clauses[cc.0 as int][j] == g;
                    }
                }
            }
        } else {
            // the variable just propagated by the visited clause
            let v0 = lits[0].x;
            assert(!lazy && !repl);
            assert(s.assigns[lits[0].vi()] == LBool::Undef);
            assert(t.trail[k] == v0);
            assert(lits[0] != f && lits[0] != l);
            assert(v0 != w);
            assert(lits[1] == f);
            assert(t.clauses[ci] == lits);
            assert(t.holding_lit(v0) == lits[0]);
            assert forall|g: Lit| t.clauses[ci].contains(g) implies g == t.holding_lit(v0) || is_false(
                t.assigns,
                g,
            ) by {
                let j = choose|j: int| 0 <= j < lits.len() && lits[j] == g;
                if j >= 2 {
                    assert(is_false(s.assigns, lits[j]));
                    assert(lits[j].vi() < n);
                }
            }
        }
    }
}

/// A visit that finds its clause falsified leaves every literal of that
/// clause false, when the watch lists are proper.
pub proof fn lemma_conflict_falsified(s: EngineState, c: ClauseId, l: Lit, hand: Seq<ClauseId>)
    requires
        s.wf_with_hand(l.vi(), hand),
        hand.len() > 0,
        hand[0] == c,
        0 <= l.vi() < s.num_vars(),
        is_true(s.assigns, l),
        s.watches_proper(l.negated(), hand),
        !s.visit_ok(c, l),
    ensures
        ({
            let t = s.after_visit(c, l);
            forall|j: int| 0 <= j < t.clauses[c.0 as int].len() ==> is_false(t.assigns, #[trigger] t.clauses[c.0 as int][j])
        }),
{
    s.lemma_visit_wf(c, l, hand);
    let f = l.negated();
    let w = l.x;
    let ol = s.clauses[c.0 as int];
    let lits = watch_front(ol, w);
    lemma_first_open(s.assigns, lits, 2);
    assert(watched_by(ol, f));
    assert(lits[1] == f) by {
        if ol[1] == f && ol[0].x == w && ol[0] != f {
            assert(ol[0] == l);
            assert(is_true(s.assigns, lits[1]));
        }
    }
    let t = s.after_visit(c, l);
    assert(t.assigns == s.assigns);
    assert(t.clauses[c.0 as int] == lits);
}

/// Visiting a clause keeps each propagated variable after the other
/// variables of its reason clause on the trail.
pub proof fn lemma_visit_ordered(s: EngineState, c: ClauseId, l: Lit, hand: Seq<ClauseId>)
    requires
        s.wf_with_hand(l.vi(), hand),
        hand.len() > 0,
        hand[0] == c,
        0 <= l.vi() < s.num_vars(),
        s.assigns[l.vi()] != LBool::Undef,
        s.reasons_sound(),
        s.reasons_ordered(),
        forall|k: int| 0 <= k < s.trail.len() ==> s.assigns[#[trigger] s.trail[k].0 as int] != LBool::Undef,
    ensures
        s.after_visit(c, l).reasons_ordered(),
{
    s.lemma_visit_wf(c, l, hand);
    let w = l.x;
    let ci = c.0 as int;
    let ol = s.clauses[ci];
    let lits = watch_front(ol, w);
    let i = first_open(s.assigns, lits, 2);
    lemma_first_open(s.assigns, lits, 2);
    lemma_watch_front_same(ol, w);
    let t = s.after_visit(c, l);
    let lazy = is_true(s.assigns, lits[0]) || is_true(s.assigns, lits[1]);
    let repl = !lazy && i < lits.len();
    let newl = if lazy {
        lits
    } else if repl {
        swapped(lits, 1, i)
    } else {
        lits
    };
    if repl {
        lemma_swapped_same(lits, 1, i);
    }
    assert(t.clauses == s.clauses.update(ci, newl));
    assert(same_literals(newl, ol));
    let m = s.trail.len() as int;
    let grew = !lazy && !repl && s.assigns[lits[0].vi()] == LBool::Undef;
    assert forall|k: int| 1 <= k < t.trail.len() implies (#[trigger] t.reasons[t.trail[k].0 as int] matches Some(cc)
        ==> forall|g: Lit, j: int|
        #![trigger t.clauses[cc.0 as int].contains(g), t.trail[j]]
        t.clauses[cc.0 as int].contains(g) && g != t.holding_lit(t.trail[k]) && k <= j < t.trail.len()
            ==> t.trail[j] != g.x) by {
        if k < m {
            let v = s.trail[k];
            assert(t.trail[k] == v);
            assert(s.assigns[v.0 as int] != LBool::Undef);
            assert(t.reasons[v.0 as int] == s.reasons[v.0 as int]);
            assert(t.assigns[v.0 as int] == s.assigns[v.0 as int]);
            if let Some(cc) = t.reasons[t.trail[k].0 as int] {
                assert forall|g: Lit, j: int|
                    #![trigger t.clauses[cc.0 as int].contains(g), t.trail[j]]
                    t.clauses[cc.0 as int].contains(g) && g != t.holding_lit(t.trail[k]) && k <= j < t.trail.len()
                        implies t.trail[j] != g.x by {
                    assert(s.clauses[cc.0 as int].contains(g)) by {
                        if cc == c {
                            let jj = choose|jj: int| 0 <= jj < newl.len() && newl[jj] == g;
                            assert(newl.contains(g));
                        }
                    }
                    assert(s.reasons[s.trail[k].0 as int] matches Some(c2) && c2.0 < s.num_clauses() && forall|
                        g2: Lit,
                    | s.clauses[c2.0 as int].contains(g2) ==> g2 == s.holding_lit(s.trail[k]) || is_false(
                        s.assigns,
                        g2,
                    ));
                    assert(s.holding_lit(v) == t.holding_lit(v));
                    if j < m {
                        assert(s.trail[j] == t.trail[j]);
                    } else {
                        assert(grew);
                        assert(t.trail[j] == lits[0].x);
                        assert(is_false(s.assigns, g));
                    }
                }
            }
        } else {
            assert(grew);
            assert(k == m);
            assert(t.trail[k] == lits[0].x);
            assert(t.reasons[lits[0].vi()] == Some(c));
            assert forall|g: Lit, j: int|
                #![trigger t.clauses[c.0 as int].contains(g), t.trail[j]]
                t.clauses[c.0 as int].contains(g) && g != t.holding_lit(t.trail[k]) && k <= j < t.trail.len()
                    implies t.trail[j] != g.x by {
                assert(j == m);
                let jj = choose|jj: int| 0 <= jj < newl.len() && newl[jj] == g;
                if jj == 0 {
                    assert(t.holding_lit(t.trail[k]) == lits[0]);
                } else if jj == 1 {
                    assert(lits[1].x == w);
                    assert(lits[0].x != w) by {
                        if lits[0].x == w {
                            assert(s.assigns[w.0 as int] != LBool::Undef);
                        }
                    }
                } else {
                    assert(is_false(s.assigns, lits[jj]));
                }
            }
        }
    }
}

/// One instance of `reasons_ordered`: a trail variable at or after position
/// `k` is not the variable of another literal of the reason of `trail[k]`.
pub proof fn lemma_ordered_at(s: EngineState, k: int, c: ClauseId, g: Lit, j: int)
    requires
        s.reasons_ordered(),
        1 <= k <= j < s.trail.len(),
        s.reasons[s.trail[k].0 as int] == Some(c),
        s.clauses[c.0 as int].contains(g),
        g != s.holding_lit(s.trail[k]),
    ensures
        s.trail[j] != g.x,
{
    assert(s.reasons[s.trail[k].0 as int]->Some_0 == c);
}

/// Putting the first entry in hand back into the list of `f` keeps the
/// entries proper, with one fewer in hand.
pub proof fn lemma_restore_proper(s: EngineState, t: EngineState, f: Lit, hand: Seq<ClauseId>)
    requires
        s.watches_proper(f, hand),
        0 <= f.vi() < s.num_vars(),
        s.pos_watches.len() == s.num_vars(),
        s.neg_watches.len() == s.num_vars(),
        hand.len() > 0,
        t == (EngineState { pos_watches: t.pos_watches, neg_watches: t.neg_watches, ..s }),
        f.sign ==> t.pos_watches == s.pos_watches.update(f.vi(), s.pos_watches[f.vi()].push(hand[0]))
            && t.neg_watches == s.neg_watches,
        !f.sign ==> t.neg_watches == s.neg_watches.update(f.vi(), s.neg_watches[f.vi()].push(hand[0]))
            && t.pos_watches == s.pos_watches,
    ensures
        t.watches_proper(f, hand.skip(1)),
{
    assert forall|l: Lit, k: int|
        0 <= l.vi() < t.num_vars() && 0 <= k < t.watch_list(l).len() implies watched_by(
        t.clauses[#[trigger] t.watch_list(l)[k].0 as int],
        l,
    ) by {
        if l == f {
            if k == s.watch_list(l).len() {
                assert(t.watch_list(l)[k] == hand[0]);
            } else {
                assert(t.watch_list(l)[k] == s.watch_list(l)[k]);
            }
        } else {
            if l.vi() == f.vi() {
                assert(l.sign != f.sign);
            }
            assert(t.watch_list(l) == s.watch_list(l));
        }
    }
    assert forall|k: int| 0 <= k < hand.skip(1).len() implies watched_by(
        t.clauses[#[trigger] hand.skip(1)[k].0 as int],
        f,
    ) by {
        assert(hand.skip(1)[k] == hand[k + 1]);
    }
}

/// Proper entries do not depend on the assignment.
pub proof fn lemma_proper_any_assigns(s: EngineState, t: EngineState)
    requires
        s.watch_proper(),
        t.assigns.len() == s.assigns.len(),
        t.clauses == s.clauses,
        t.pos_watches == s.pos_watches,
        t.neg_watches == s.neg_watches,
    ensures
        t.watch_proper(),
{
    assert forall|l: Lit, k: int|
        0 <= l.vi() < t.num_vars() && 0 <= k < t.watch_list(l).len() implies watched_by(
        t.clauses[#[trigger] t.watch_list(l)[k].0 as int],
        l,
    ) by {
        assert(t.watch_list(l) == s.watch_list(l));
    }
}

} // verus!
