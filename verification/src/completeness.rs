//! Completeness of propagation: with the two-watched-literal invariant in
//! place, an accepted `Engine::assert_lit` leaves no unsatisfied clause (with
//! pairwise distinct literals) with a false watched literal.
use vstd::prelude::*;

use crate::clause::ClauseId;
use crate::lbool::LBool;
use crate::lit::Lit;
use crate::model::{
    first_open, is_false, is_true, lemma_first_open, lemma_swapped_same, satisfied, swapped,
    watch_front, watched_by, EngineState,
};
use crate::propagation::lemma_watch_front_same;
use crate::var::VarId;

verus! {

/// Truth only grows when the assignment grows.
pub proof fn lemma_satisfied_grows(a: Seq<LBool>, b: Seq<LBool>, lits: Seq<Lit>)
    requires
        satisfied(a, lits),
        a.len() == b.len(),
        forall|k: int| 0 <= k < lits.len() ==> #[trigger] lits[k].vi() < a.len(),
        forall|v: int| 0 <= v < a.len() && a[v] != LBool::Undef ==> #[trigger] b[v] == a[v],
    ensures
        satisfied(b, lits),
{
    let j = choose|j: int| 0 <= j < lits.len() && is_true(a, #[trigger] lits[j]);
    assert(b[lits[j].vi()] == a[lits[j].vi()]);
    assert(is_true(b, lits[j]));
}

/// Asking for a literal to hold keeps the invariant: a variable that it
/// assigns is queued.
pub proof fn lemma_enqueue_complete(o: EngineState, lit: Lit, reason: Option<ClauseId>, bad: Set<ClauseId>)
    requires
        o.wf(),
        o.settled_except(bad),
        0 <= lit.vi() < o.num_vars(),
    ensures
        o.after_enqueue(lit, reason).settled_except(bad),
{
    let s = o.after_enqueue(lit, reason);
    let h = Lit { x: VarId(0), sign: true };
    if o.assigns[lit.vi()] == LBool::Undef {
        assert forall|c: ClauseId, k: int|
            0 <= c.0 < s.num_clauses() && 0 <= k < 2 && s.clauses[c.0 as int].no_duplicates()
                && !satisfied(s.assigns, s.clauses[c.0 as int]) && !bad.contains(c) implies ({
            let g = #[trigger] s.clauses[c.0 as int][k];
            &&& s.watch_list(g).contains(c) || (g == h && Seq::<ClauseId>::empty().contains(c))
            &&& is_false(s.assigns, g) && !s.queue.contains(g.x) ==> g == h && Seq::<
                ClauseId,
            >::empty().contains(c)
        }) by {
            let lits = o.clauses[c.0 as int];
            let g = lits[k];
            if satisfied(o.assigns, lits) {
                lemma_satisfied_grows(o.assigns, s.assigns, lits);
            }
            assert(s.watch_list(g) == o.watch_list(g));
            if is_false(s.assigns, g) && g.x != lit.x {
                assert(g.x.0 != lit.x.0);
                assert(is_false(o.assigns, g));
                assert(o.queue.contains(g.x));
                let j = choose|j: int| 0 <= j < o.queue.len() && o.queue[j] == g.x;
                assert(s.queue[j] == g.x);
            }
            if g.x == lit.x {
                assert(s.queue[s.queue.len() - 1] == lit.x);
            }
        }
    }
}

/// Deciding a literal keeps the invariant: the decided variable is queued.
pub proof fn lemma_start_complete(o: EngineState, lit: Lit, bad: Set<ClauseId>)
    requires
        o.wf(),
        o.settled_except(bad),
        0 <= lit.vi() < o.num_vars(),
    ensures
        o.decided(lit).settled_except(bad),
{
    let p = EngineState { decision: lit.x, trail: Seq::empty(), ..o };
    lemma_enqueue_complete(p, lit, None, bad);
}

/// Popping the queue's first variable `w` (assigned) and taking out the
/// watch list of its false literal `f` keeps the invariant, with the taken
/// list in hand.
pub proof fn lemma_take_complete(s: EngineState, t: EngineState, f: Lit, hand: Seq<ClauseId>, bad: Set<ClauseId>)
    requires
        s.wf(),
        s.settled_except(bad),
        s.queue.len() > 0,
        s.queue[0] == f.x,
        0 <= f.vi() < s.num_vars(),
        is_false(s.assigns, f),
        hand == s.watch_list(f),
        t == (EngineState {
            pos_watches: t.pos_watches,
            neg_watches: t.neg_watches,
            queue: s.queue.subrange(1, s.queue.len() as int),
            ..s
        }),
        f.sign ==> t.pos_watches == s.pos_watches.update(f.vi(), Seq::empty()) && t.neg_watches
            == s.neg_watches,
        !f.sign ==> t.neg_watches == s.neg_watches.update(f.vi(), Seq::empty()) && t.pos_watches
            == s.pos_watches,
    ensures
        t.watches_settled(f, hand, bad),
{
    let h = Lit { x: VarId(0), sign: true };
    assert forall|c: ClauseId, k: int|
        0 <= c.0 < t.num_clauses() && 0 <= k < 2 && t.clauses[c.0 as int].no_duplicates() && !satisfied(
            t.assigns,
            t.clauses[c.0 as int],
        ) && !bad.contains(c) implies ({
        let g = #[trigger] t.clauses[c.0 as int][k];
        &&& t.watch_list(g).contains(c) || (g == f && hand.contains(c))
        &&& is_false(t.assigns, g) && !t.queue.contains(g.x) ==> g == f && hand.contains(c)
    }) by {
        let g = s.clauses[c.0 as int][k];
        assert(s.watch_list(g).contains(c) || (g == h && Seq::<ClauseId>::empty().contains(c)));
        if g != f {
            if g.vi() == f.vi() {
                assert(g.sign != f.sign);
            }
            assert(t.watch_list(g) == s.watch_list(g));
        }
        if is_false(t.assigns, g) && !t.queue.contains(g.x) {
            if !s.queue.contains(g.x) {
                assert(g == h && Seq::<ClauseId>::empty().contains(c));
            }
            let j = choose|j: int| 0 <= j < s.queue.len() && s.queue[j] == g.x;
            if j > 0 {
                assert(t.queue[j - 1] == g.x);
            }
            assert(g.x == f.x);
            assert(g == f);
        }
    }
}

/// With nothing left in hand, the invariant with a hand is the invariant.
pub proof fn lemma_hand_done_complete(t: EngineState, f: Lit, bad: Set<ClauseId>)
    requires
        t.watches_settled(f, Seq::empty(), bad),
    ensures
        t.settled_except(bad),
{
}

/// Visiting a clause for the true literal `l` keeps the invariant with one
/// fewer entry in hand, unless the visit finds the clause falsified.
pub proof fn lemma_visit_complete(s: EngineState, c: ClauseId, l: Lit, hand: Seq<ClauseId>, bad: Set<ClauseId>)
    requires
        s.wf_with_hand(l.vi(), hand),
        hand.len() > 0,
        hand[0] == c,
        0 <= l.vi() < s.num_vars(),
        is_true(s.assigns, l),
        s.watches_settled(l.negated(), hand, bad),
        s.visit_ok(c, l),
    ensures
        s.after_visit(c, l).watches_settled(l.negated(), hand.skip(1), bad),
{
    s.lemma_visit_wf(c, l, hand);
    let n = s.num_vars();
    let f = l.negated();
    let w = l.x;
    let ci = c.0 as int;
    let ol = s.clauses[ci];
    let lits = watch_front(ol, w);
    let i = first_open(s.assigns, lits, 2);
    lemma_first_open(s.assigns, lits, 2);
    lemma_watch_front_same(ol, w);
    let t = s.after_visit(c, l);
    let hs = hand.skip(1);
    assert(c.0 < s.num_clauses());
    let lazy = is_true(s.assigns, lits[0]) || is_true(s.assigns, lits[1]);
    let repl = !lazy && i < lits.len();
    let newl = if lazy {
        lits
    } else if repl {
        swapped(lits, 1, i)
    } else {
        lits
    };
    let target = if lazy {
        f
    } else if repl {
        lits[i]
    } else {
        f
    };
    if repl {
        lemma_swapped_same(lits, 1, i);
    }
    assert(t.clauses == s.clauses.update(ci, newl));
    assert(t.pos_watches == s.with_watch(target, c).pos_watches);
    assert(t.neg_watches == s.with_watch(target, c).neg_watches);
    assert(forall|g: Lit| g.x == w ==> g == f || g == l);
    assert(forall|v: int| 0 <= v < n && s.assigns[v] != LBool::Undef ==> #[trigger] t.assigns[v] == s.assigns[v]);
    assert(t.assigns.len() == n);
    // In the unit case the first literal now holds.
    if !lazy && !repl {
        assert(!is_false(s.assigns, lits[0]));
        assert(is_true(t.assigns, lits[0]));
    }
    assert forall|cc: ClauseId, k: int|
        0 <= cc.0 < t.num_clauses() && 0 <= k < 2 && t.clauses[cc.0 as int].no_duplicates() && !satisfied(
            t.assigns,
            t.clauses[cc.0 as int],
        ) && !bad.contains(cc) implies ({
        let g = #[trigger] t.clauses[cc.0 as int][k];
        &&& t.watch_list(g).contains(cc) || (g == f && hs.contains(cc))
        &&& is_false(t.assigns, g) && !t.queue.contains(g.x) ==> g == f && hs.contains(cc)
    }) by {
        let tl = t.clauses[cc.0 as int];
        let sl = s.clauses[cc.0 as int];
        let g = tl[k];
        assert(forall|j: int| 0 <= j < sl.len() ==> #[trigger] sl[j].vi() < n);
        // a clause satisfied before stays satisfied
        if cc == c {
            assert(tl == newl);
            if satisfied(s.assigns, ol) {
                let j = choose|j: int| 0 <= j < ol.len() && is_true(s.assigns, #[trigger] ol[j]);
                assert(ol.contains(ol[j]));
                assert(newl.contains(ol[j]));
                let j2 = choose|j2: int| 0 <= j2 < newl.len() && newl[j2] == ol[j];
                assert(t.assigns[ol[j].vi()] == s.assigns[ol[j].vi()]);
                assert(is_true(t.assigns, newl[j2]));
            }
            if lazy {
                assert(t.assigns[lits[0].vi()] == s.assigns[lits[0].vi()]);
                assert(is_true(t.assigns, newl[0]));
            }
            if !lazy && !repl {
                assert(is_true(t.assigns, newl[0]));
            }
            assert(!satisfied(s.assigns, ol));
            assert(repl);
            // not satisfied: the second watched literal was the false one
            assert(lits[1] == f) by {
                if lits[1] == l {
                    assert(ol.contains(l));
                    let j = choose|j: int| 0 <= j < ol.len() && ol[j] == l;
                }
            }
            assert(ol.no_duplicates()) by {
                assert forall|a: int, b: int| 0 <= a < ol.len() && 0 <= b < ol.len() && a != b implies ol[a]
                    != ol[b] by {
                    assert(ol.contains(ol[a]) && ol.contains(ol[b]));
                    assert(newl.contains(ol[a]));
                    assert(newl.contains(ol[b]));
                    if ol[a] == ol[b] {
                        // two positions of `ol` with one literal: `newl` has one fewer distinct
                        // literal than positions, a contradiction with its having none repeated.
                        lemma_dup_transfers(ol, newl, a, b);
                    }
                }
            }
            assert(lits[0] != lits[1]);
            assert(lits[0] != f);
            let p0 = if ol[0] == lits[0] {
                0int
            } else {
                1int
            };
            assert(ol[p0] == lits[0]);
            assert(s.clauses[ci][p0] == lits[0]);
            assert(s.watch_list(lits[0]).contains(c) || (lits[0] == f && hand.contains(c)));
            if k == 0 {
                assert(g == lits[0]);
                let j = choose|j: int| 0 <= j < s.watch_list(g).len() && s.watch_list(g)[j] == c;
                assert(t.watch_list(g)[j] == c);
                if is_false(t.assigns, g) && !t.queue.contains(g.x) {
                    assert(is_false(s.assigns, g)) by {
                        assert(t.assigns[g.vi()] == s.assigns[g.vi()]);
                    }
                    assert(!s.queue.contains(g.x)) by {
                        if s.queue.contains(g.x) {
                            let j = choose|j: int| 0 <= j < s.queue.len() && s.queue[j] == g.x;
                            assert(t.queue[j] == g.x);
                        }
                    }
                    assert(lits[0] == f && hand.contains(c));
                }
            } else {
                assert(g == lits[i]);
                assert(g == target);
                assert(t.watch_list(g)[t.watch_list(g).len() - 1] == c);
                assert(!is_false(s.assigns, g));
                assert(t.assigns[g.vi()] == s.assigns[g.vi()]);
            }
        } else {
            assert(tl == sl);
            if satisfied(s.assigns, sl) {
                lemma_satisfied_grows(s.assigns, t.assigns, sl);
            }
            assert(s.watch_list(g).contains(cc) || (g == f && hand.contains(cc)));
            if s.watch_list(g).contains(cc) {
                let j = choose|j: int| 0 <= j < s.watch_list(g).len() && s.watch_list(g)[j] == cc;
                assert(t.watch_list(g)[j] == cc);
            } else {
                let j = choose|j: int| 0 <= j < hand.len() && hand[j] == cc;
                assert(j != 0);
                assert(hs[j - 1] == cc);
            }
            if is_false(t.assigns, g) && !t.queue.contains(g.x) {
                assert(g.vi() < n);
                if s.assigns[g.vi()] == LBool::Undef {
                    // newly assigned: the visited clause's first literal, now queued
                    assert(g.x == lits[0].x);
                    assert(t.queue[t.queue.len() - 1] == g.x);
                }
                assert(is_false(s.assigns, g));
                assert(!s.queue.contains(g.x)) by {
                    if s.queue.contains(g.x) {
                        let j = choose|j: int| 0 <= j < s.queue.len() && s.queue[j] == g.x;
                        assert(t.queue[j] == g.x);
                    }
                }
                assert(g == f && hand.contains(cc));
                let j = choose|j: int| 0 <= j < hand.len() && hand[j] == cc;
                assert(j != 0);
                assert(hs[j - 1] == cc);
            }
        }
    }
}

/// A settled state with nothing queued keeps its watches against its own
/// assignment.
pub proof fn lemma_kept_start(o: EngineState, s: EngineState)
    requires
        o.watch_settled(),
        o.queue.len() == 0,
        s.clauses == o.clauses,
        s.pos_watches == o.pos_watches,
        s.neg_watches == o.neg_watches,
    ensures
        s.watches_kept(o.assigns, Lit { x: VarId(0), sign: true }, Seq::empty()),
{
    let h = Lit { x: VarId(0), sign: true };
    assert forall|c: ClauseId, k: int|
        0 <= c.0 < s.num_clauses() && 0 <= k < 2 && s.clauses[c.0 as int].no_duplicates() && !satisfied(
            o.assigns,
            s.clauses[c.0 as int],
        ) implies ({
        let g = #[trigger] s.clauses[c.0 as int][k];
        &&& s.watch_list(g).contains(c) || (g == h && Seq::<ClauseId>::empty().contains(c))
        &&& !is_false(o.assigns, g)
    }) by {
        let g = o.clauses[c.0 as int][k];
        assert(!Set::<ClauseId>::empty().contains(c));
        assert(o.watch_list(g).contains(c));
        assert(s.watch_list(g) == o.watch_list(g));
        if is_false(o.assigns, g) {
            assert(o.queue.contains(g.x));
        }
    }
}

/// Watch lists that only grow keep the watches, and entries in hand may be
/// moved back into the list they were taken from.
pub proof fn lemma_kept_grow(
    s: EngineState,
    t: EngineState,
    a: Seq<LBool>,
    hl: Lit,
    hand: Seq<ClauseId>,
    hl2: Lit,
    hand2: Seq<ClauseId>,
)
    requires
        s.shaped(),
        s.watches_kept(a, hl, hand),
        t.clauses == s.clauses,
        forall|g: Lit, c: ClauseId|
            0 <= g.vi() < s.num_vars() && s.watch_list(g).contains(c) ==> #[trigger] t.watch_list(g).contains(c),
        forall|c: ClauseId| hand.contains(c) ==> t.watch_list(hl).contains(c) || (hl2 == hl && hand2.contains(c)),
    ensures
        t.watches_kept(a, hl2, hand2),
{
    assert forall|c: ClauseId, k: int|
        0 <= c.0 < t.num_clauses() && 0 <= k < 2 && t.clauses[c.0 as int].no_duplicates() && !satisfied(
            a,
            t.clauses[c.0 as int],
        ) implies ({
        let g = #[trigger] t.clauses[c.0 as int][k];
        &&& t.watch_list(g).contains(c) || (g == hl2 && hand2.contains(c))
        &&& !is_false(a, g)
    }) by {
        let g = s.clauses[c.0 as int][k];
        assert(g.vi() < s.num_vars());
        if s.watch_list(g).contains(c) {
            assert(t.watch_list(g).contains(c));
        } else {
            assert(g == hl && hand.contains(c));
        }
    }
}

/// Putting the first entry in hand back into the list of `f` keeps the watches.
pub proof fn lemma_restore_kept(s: EngineState, t: EngineState, a: Seq<LBool>, f: Lit, hand: Seq<ClauseId>)
    requires
        s.shaped(),
        s.watches_kept(a, f, hand),
        hand.len() > 0,
        0 <= f.vi() < s.num_vars(),
        t.clauses == s.clauses,
        f.sign ==> t.pos_watches == s.pos_watches.update(f.vi(), s.pos_watches[f.vi()].push(hand[0]))
            && t.neg_watches == s.neg_watches,
        !f.sign ==> t.neg_watches == s.neg_watches.update(f.vi(), s.neg_watches[f.vi()].push(hand[0]))
            && t.pos_watches == s.pos_watches,
    ensures
        t.watches_kept(a, f, hand.skip(1)),
{
    assert forall|g: Lit, c: ClauseId| 0 <= g.vi() < s.num_vars() && s.watch_list(g).contains(c) implies #[trigger] t.watch_list(
        g,
    ).contains(c) by {
        let j = choose|j: int| 0 <= j < s.watch_list(g).len() && s.watch_list(g)[j] == c;
        assert(t.watch_list(g)[j] == c);
    }
    assert(t.watch_list(f)[t.watch_list(f).len() - 1] == hand[0]);
    assert forall|c: ClauseId| hand.contains(c) implies t.watch_list(f).contains(c) || (f == f && hand.skip(1).contains(c)) by {
        let j = choose|j: int| 0 <= j < hand.len() && hand[j] == c;
        if j > 0 {
            assert(hand.skip(1)[j - 1] == c);
        }
    }
    lemma_kept_grow(s, t, a, f, hand, f, hand.skip(1));
}

/// Popping the queue's first variable and taking out the watch list of its
/// false literal `f` keeps the watches, with the taken list in hand.
pub proof fn lemma_take_kept(s: EngineState, t: EngineState, a: Seq<LBool>, f: Lit, hand: Seq<ClauseId>)
    requires
        s.wf(),
        s.watches_kept(a, Lit { x: VarId(0), sign: true }, Seq::empty()),
        0 <= f.vi() < s.num_vars(),
        hand == s.watch_list(f),
        t.clauses == s.clauses,
        f.sign ==> t.pos_watches == s.pos_watches.update(f.vi(), Seq::empty()) && t.neg_watches
            == s.neg_watches,
        !f.sign ==> t.neg_watches == s.neg_watches.update(f.vi(), Seq::empty()) && t.pos_watches
            == s.pos_watches,
    ensures
        t.watches_kept(a, f, hand),
{
    let h = Lit { x: VarId(0), sign: true };
    assert forall|c: ClauseId, k: int|
        0 <= c.0 < t.num_clauses() && 0 <= k < 2 && t.clauses[c.0 as int].no_duplicates() && !satisfied(
            a,
            t.clauses[c.0 as int],
        ) implies ({
        let g = #[trigger] t.clauses[c.0 as int][k];
        &&& t.watch_list(g).contains(c) || (g == f && hand.contains(c))
        &&& !is_false(a, g)
    }) by {
        let g = s.clauses[c.0 as int][k];
        assert(s.watch_list(g).contains(c) || (g == h && Seq::<ClauseId>::empty().contains(c)));
        if g != f {
            if g.vi() == f.vi() {
                assert(g.sign != f.sign);
            }
            assert(t.watch_list(g) == s.watch_list(g));
        }
    }
}

/// Visiting a clause for the true literal `l`, whose opposite `f` was
/// unassigned under `a`, keeps the watches with one fewer entry in hand: the
/// clause is registered again with `f`, or with a literal that is not false.
pub proof fn lemma_visit_kept(s: EngineState, a: Seq<LBool>, c: ClauseId, l: Lit, hand: Seq<ClauseId>)
    requires
        s.wf_with_hand(l.vi(), hand),
        hand.len() > 0,
        hand[0] == c,
        0 <= l.vi() < s.num_vars(),
        is_true(s.assigns, l),
        a.len() == s.assigns.len(),
        a[l.vi()] == LBool::Undef,
        forall|v: int| 0 <= v < a.len() && a[v] != LBool::Undef ==> #[trigger] s.assigns[v] == a[v],
        s.watches_proper(l.negated(), hand),
        s.watches_kept(a, l.negated(), hand),
    ensures
        s.after_visit(c, l).watches_kept(a, l.negated(), hand.skip(1)),
{
    s.lemma_visit_wf(c, l, hand);
    let f = l.negated();
    let w = l.x;
    let ci = c.0 as int;
    let ol = s.clauses[ci];
    let lits = watch_front(ol, w);
    let i = first_open(s.assigns, lits, 2);
    lemma_first_open(s.assigns, lits, 2);
    lemma_watch_front_same(ol, w);
    let t = s.after_visit(c, l);
    let hs = hand.skip(1);
    assert(c.0 < s.num_clauses());
    assert(watched_by(ol, f));
    let lazy = is_true(s.assigns, lits[0]) || is_true(s.assigns, lits[1]);
    let repl = !lazy && i < lits.len();
    let newl = if repl {
        swapped(lits, 1, i)
    } else {
        lits
    };
    let target = if repl {
        lits[i]
    } else {
        f
    };
    if repl {
        lemma_swapped_same(lits, 1, i);
    }
    assert(t.clauses == s.clauses.update(ci, newl));
    assert(t.pos_watches == s.with_watch(target, c).pos_watches);
    assert(t.neg_watches == s.with_watch(target, c).neg_watches);
    // Lists only grow, and `target`'s list gains the clause.
    assert forall|g: Lit, cc: ClauseId| 0 <= g.vi() < s.num_vars() && s.watch_list(g).contains(cc) implies #[trigger] t.watch_list(
        g,
    ).contains(cc) by {
        let j = choose|j: int| 0 <= j < s.watch_list(g).len() && s.watch_list(g)[j] == cc;
        assert(t.watch_list(g)[j] == cc);
    }
    assert(t.watch_list(target)[t.watch_list(target).len() - 1] == c);
    assert(t.watch_list(target).contains(c));
    // The first two positions of `lits` are those of `ol`.
    assert(lits[0] == ol[0] || lits[0] == ol[1]);
    assert(lits[1] == ol[0] || lits[1] == ol[1]);
    assert forall|cc: ClauseId, k: int|
        0 <= cc.0 < t.num_clauses() && 0 <= k < 2 && t.clauses[cc.0 as int].no_duplicates() && !satisfied(
            a,
            t.clauses[cc.0 as int],
        ) implies ({
        let g = #[trigger] t.clauses[cc.0 as int][k];
        &&& t.watch_list(g).contains(cc) || (g == f && hs.contains(cc))
        &&& !is_false(a, g)
    }) by {
        let tl = t.clauses[cc.0 as int];
        let g = tl[k];
        if cc == c {
            assert(tl == newl);
            assert(ol.no_duplicates()) by {
                assert forall|x: int, y: int| 0 <= x < ol.len() && 0 <= y < ol.len() && x != y implies ol[x]
                    != ol[y] by {
                    assert(ol.contains(ol[x]) && ol.contains(ol[y]));
                    if ol[x] == ol[y] {
                        lemma_dup_transfers(ol, newl, x, y);
                    }
                }
            }
            assert(!satisfied(a, ol)) by {
                if satisfied(a, ol) {
                    let j = choose|j: int| 0 <= j < ol.len() && is_true(a, #[trigger] ol[j]);
                    assert(ol.contains(ol[j]));
                    assert(newl.contains(ol[j]));
                    let j2 = choose|j2: int| 0 <= j2 < newl.len() && newl[j2] == ol[j];
                    assert(is_true(a, newl[j2]));
                }
            }
            // the facts for the two watched positions of `ol`
            let g0 = s.clauses[ci][0];
            let g1 = s.clauses[ci][1];
            assert(s.watch_list(g0).contains(c) || (g0 == f && hand.contains(c)));
            assert(s.watch_list(g1).contains(c) || (g1 == f && hand.contains(c)));
            assert(!is_false(a, g0) && !is_false(a, g1));
            assert(g0.vi() < s.num_vars() && g1.vi() < s.num_vars());
            if repl && k == 1 {
                assert(g == lits[i]);
                assert(!is_false(s.assigns, g));
                assert(g.vi() < s.num_vars());
                if a[g.vi()] != LBool::Undef {
                    assert(s.assigns[g.vi()] == a[g.vi()]);
                }
            } else {
                assert(g == lits[0] || g == lits[1]);
                if repl {
                    assert(k == 0);
                    assert(g == lits[0]);
                    assert(lits[0] != f) by {
                        if lits[0] == f {
                            assert(lits[1].x == w);
                            assert(lits[1] != f);
                            assert(lits[1] == l);
                        }
                    }
                }
                if g != f {
                    assert(s.watch_list(g).contains(c));
                }
            }
        } else {
            assert(tl == s.clauses[cc.0 as int]);
            assert(0 <= cc.0 < s.num_clauses());
            assert(s.clauses[cc.0 as int].len() >= 2);
            let g = s.clauses[cc.0 as int][k];
            assert(g.vi() < s.num_vars());
            if s.watch_list(g).contains(cc) {
            } else {
                assert(g == f && hand.contains(cc));
                let j = choose|j: int| 0 <= j < hand.len() && hand[j] == cc;
                assert(j != 0);
                assert(hs[j - 1] == cc);
            }
        }
    }
}

/// With nothing in hand, the watches kept against `a` give the watch
/// invariant of a state whose assignment is `a` and whose queue is empty.
pub proof fn lemma_kept_settled(t: EngineState, hl: Lit)
    requires
        t.watches_kept(t.assigns, hl, Seq::empty()),
        t.queue.len() == 0,
    ensures
        t.watch_settled(),
{
    let h = Lit { x: VarId(0), sign: true };
    assert forall|c: ClauseId, k: int|
        0 <= c.0 < t.num_clauses() && 0 <= k < 2 && t.clauses[c.0 as int].no_duplicates() && !satisfied(
            t.assigns,
            t.clauses[c.0 as int],
        ) && !Set::<ClauseId>::empty().contains(c) implies ({
        let g = #[trigger] t.clauses[c.0 as int][k];
        &&& t.watch_list(g).contains(c) || (g == h && Seq::<ClauseId>::empty().contains(c))
        &&& is_false(t.assigns, g) && !t.queue.contains(g.x) ==> g == h && Seq::<ClauseId>::empty().contains(c)
    }) by {
        let g = t.clauses[c.0 as int][k];
        assert(t.watch_list(g).contains(c) || (g == hl && Seq::<ClauseId>::empty().contains(c)));
    }
}

/// A repeated literal in `a` is repeated in any sequence of the same length
/// with the same literals.
pub proof fn lemma_dup_transfers(a: Seq<Lit>, b: Seq<Lit>, i: int, j: int)
    requires
        0 <= i < a.len(),
        0 <= j < a.len(),
        i != j,
        a[i] == a[j],
        a.len() == b.len(),
        forall|l: Lit| a.contains(l) <==> b.contains(l),
    ensures
        !b.no_duplicates(),
{
    if b.no_duplicates() {
        // `b` has `len` distinct literals, all in `a`; `a` has at most `len - 1`.
        let sa = a.to_set();
        let sb = b.to_set();
        b.unique_seq_to_set();
        assert(sa =~= sb) by {
            assert forall|l: Lit| sa.contains(l) <==> sb.contains(l) by {}
        }
        let a2 = a.remove(j);
        assert(a2.to_set() =~= sa) by {
            assert forall|l: Lit| a2.to_set().contains(l) <==> sa.contains(l) by {
                if sa.contains(l) {
                    let k = choose|k: int| 0 <= k < a.len() && a[k] == l;
                    if k == j {
                        if i < j {
                            assert(a2[i] == l);
                        } else {
                            assert(a2[i - 1] == l);
                        }
                    } else if k < j {
                        assert(a2[k] == l);
                    } else {
                        assert(a2[k - 1] == l);
                    }
                }
                if a2.to_set().contains(l) {
                    let k = choose|k: int| 0 <= k < a2.len() && a2[k] == l;
                    if k < j {
                        assert(a[k] == l);
                    } else {
                        assert(a[k + 1] == l);
                    }
                }
            }
        }
        a2.lemma_cardinality_of_set();
        assert(false);
    }
}

/// Every state is settled outside its unsettled clauses, and a settled state
/// has none.
pub proof fn lemma_unsettled(o: EngineState)
    ensures
        o.settled_except(o.unsettled()),
        o.watch_settled() ==> o.unsettled() == Set::<ClauseId>::empty(),
{
    if o.watch_settled() {
        assert forall|c: ClauseId| !o.unsettled().contains(c) by {
            if o.unsettled().contains(c) {
                let k = choose|k: int|
                    0 <= c.0 < o.num_clauses() && 0 <= k < 2 && o.clauses[c.0 as int].no_duplicates()
                        && !satisfied(o.assigns, o.clauses[c.0 as int]) && !{
                        let g = #[trigger] o.clauses[c.0 as int][k];
                        &&& o.watch_list(g).contains(c)
                        &&& is_false(o.assigns, g) ==> o.queue.contains(g.x)
                    };
                assert(!Set::<ClauseId>::empty().contains(c));
                let g = o.clauses[c.0 as int][k];
                assert(o.watch_list(g).contains(c));
            }
        }
        assert(o.unsettled() =~= Set::<ClauseId>::empty());
    }
}

/// A new, unassigned variable keeps the invariant.
pub proof fn lemma_new_var_complete(o: EngineState)
    requires
        o.wf(),
        o.watch_settled(),
    ensures
        o.with_new_var().watch_settled(),
{
    let s = o.with_new_var();
    let h = Lit { x: VarId(0), sign: true };
    assert forall|c: ClauseId, k: int|
        0 <= c.0 < s.num_clauses() && 0 <= k < 2 && s.clauses[c.0 as int].no_duplicates() && !satisfied(
            s.assigns,
            s.clauses[c.0 as int],
        ) implies ({
        let g = #[trigger] s.clauses[c.0 as int][k];
        &&& s.watch_list(g).contains(c) || (g == h && Seq::<ClauseId>::empty().contains(c))
        &&& is_false(s.assigns, g) && !s.queue.contains(g.x) ==> g == h && Seq::<ClauseId>::empty().contains(c)
    }) by {
        let lits = o.clauses[c.0 as int];
        assert(forall|j: int| 0 <= j < lits.len() ==> #[trigger] lits[j].vi() < o.num_vars());
        if satisfied(o.assigns, lits) {
            let j = choose|j: int| 0 <= j < lits.len() && is_true(o.assigns, #[trigger] lits[j]);
            assert(is_true(s.assigns, lits[j]));
        }
        assert(s.watch_list(lits[k]) == o.watch_list(lits[k]));
    }
}

/// Storing a clause of at least two literals that `settles` keeps the
/// invariant: its first two literals are watched.
pub proof fn lemma_with_clause_complete(o: EngineState, lits: Seq<Lit>)
    requires
        o.wf(),
        o.watch_settled(),
        o.settles(lits),
        lits.len() >= 2,
        forall|k: int| 0 <= k < lits.len() ==> #[trigger] lits[k].vi() < o.num_vars(),
    ensures
        o.with_clause(lits).watch_settled(),
{
    let s = o.with_clause(lits);
    let m = o.num_clauses();
    let h = Lit { x: VarId(0), sign: true };
    let nc = ClauseId(m as usize);
    assert forall|g: Lit, c: ClauseId| 0 <= g.vi() < o.num_vars() && o.watch_list(g).contains(c) implies #[trigger] s.watch_list(g).contains(c) by {
        let j = choose|j: int| 0 <= j < o.watch_list(g).len() && o.watch_list(g)[j] == c;
        let w1 = o.with_watch(lits[0], nc);
        assert(w1.watch_list(g)[j] == c);
        assert(s.watch_list(g)[j] == c);
    }
    assert forall|c: ClauseId, k: int|
        0 <= c.0 < s.num_clauses() && 0 <= k < 2 && s.clauses[c.0 as int].no_duplicates() && !satisfied(
            s.assigns,
            s.clauses[c.0 as int],
        ) implies ({
        let g = #[trigger] s.clauses[c.0 as int][k];
        &&& s.watch_list(g).contains(c) || (g == h && Seq::<ClauseId>::empty().contains(c))
        &&& is_false(s.assigns, g) && !s.queue.contains(g.x) ==> g == h && Seq::<ClauseId>::empty().contains(c)
    }) by {
        if c.0 == m {
            let g = lits[k];
            let w1 = o.with_watch(lits[0], nc);
            if k == 0 {
                assert(w1.watch_list(g)[w1.watch_list(g).len() - 1] == nc);
                let j = w1.watch_list(g).len() - 1;
                assert(s.watch_list(g)[j] == nc);
            } else {
                assert(s.watch_list(g)[s.watch_list(g).len() - 1] == nc);
            }
        } else {
            let g = o.clauses[c.0 as int][k];
            assert(o.clauses[c.0 as int][k].vi() < o.num_vars());
        }
    }
}

/// Recording who is listened to, or handing out the notifications, leaves
/// the invariants about watches and the queue as they are.
pub proof fn lemma_listening_frame(o: EngineState, s: EngineState)
    requires
        s == (EngineState { listened: s.listened, notifications: s.notifications, ..o }),
    ensures
        o.watch_settled() ==> s.watch_settled(),
        o.watch_proper() ==> s.watch_proper(),
        o.queue_assigned() ==> s.queue_assigned(),
{
    assert(forall|l: Lit| #[trigger] s.watch_list(l) == o.watch_list(l));
}

} // verus!
