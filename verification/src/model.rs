//! The mathematical model of an engine's state and the predicates that the
//! engine's contracts are written in.
use vstd::prelude::*;

use crate::clause::{lits_text, ClauseId};
use crate::text::decimal;
use crate::lbool::LBool;
use crate::lit::Lit;
use crate::var::VarId;

verus! {

/// The abstract state of an `Engine`.
#[verifier::ext_equal]
pub struct EngineState {
    /// Current value of each variable.
    pub assigns: Seq<LBool>,
    /// The clause that forced each variable, if any.
    pub reasons: Seq<Option<ClauseId>>,
    /// Variables assigned since the current decision, in assignment order.
    pub trail: Seq<VarId>,
    /// The decision variable under which each variable was assigned.
    pub decisions: Seq<Option<VarId>>,
    /// The current decision variable.
    pub decision: VarId,
    /// Clauses watching the positive literal of each variable.
    pub pos_watches: Seq<Seq<ClauseId>>,
    /// Clauses watching the negative literal of each variable.
    pub neg_watches: Seq<Seq<ClauseId>>,
    /// The stored clauses (each at least two literals long).
    pub clauses: Seq<Seq<Lit>>,
    /// Variables whose consequences are still to be propagated.
    pub queue: Seq<VarId>,
    /// Variables whose assignments are reported.
    pub listened: Seq<VarId>,
    /// Reported assignments not yet collected.
    pub notifications: Seq<(VarId, LBool)>,
}

/// The value of literal `l` under the assignment `a`.
pub open spec fn lit_value(a: Seq<LBool>, l: Lit) -> LBool {
    match a[l.vi()] {
        LBool::True => LBool::from_bool(l.sign),
        LBool::False => LBool::from_bool(!l.sign),
        LBool::Undef => LBool::Undef,
    }
}

pub open spec fn is_true(a: Seq<LBool>, l: Lit) -> bool {
    lit_value(a, l) == LBool::True
}

pub open spec fn is_false(a: Seq<LBool>, l: Lit) -> bool {
    lit_value(a, l) == LBool::False
}

/// The assignment `a` with `l` made true.
pub open spec fn assign_lit(a: Seq<LBool>, l: Lit) -> Seq<LBool> {
    a.update(l.vi(), LBool::from_bool(l.sign))
}

/// One line `b<i>: <value>` for each variable `i`, in order.
pub open spec fn vars_text(a: Seq<LBool>) -> Seq<char>
    decreases a.len(),
{
    if a.len() == 0 {
        Seq::empty()
    } else {
        vars_text(a.drop_last()) + seq!['b'] + decimal((a.len() - 1) as nat) + seq![':', ' ']
            + a.last().text() + seq!['\n']
    }
}

/// One line per clause, in order.
pub open spec fn clauses_text(cs: Seq<Seq<Lit>>) -> Seq<char>
    decreases cs.len(),
{
    if cs.len() == 0 {
        Seq::empty()
    } else {
        clauses_text(cs.drop_last()) + lits_text(cs.last()) + seq!['\n']
    }
}

/// Some literal of `lits` is true under `a`.
pub open spec fn satisfied(a: Seq<LBool>, lits: Seq<Lit>) -> bool {
    exists|j: int| 0 <= j < lits.len() && is_true(a, #[trigger] lits[j])
}

/// `l` is at one of the two watched positions of `lits`.
pub open spec fn watched_by(lits: Seq<Lit>, l: Lit) -> bool {
    lits[0] == l || lits[1] == l
}

/// Number of occurrences of `c` in `s`.
pub open spec fn occ(s: Seq<ClauseId>, c: ClauseId) -> nat
    decreases s.len(),
{
    if s.len() == 0 {
        0
    } else {
        (if s[0] == c { 1nat } else { 0nat }) + occ(s.skip(1), c)
    }
}

/// How many of the two watched positions of clause `lits` hold a literal of variable `v`.
pub open spec fn watched_count(lits: Seq<Lit>, v: int) -> nat {
    (if lits[0].vi() == v { 1nat } else { 0nat }) + (if lits[1].vi() == v { 1nat } else { 0nat })
}

/// Whether clause `lits` holds a literal of variable `v` that is true under `a`.
pub open spec fn holds_true_on(a: Seq<LBool>, lits: Seq<Lit>, v: VarId) -> bool {
    exists|k: int| 0 <= k < lits.len() && lits[k].x == v && #[trigger] is_true(a, lits[k])
}

/// Whether clause `lits` holds a literal of variable `v`.
pub open spec fn mentions(lits: Seq<Lit>, v: int) -> bool {
    exists|k: int| 0 <= k < lits.len() && #[trigger] lits[k].vi() == v
}

/// Appending `x` adds one occurrence of `x` and none of anything else.
pub proof fn lemma_occ_push(s: Seq<ClauseId>, x: ClauseId, c: ClauseId)
    ensures
        occ(s.push(x), c) == occ(s, c) + (if x == c { 1nat } else { 0nat }),
    decreases s.len(),
{
    if s.len() > 0 {
        assert(s.push(x).skip(1) =~= s.skip(1).push(x));
        lemma_occ_push(s.skip(1), x, c);
    } else {
        assert(s.push(x).skip(1) =~= Seq::<ClauseId>::empty());
        assert(occ(Seq::<ClauseId>::empty(), c) == 0);
    }
}

/// An element occurs at least once.
pub proof fn lemma_occ_pos(s: Seq<ClauseId>, k: int)
    requires
        0 <= k < s.len(),
    ensures
        occ(s, s[k]) >= 1,
    decreases s.len(),
{
    if k > 0 {
        assert(s.skip(1)[k - 1] == s[k]);
        lemma_occ_pos(s.skip(1), k - 1);
    }
}

/// A sequence with no occurrence of `c` does not hold it.
pub proof fn lemma_occ_zero(s: Seq<ClauseId>, c: ClauseId)
    requires
        occ(s, c) == 0,
    ensures
        forall|k: int| 0 <= k < s.len() ==> s[k] != c,
    decreases s.len(),
{
    if s.len() > 0 {
        lemma_occ_zero(s.skip(1), c);
        assert forall|k: int| 0 <= k < s.len() implies s[k] != c by {
            if k > 0 {
                assert(s.skip(1)[k - 1] == s[k]);
            }
        }
    }
}

/// A sequence without `c` holds no occurrence of it.
pub proof fn lemma_occ_absent(s: Seq<ClauseId>, c: ClauseId)
    requires
        forall|k: int| 0 <= k < s.len() ==> s[k] != c,
    ensures
        occ(s, c) == 0,
    decreases s.len(),
{
    if s.len() > 0 {
        lemma_occ_absent(s.skip(1), c);
    }
}

/// Dropping the first `i + 1` elements removes the occurrence at `i`.
pub proof fn lemma_occ_skip(s: Seq<ClauseId>, i: int, c: ClauseId)
    requires
        0 <= i < s.len(),
    ensures
        occ(s.skip(i), c) == (if s[i] == c { 1nat } else { 0nat }) + occ(s.skip(i + 1), c),
{
    assert(s.skip(i).skip(1) =~= s.skip(i + 1));
}

/// The empty sequence holds no occurrence.
pub proof fn lemma_occ_empty(c: ClauseId)
    ensures
        occ(Seq::<ClauseId>::empty(), c) == 0,
{
}

/// `lits` with positions `i` and `j` exchanged.
pub open spec fn swapped(lits: Seq<Lit>, i: int, j: int) -> Seq<Lit> {
    lits.update(i, lits[j]).update(j, lits[i])
}

/// `lits` rearranged so that its first literal is not on variable `v`, when
/// only its first literal was.
pub open spec fn watch_front(lits: Seq<Lit>, v: VarId) -> Seq<Lit> {
    if lits[0].x == v {
        swapped(lits, 0, 1)
    } else {
        lits
    }
}

/// The first position at or after `from` whose literal is not false under `a`
/// (the length of `lits` when there is none).
pub open spec fn first_open(a: Seq<LBool>, lits: Seq<Lit>, from: int) -> int
    decreases lits.len() - from,
{
    if from >= lits.len() {
        lits.len() as int
    } else if !is_false(a, lits[from]) {
        from
    } else {
        first_open(a, lits, from + 1)
    }
}

/// Facts about `first_open`.
pub proof fn lemma_first_open(a: Seq<LBool>, lits: Seq<Lit>, from: int)
    requires
        0 <= from,
    ensures
        from <= first_open(a, lits, from) || first_open(a, lits, from) == lits.len(),
        first_open(a, lits, from) <= lits.len() || from > lits.len(),
        forall|j: int| from <= j < first_open(a, lits, from) ==> is_false(a, #[trigger] lits[j]),
        first_open(a, lits, from) < lits.len() ==> !is_false(a, lits[first_open(a, lits, from)]),
    decreases lits.len() - from,
{
    if from < lits.len() && is_false(a, lits[from]) {
        lemma_first_open(a, lits, from + 1);
    }
}

/// `first_open` is the first position, from `from`, of a literal that is not false.
pub proof fn lemma_first_open_at(a: Seq<LBool>, lits: Seq<Lit>, from: int, i: int)
    requires
        0 <= from <= i <= lits.len(),
        forall|j: int| from <= j < i ==> is_false(a, #[trigger] lits[j]),
        i == lits.len() || !is_false(a, lits[i]),
    ensures
        first_open(a, lits, from) == i,
    decreases i - from,
{
    if from < i {
        lemma_first_open_at(a, lits, from + 1, i);
    }
}

/// A sequence of distinct variables below `n` has at most `n` elements.
pub proof fn lemma_distinct_vars_len(t: Seq<VarId>, n: int)
    requires
        0 <= n,
        t.no_duplicates(),
        forall|k: int| 0 <= k < t.len() ==> #[trigger] t[k].0 < n,
    ensures
        t.len() <= n,
{
    let m = t.map_values(|v: VarId| v.0 as int);
    assert forall|i: int, j: int| 0 <= i < m.len() && 0 <= j < m.len() && i != j implies m[i] != m[j] by {
        assert(t[i] != t[j]);
    }
    assert(m.no_duplicates());
    m.unique_seq_to_set();
    vstd::set_lib::lemma_int_range(0, n);
    assert forall|x: int| m.to_set().contains(x) implies vstd::set_lib::set_int_range(0, n).contains(x) by {
        let k = choose|k: int| 0 <= k < m.len() && m[k] == x;
        assert(t[k].0 < n);
    }
    vstd::set_lib::lemma_len_subset(m.to_set(), vstd::set_lib::set_int_range(0, n));
}

/// How many variables of `t` are marked in `seen`.
pub open spec fn open_count(t: Seq<VarId>, seen: Seq<bool>) -> nat
    decreases t.len(),
{
    if t.len() == 0 {
        0
    } else {
        open_count(t.drop_last(), seen) + (if seen[t.last().0 as int] {
            1nat
        } else {
            0nat
        })
    }
}

/// Nothing marked, nothing counted.
pub proof fn lemma_open_count_unmarked(t: Seq<VarId>, seen: Seq<bool>)
    requires
        forall|k: int| 0 <= k < t.len() ==> !seen[#[trigger] t[k].0 as int],
    ensures
        open_count(t, seen) == 0,
    decreases t.len(),
{
    if t.len() > 0 {
        lemma_open_count_unmarked(t.drop_last(), seen);
    }
}

/// `open_count` is at most the length.
pub proof fn lemma_open_count_le(t: Seq<VarId>, seen: Seq<bool>)
    ensures
        open_count(t, seen) <= t.len(),
    decreases t.len(),
{
    if t.len() > 0 {
        lemma_open_count_le(t.drop_last(), seen);
    }
}

/// A marked variable of `t` makes `open_count` positive.
pub proof fn lemma_open_count_pos(t: Seq<VarId>, seen: Seq<bool>, k: int)
    requires
        0 <= k < t.len(),
        seen[t[k].0 as int],
    ensures
        open_count(t, seen) >= 1,
    decreases t.len(),
{
    if k < t.len() - 1 {
        lemma_open_count_pos(t.drop_last(), seen, k);
    }
}

/// Marking a variable changes `open_count` only through its occurrences in `t`.
pub proof fn lemma_open_count_mark(t: Seq<VarId>, seen: Seq<bool>, v: VarId)
    requires
        0 <= v.0 < seen.len(),
        !seen[v.0 as int],
        t.no_duplicates(),
        forall|k: int| 0 <= k < t.len() ==> #[trigger] t[k].0 < seen.len(),
    ensures
        open_count(t, seen.update(v.0 as int, true)) == open_count(t, seen) + (if t.contains(v) {
            1nat
        } else {
            0nat
        }),
    decreases t.len(),
{
    if t.len() > 0 {
        let u = t.drop_last();
        assert(u.no_duplicates());
        assert(forall|k: int| 0 <= k < u.len() ==> #[trigger] u[k] == t[k]);
        lemma_open_count_mark(u, seen, v);
        let s2 = seen.update(v.0 as int, true);
        assert(t.last().0 < seen.len());
        if t.last() != v {
            assert(t.last().0 != v.0);
            assert(s2[t.last().0 as int] == seen[t.last().0 as int]);
        }
        if t.last() == v {
            assert(!u.contains(v));
        } else {
            assert(t.contains(v) == u.contains(v)) by {
                if t.contains(v) {
                    let k = choose|k: int| 0 <= k < t.len() && t[k] == v;
                    assert(u[k] == v);
                }
            }
        }
    }
}

/// `a` and `b` have the same length and hold the same literals.
pub open spec fn same_literals(a: Seq<Lit>, b: Seq<Lit>) -> bool {
    &&& a.len() == b.len()
    &&& forall|l: Lit| a.contains(l) <==> b.contains(l)
}

/// Exchanging two positions keeps the literals.
pub proof fn lemma_swapped_same(lits: Seq<Lit>, i: int, j: int)
    requires
        0 <= i < lits.len(),
        0 <= j < lits.len(),
    ensures
        same_literals(swapped(lits, i, j), lits),
{
    let t = swapped(lits, i, j);
    assert forall|l: Lit| t.contains(l) <==> lits.contains(l) by {
        if t.contains(l) {
            let k = choose|k: int| 0 <= k < t.len() && t[k] == l;
            if k == i {
                assert(lits[j] == l);
            } else if k == j {
                assert(lits[i] == l);
            } else {
                assert(lits[k] == l);
            }
        }
        if lits.contains(l) {
            let k = choose|k: int| 0 <= k < lits.len() && lits[k] == l;
            if k == i {
                assert(t[j] == l);
            } else if k == j {
                assert(t[i] == l);
            } else {
                assert(t[k] == l);
            }
        }
    }
}

/// The relation between the state `o` at the start of `assert(lit)` and a
/// state `s` reached while propagating it:
/// - the decision is `lit`'s variable, which holds as `lit` says and keeps
///   its reason and decision tag;
/// - every clause keeps its literals (their order may change);
/// - variables assigned in `o` keep their values, and the trail holds exactly
///   the variables that `o` left unassigned and `s` assigns;
/// - the current level is well recorded, each propagated variable's reason
///   clause holds the literal it was set to, and variables off the trail keep
///   their reason and decision;
/// - queued variables were queued in `o` or are on the trail.
pub open spec fn propagating(o: EngineState, lit: Lit, s: EngineState) -> bool {
    let x = lit.x;
    let n = o.num_vars();
    &&& s.num_vars() == n
    &&& s.decision == x
    &&& s.num_clauses() == o.num_clauses()
    &&& forall|c: int| 0 <= c < o.num_clauses() ==> #[trigger] same_literals(s.clauses[c], o.clauses[c])
    &&& s.assigns[x.0 as int] == LBool::from_bool(lit.sign)
    &&& s.reasons[x.0 as int] == o.reasons[x.0 as int]
    &&& s.decisions[x.0 as int] == o.decisions[x.0 as int]
    &&& forall|v: int|
        0 <= v < n && o.assigns[v] != LBool::Undef ==> #[trigger] s.assigns[v] == o.assigns[v]
    &&& forall|v: VarId|
        0 <= v.0 < n ==> (#[trigger] s.trail.contains(v) <==> (o.assigns[v.0 as int] == LBool::Undef
            && s.assigns[v.0 as int] != LBool::Undef))
    &&& s.level_ok()
    &&& forall|v: VarId|
        0 <= v.0 < n && !s.trail.contains(v) ==> #[trigger] s.reasons[v.0 as int] == o.reasons[v.0 as int]
            && s.decisions[v.0 as int] == o.decisions[v.0 as int]
    &&& forall|k: int|
        1 <= k < s.trail.len() ==> (#[trigger] s.reasons[s.trail[k].0 as int] matches Some(c) && c.0
            < s.num_clauses() && s.clauses[c.0 as int].contains(
            Lit { x: s.trail[k], sign: s.assigns[s.trail[k].0 as int] == LBool::True },
        ))
    &&& forall|k: int|
        0 <= k < s.queue.len() ==> o.queue.contains(#[trigger] s.queue[k]) || s.trail.contains(s.queue[k])
    &&& s.listened == o.listened
}

impl EngineState {
    pub open spec fn num_vars(self) -> nat {
        self.assigns.len()
    }

    pub open spec fn num_clauses(self) -> nat {
        self.clauses.len()
    }

    /// The watch list of literal `l`.
    pub open spec fn watch_list(self, l: Lit) -> Seq<ClauseId> {
        if l.sign {
            self.pos_watches[l.vi()]
        } else {
            self.neg_watches[l.vi()]
        }
    }

    /// Entries for clause `c` in the two watch lists of variable `v`, plus those in
    /// `hand` when `v` is `hand_var` (a watch list taken out for processing).
    pub open spec fn entries(self, v: int, c: ClauseId, hand_var: int, hand: Seq<ClauseId>) -> nat {
        occ(self.pos_watches[v], c) + occ(self.neg_watches[v], c) + (if v == hand_var {
            occ(hand, c)
        } else {
            0nat
        })
    }

    /// No clause is registered with a variable more often than the clause watches it.
    pub open spec fn watches_bounded(self, hand_var: int, hand: Seq<ClauseId>) -> bool {
        forall|v: int, c: ClauseId|
            0 <= v < self.num_vars() && 0 <= c.0 < self.num_clauses() ==> #[trigger] self.entries(
                v,
                c,
                hand_var,
                hand,
            ) <= watched_count(self.clauses[c.0 as int], v)
    }

    /// Every stored index is in range, and the per-variable sequences agree in length.
    pub open spec fn shaped(self) -> bool {
        let n = self.num_vars();
        let m = self.num_clauses();
        &&& self.reasons.len() == n
        &&& self.decisions.len() == n
        &&& self.pos_watches.len() == n
        &&& self.neg_watches.len() == n
        &&& forall|c: int|
            0 <= c < m ==> #[trigger] self.clauses[c].len() >= 2 && forall|k: int|
                0 <= k < self.clauses[c].len() ==> #[trigger] self.clauses[c][k].vi() < n
        &&& forall|v: int, k: int|
            0 <= v < n && 0 <= k < self.pos_watches[v].len() ==> #[trigger] self.pos_watches[v][k].0
                < m
        &&& forall|v: int, k: int|
            0 <= v < n && 0 <= k < self.neg_watches[v].len() ==> #[trigger] self.neg_watches[v][k].0
                < m
        &&& forall|v: int|
            0 <= v < n ==> (#[trigger] self.reasons[v] matches Some(c) ==> c.0 < m)
        &&& forall|k: int| 0 <= k < self.trail.len() ==> #[trigger] self.trail[k].0 < n
        &&& forall|k: int| 0 <= k < self.queue.len() ==> #[trigger] self.queue[k].0 < n
    }

    /// An unassigned variable has neither reason nor decision.
    pub open spec fn unassigned_clean(self) -> bool {
        forall|v: int|
            0 <= v < self.num_vars() && #[trigger] self.assigns[v] == LBool::Undef ==> self.reasons[v]
                is None && self.decisions[v] is None
    }

    /// The state of a fresh engine: the reserved variable `0`, assigned true.
    pub open spec fn initial() -> EngineState {
        EngineState {
            assigns: seq![LBool::True],
            reasons: seq![None],
            trail: Seq::empty(),
            decisions: seq![None],
            decision: VarId(usize::MAX),
            pos_watches: seq![Seq::empty()],
            neg_watches: seq![Seq::empty()],
            clauses: Seq::empty(),
            queue: Seq::empty(),
            listened: Seq::empty(),
            notifications: Seq::empty(),
        }
    }

    /// The state with one more, unassigned, variable.
    pub open spec fn with_new_var(self) -> EngineState {
        EngineState {
            assigns: self.assigns.push(LBool::Undef),
            reasons: self.reasons.push(None),
            decisions: self.decisions.push(None),
            pos_watches: self.pos_watches.push(Seq::empty()),
            neg_watches: self.neg_watches.push(Seq::empty()),
            ..self
        }
    }

    /// The state with variable `v` unassigned and its metadata cleared.
    pub open spec fn with_undone(self, v: int) -> EngineState {
        EngineState {
            assigns: self.assigns.update(v, LBool::Undef),
            reasons: self.reasons.update(v, None),
            decisions: self.decisions.update(v, None),
            ..self
        }
    }

    /// Whether `l` is true, or can be made true, under the current assignment.
    pub open spec fn accepts(self, l: Lit) -> bool {
        !is_false(self.assigns, l)
    }

    /// The state after asking for `l` to hold with the given reason: an
    /// unassigned variable is assigned, recorded on the trail and in the queue,
    /// tagged with the current decision when that decision is an assigned
    /// variable (and not the variable itself), and
    /// reported when it is listened to. An assigned variable leaves the state as is.
    pub open spec fn after_enqueue(self, l: Lit, reason: Option<ClauseId>) -> EngineState {
        if self.assigns[l.vi()] == LBool::Undef {
            EngineState {
                assigns: assign_lit(self.assigns, l),
                reasons: self.reasons.update(l.vi(), reason),
                trail: self.trail.push(l.x),
                decisions: if l.x != self.decision && self.decision.0 < self.assigns.len()
                    && self.assigns[self.decision.0 as int] != LBool::Undef {
                    self.decisions.update(l.vi(), Some(self.decision))
                } else {
                    self.decisions
                },
                queue: self.queue.push(l.x),
                notifications: if self.listened.contains(l.x) {
                    self.notifications.push((l.x, LBool::from_bool(l.sign)))
                } else {
                    self.notifications
                },
                ..self
            }
        } else {
            self
        }
    }

    /// Watch bounds depend only on the watch lists and the clauses.
    pub proof fn lemma_watches_frame(self, s: EngineState)
        requires
            self.watches_bounded(-1, Seq::empty()),
            s.assigns.len() == self.assigns.len(),
            s.pos_watches == self.pos_watches,
            s.neg_watches == self.neg_watches,
            s.clauses == self.clauses,
        ensures
            s.watches_bounded(-1, Seq::empty()),
    {
        self.lemma_watches_frame_hand(s, -1, Seq::empty());
    }

    /// Watch bounds depend only on the watch lists, the clauses and the taken-out list.
    pub proof fn lemma_watches_frame_hand(self, s: EngineState, hv: int, hand: Seq<ClauseId>)
        requires
            self.watches_bounded(hv, hand),
            s.assigns.len() == self.assigns.len(),
            s.pos_watches == self.pos_watches,
            s.neg_watches == self.neg_watches,
            s.clauses == self.clauses,
        ensures
            s.watches_bounded(hv, hand),
    {
        assert forall|v: int, c: ClauseId|
            0 <= v < s.num_vars() && 0 <= c.0 < s.num_clauses() implies #[trigger] s.entries(
            v,
            c,
            hv,
            hand,
        ) <= watched_count(s.clauses[c.0 as int], v) by {
            assert(s.entries(v, c, hv, hand) == self.entries(v, c, hv, hand));
        }
    }

    /// Visiting a clause taken from a watch list keeps the invariant, with one
    /// fewer taken-out entry; and the visited clause watches the visited
    /// variable at its second position.
    pub proof fn lemma_visit_wf(self, c: ClauseId, lit: Lit, hand: Seq<ClauseId>)
        requires
            self.wf_with_hand(lit.vi(), hand),
            hand.len() > 0,
            hand[0] == c,
            0 <= lit.vi() < self.num_vars(),
        ensures
            self.after_visit(c, lit).wf_with_hand(lit.vi(), hand.skip(1)),
            watch_front(self.clauses[c.0 as int], lit.x)[1].x == lit.x,
    {
        let w = lit.vi();
        let n = self.num_vars();
        let m = self.num_clauses();
        let ci = c.0 as int;
        let lits = self.clauses[ci];
        let l1 = watch_front(lits, lit.x);
        let i = first_open(self.assigns, l1, 2);
        lemma_first_open(self.assigns, l1, 2);
        assert(c.0 < m);
        assert(lits.len() >= 2);
        assert(occ(hand, c) >= 1);
        assert(self.entries(w, c, w, hand) <= watched_count(lits, w));
        assert(lits[0].vi() == w || lits[1].vi() == w);
        assert(l1[1].x == lit.x);
        let t = self.after_visit(c, lit);
        let target = if is_true(self.assigns, l1[0]) || is_true(self.assigns, l1[1]) {
            lit.negated()
        } else if i < l1.len() {
            l1[i]
        } else {
            lit.negated()
        };
        let newl = if is_true(self.assigns, l1[0]) || is_true(self.assigns, l1[1]) {
            l1
        } else if i < l1.len() {
            swapped(l1, 1, i)
        } else {
            l1
        };
        assert(forall|k: int| 0 <= k < l1.len() ==> #[trigger] l1[k].vi() < n);
        assert(forall|k: int| 0 <= k < newl.len() ==> #[trigger] newl[k].vi() < n);
        assert(t.clauses == self.clauses.update(ci, newl));
        assert(t.pos_watches == self.with_watch(target, c).pos_watches);
        assert(t.neg_watches == self.with_watch(target, c).neg_watches);
        assert(target.vi() < n);
        // shape
        assert forall|v: int, k: int|
            0 <= v < n && 0 <= k < t.pos_watches[v].len() implies #[trigger] t.pos_watches[v][k].0
            < m by {
            if k < self.pos_watches[v].len() {
                assert(t.pos_watches[v][k] == self.pos_watches[v][k] || t.pos_watches[v][k] == c);
            }
        }
        assert forall|v: int, k: int|
            0 <= v < n && 0 <= k < t.neg_watches[v].len() implies #[trigger] t.neg_watches[v][k].0
            < m by {
            if k < self.neg_watches[v].len() {
                assert(t.neg_watches[v][k] == self.neg_watches[v][k] || t.neg_watches[v][k] == c);
            }
        }
        assert forall|cc: int| 0 <= cc < m implies #[trigger] t.clauses[cc].len() >= 2 && forall|k: int|
            0 <= k < t.clauses[cc].len() ==> #[trigger] t.clauses[cc][k].vi() < n by {
            if cc != ci {
                assert(t.clauses[cc] == self.clauses[cc]);
            }
        }
        assert(t.shaped());
        assert(t.unassigned_clean());
        let hs = hand.skip(1);
        assert forall|k: int| 0 <= k < hs.len() implies #[trigger] hs[k].0 < t.num_clauses() by {
            assert(hs[k] == hand[k + 1]);
        }
        assert forall|v: int, cc: ClauseId|
            0 <= v < t.num_vars() && 0 <= cc.0 < t.num_clauses() implies #[trigger] t.entries(
            v,
            cc,
            w,
            hs,
        ) <= watched_count(t.clauses[cc.0 as int], v) by {
            let p0 = self.pos_watches[v];
            let n0 = self.neg_watches[v];
            lemma_occ_push(p0, c, cc);
            lemma_occ_push(n0, c, cc);
            assert(occ(hand, cc) == (if c == cc { 1nat } else { 0nat }) + occ(hs, cc));
            assert(self.entries(v, cc, w, hand) <= watched_count(self.clauses[cc.0 as int], v));
            if target.sign {
                assert(t.neg_watches[v] == n0);
                if v == target.vi() {
                    assert(t.pos_watches[v] == p0.push(c));
                } else {
                    assert(t.pos_watches[v] == p0);
                }
            } else {
                assert(t.pos_watches[v] == p0);
                if v == target.vi() {
                    assert(t.neg_watches[v] == n0.push(c));
                } else {
                    assert(t.neg_watches[v] == n0);
                }
            }
            if cc != c {
                assert(t.clauses[cc.0 as int] == self.clauses[cc.0 as int]);
            } else {
                assert(t.clauses[ci] == newl);
            }
        }
    }

    /// The state with clause `c` added to the watch list of `l`.
    pub open spec fn with_watch(self, l: Lit, c: ClauseId) -> EngineState {
        if l.sign {
            EngineState {
                pos_watches: self.pos_watches.update(l.vi(), self.pos_watches[l.vi()].push(c)),
                ..self
            }
        } else {
            EngineState {
                neg_watches: self.neg_watches.update(l.vi(), self.neg_watches[l.vi()].push(c)),
                ..self
            }
        }
    }

    /// The state with clause `lits` stored last and watched by its first two literals.
    pub open spec fn with_clause(self, lits: Seq<Lit>) -> EngineState {
        let c = ClauseId(self.num_clauses() as usize);
        let w = self.with_watch(lits[0], c).with_watch(lits[1], c);
        EngineState { clauses: self.clauses.push(lits), ..w }
    }

    /// Cutting the whole trail cuts nothing.
    pub proof fn lemma_undone_from_all(self)
        requires
            self.shaped(),
            self.assigns.len() <= usize::MAX,
        ensures
            self.undone_from(self.trail.len() as int) == self,
    {
        let t = self.undone_from(self.trail.len() as int);
        let gone = self.trail.subrange(self.trail.len() as int, self.trail.len() as int);
        assert(gone.len() == 0);
        assert(t.assigns =~= self.assigns);
        assert(t.reasons =~= self.reasons);
        assert(t.decisions =~= self.decisions);
        assert(t.trail =~= self.trail);
        assert(t =~= self);
    }

    /// Undoing the last kept trail variable cuts the trail by one.
    pub proof fn lemma_undone_step(self, j: int)
        requires
            self.shaped(),
            self.assigns.len() <= usize::MAX,
            self.trail.no_duplicates(),
            1 <= j <= self.trail.len(),
        ensures
            ({
                let s = self.undone_from(j);
                let v = self.trail[j - 1];
                EngineState { trail: s.trail.drop_last(), ..s.with_undone(v.0 as int) }
            }) == self.undone_from(j - 1),
    {
        let s = self.undone_from(j);
        let v = self.trail[j - 1];
        let a = EngineState { trail: s.trail.drop_last(), ..s.with_undone(v.0 as int) };
        let b = self.undone_from(j - 1);
        let g1 = self.trail.subrange(j, self.trail.len() as int);
        let g0 = self.trail.subrange(j - 1, self.trail.len() as int);
        assert forall|x: int| 0 <= x < self.assigns.len() implies #[trigger] g0.contains(VarId(x as usize))
            == (g1.contains(VarId(x as usize)) || x == v.0) by {
            if g1.contains(VarId(x as usize)) {
                let k = choose|k: int| 0 <= k < g1.len() && g1[k] == VarId(x as usize);
                assert(g0[k + 1] == g1[k]);
            }
            if x == v.0 {
                assert(g0[0] == v);
                assert(VarId(x as usize) == v);
            }
            if g0.contains(VarId(x as usize)) {
                let k = choose|k: int| 0 <= k < g0.len() && g0[k] == VarId(x as usize);
                if k > 0 {
                    assert(g1[k - 1] == g0[k]);
                }
            }
        }
        assert(a.assigns =~= b.assigns);
        assert(a.reasons =~= b.reasons);
        assert(a.decisions =~= b.decisions);
        assert(a.trail =~= b.trail);
        assert(a =~= b);
    }

    /// A cut of a well-recorded level is a well-recorded level.
    pub proof fn lemma_undone_level(self, j: int)
        requires
            self.shaped(),
            self.assigns.len() <= usize::MAX,
            self.level_ok(),
            1 <= j <= self.trail.len(),
        ensures
            self.undone_from(j).level_ok(),
            self.undone_from(j).shaped(),
            self.undone_from(j).unassigned_clean() || !self.unassigned_clean(),
    {
        let s = self.undone_from(j);
        let gone = self.trail.subrange(j, self.trail.len() as int);
        let kept = self.trail.subrange(0, j);
        assert forall|x: VarId| 0 <= x.0 < self.num_vars() implies (gone.contains(x) ==> !kept.contains(x)) && (
        self.trail.contains(x) == (gone.contains(x) || kept.contains(x))) by {
            assert(VarId(x.0 as usize) == x);
            if gone.contains(x) && kept.contains(x) {
                let k1 = choose|k: int| 0 <= k < gone.len() && gone[k] == x;
                let k2 = choose|k: int| 0 <= k < kept.len() && kept[k] == x;
                assert(self.trail[k1 + j] == self.trail[k2]);
            }
            if self.trail.contains(x) {
                let k = choose|k: int| 0 <= k < self.trail.len() && self.trail[k] == x;
                if k < j {
                    assert(kept[k] == x);
                } else {
                    assert(gone[k - j] == x);
                }
            }
            if gone.contains(x) {
                let k = choose|k: int| 0 <= k < gone.len() && gone[k] == x;
                assert(self.trail[k + j] == x);
            }
            if kept.contains(x) {
                let k = choose|k: int| 0 <= k < kept.len() && kept[k] == x;
                assert(self.trail[k] == x);
            }
        }
        assert(kept.no_duplicates());
        assert forall|k: int| 0 <= k < s.trail.len() implies s.assigns[#[trigger] s.trail[k].0 as int]
            != LBool::Undef by {
            let x = s.trail[k];
            assert(kept[k] == x);
            assert(self.trail[k] == x);
            assert(VarId(x.0 as usize) == x);
            assert(!gone.contains(x));
        }
        assert forall|v: VarId| 0 <= v.0 < s.num_vars() implies (#[trigger] s.decisions[v.0 as int] == Some(
            s.decision,
        ) <==> (s.trail.contains(v) && v != s.decision)) by {
            assert(VarId(v.0 as usize) == v);
        }
        assert forall|k: int| 1 <= k < s.trail.len() implies #[trigger] s.reasons[s.trail[k].0 as int] is Some by {
            let x = s.trail[k];
            assert(self.trail[k] == x);
            assert(VarId(x.0 as usize) == x);
            assert(kept.contains(x));
        }
        assert forall|k: int| 0 <= k < s.trail.len() implies #[trigger] s.trail[k].0 < s.num_vars() by {
            assert(self.trail[k] == s.trail[k]);
        }
        assert(s.shaped());
    }

    /// Storing a clause over known variables keeps the invariant.
    pub proof fn lemma_with_clause_wf(self, lits: Seq<Lit>)
        requires
            self.wf(),
            lits.len() >= 2,
            forall|k: int| 0 <= k < lits.len() ==> #[trigger] lits[k].vi() < self.num_vars(),
            self.num_clauses() <= usize::MAX,
        ensures
            self.with_clause(lits).wf(),
            self.watch_ok() ==> self.with_clause(lits).watch_ok(),
    {
        let s = self.with_clause(lits);
        let nc = ClauseId(self.num_clauses() as usize);
        let n = self.num_vars();
        let m = self.num_clauses();
        assert forall|v: int, k: int|
            0 <= v < n && 0 <= k < s.pos_watches[v].len() implies #[trigger] s.pos_watches[v][k].0
            < s.num_clauses() by {
            if k < self.pos_watches[v].len() {
                assert(s.pos_watches[v][k] == self.pos_watches[v][k] || s.pos_watches[v][k] == nc);
            }
        }
        assert forall|v: int, k: int|
            0 <= v < n && 0 <= k < s.neg_watches[v].len() implies #[trigger] s.neg_watches[v][k].0
            < s.num_clauses() by {
            if k < self.neg_watches[v].len() {
                assert(s.neg_watches[v][k] == self.neg_watches[v][k] || s.neg_watches[v][k] == nc);
            }
        }
        assert(s.shaped());
        if self.watch_ok() {
        assert forall|v: int, c: ClauseId|
            0 <= v < s.num_vars() && 0 <= c.0 < s.num_clauses() implies #[trigger] s.entries(
            v,
            c,
            -1,
            Seq::empty(),
        ) <= watched_count(s.clauses[c.0 as int], v) by {
            assert(self.pos_watches[v].len() >= 0);
            let p0 = self.pos_watches[v];
            let n0 = self.neg_watches[v];
            if c == nc {
                assert forall|k: int| 0 <= k < p0.len() implies p0[k] != c by {
                    assert(self.pos_watches[v][k].0 < m);
                }
                assert forall|k: int| 0 <= k < n0.len() implies n0[k] != c by {
                    assert(self.neg_watches[v][k].0 < m);
                }
                lemma_occ_absent(p0, c);
                lemma_occ_absent(n0, c);
            }
            lemma_occ_push(p0, nc, c);
            lemma_occ_push(n0, nc, c);
            lemma_occ_push(p0.push(nc), nc, c);
            lemma_occ_push(n0.push(nc), nc, c);
            if c != nc {
                assert(s.clauses[c.0 as int] == self.clauses[c.0 as int]);
                assert(self.entries(v, c, -1, Seq::empty()) <= watched_count(self.clauses[c.0 as int], v));
            }
        }
        }
    }

    /// The state with clause `c` replaced by `lits`.
    pub open spec fn with_clause_lits(self, c: ClauseId, lits: Seq<Lit>) -> EngineState {
        EngineState { clauses: self.clauses.update(c.0 as int, lits), ..self }
    }

    /// The state after visiting clause `c` because the literal of `lit`'s
    /// variable opposite to `lit` became false (`lit` is the literal that holds).
    ///
    /// The clause is first arranged so that its first literal is not on that
    /// variable. Then:
    /// - if one of its first two literals is true, the clause is satisfied and
    ///   is registered again with the literal that became false;
    /// - else if a literal beyond the second is not false, the first such one is
    ///   moved to the second position and the clause is registered with it;
    /// - else the clause is registered again with the literal that became false,
    ///   and its first literal is asked to hold, with the clause as reason.
    pub open spec fn after_visit(self, c: ClauseId, lit: Lit) -> EngineState {
        let lits = watch_front(self.clauses[c.0 as int], lit.x);
        let i = first_open(self.assigns, lits, 2);
        if is_true(self.assigns, lits[0]) || is_true(self.assigns, lits[1]) {
            self.with_clause_lits(c, lits).with_watch(lit.negated(), c)
        } else if i < lits.len() {
            self.with_clause_lits(c, swapped(lits, 1, i)).with_watch(lits[i], c)
        } else {
            self.with_clause_lits(c, lits).with_watch(lit.negated(), c).after_enqueue(lits[0], Some(c))
        }
    }

    /// Whether a visit of clause `c` for `lit` leaves the clause satisfiable so far:
    /// false exactly when the clause's first literal had to hold but is false.
    pub open spec fn visit_ok(self, c: ClauseId, lit: Lit) -> bool {
        let lits = watch_front(self.clauses[c.0 as int], lit.x);
        let i = first_open(self.assigns, lits, 2);
        is_true(self.assigns, lits[0]) || is_true(self.assigns, lits[1]) || i < lits.len() || self.accepts(
            lits[0],
        )
    }

    /// The invariant, with the watch list of `hand_var` partly taken out as `hand`.
    pub open spec fn wf_with_hand(self, hand_var: int, hand: Seq<ClauseId>) -> bool {
        &&& self.shaped()
        &&& self.unassigned_clean()
        &&& self.watches_bounded(hand_var, hand)
        &&& forall|k: int| 0 <= k < hand.len() ==> #[trigger] hand[k].0 < self.num_clauses()
    }

    /// The current decision level is well recorded: the trail starts with the
    /// decision variable and holds no variable twice, every trail variable is
    /// assigned, the variables tagged with the decision are exactly the other
    /// trail variables, and each of those has a reason.
    pub open spec fn level_ok(self) -> bool {
        let d = self.decision;
        &&& self.trail.len() >= 1
        &&& self.trail[0] == d
        &&& self.trail.no_duplicates()
        &&& forall|k: int|
            0 <= k < self.trail.len() ==> self.assigns[#[trigger] self.trail[k].0 as int] != LBool::Undef
        &&& forall|v: VarId|
            0 <= v.0 < self.num_vars() ==> (#[trigger] self.decisions[v.0 as int] == Some(d) <==> (
            self.trail.contains(v) && v != d))
        &&& forall|k: int| 1 <= k < self.trail.len() ==> #[trigger] self.reasons[self.trail[k].0 as int] is Some
    }

    /// Clause `c` holds a literal of a variable of the current level.
    pub open spec fn has_open_lit(self, c: int) -> bool {
        exists|k: int| 0 <= k < self.clauses[c].len() && self.trail.contains(#[trigger] self.clauses[c][k].x)
    }

    /// The state with the trail cut to its first `j` variables, the others
    /// unassigned with their metadata cleared.
    pub open spec fn undone_from(self, j: int) -> EngineState {
        let gone = self.trail.subrange(j, self.trail.len() as int);
        EngineState {
            assigns: Seq::new(
                self.assigns.len(),
                |v: int|
                    if gone.contains(VarId(v as usize)) {
                        LBool::Undef
                    } else {
                        self.assigns[v]
                    },
            ),
            reasons: Seq::new(
                self.reasons.len(),
                |v: int|
                    if gone.contains(VarId(v as usize)) {
                        None
                    } else {
                        self.reasons[v]
                    },
            ),
            decisions: Seq::new(
                self.decisions.len(),
                |v: int|
                    if gone.contains(VarId(v as usize)) {
                        None
                    } else {
                        self.decisions[v]
                    },
            ),
            trail: self.trail.subrange(0, j),
            ..self
        }
    }

    /// The state with every trail variable unassigned and the trail emptied.
    pub open spec fn with_level_undone(self) -> EngineState {
        self.undone_from(0)
    }

    /// The state with every decision tag naming `x` removed.
    pub open spec fn without_tags_of(self, x: VarId) -> EngineState {
        EngineState {
            decisions: Seq::new(
                self.decisions.len(),
                |v: int|
                    if self.decisions[v] == Some(x) {
                        None
                    } else {
                        self.decisions[v]
                    },
            ),
            ..self
        }
    }

    /// Every decision tag names a variable that is assigned.
    pub open spec fn tags_live(self) -> bool {
        forall|v: int|
            0 <= v < self.num_vars() ==> (#[trigger] self.decisions[v] matches Some(x) ==> x.0 < self.num_vars()
                && self.assigns[x.0 as int] != LBool::Undef)
    }

    /// No variable is tagged with `x` as its decision.
    pub open spec fn untagged(self, x: VarId) -> bool {
        forall|v: int| 0 <= v < self.num_vars() ==> #[trigger] self.decisions[v] != Some(x)
    }

    /// Every clause that mentions a variable still queued from before, and is
    /// not made true by that variable, keeps a literal on another variable that
    /// is not false: with the queued variables assigned, no clause that
    /// mentions one of them is falsified.
    pub open spec fn queue_ready(self) -> bool {
        forall|c: int, w: VarId|
            0 <= c < self.num_clauses() && self.queue.contains(w) && #[trigger] mentions(
                self.clauses[c],
                w.0 as int,
            ) && !holds_true_on(self.assigns, self.clauses[c], w) ==> exists|k: int|
                0 <= k < self.clauses[c].len() && self.clauses[c][k].x != w && !is_false(
                    self.assigns,
                    #[trigger] self.clauses[c][k],
                )
    }

    /// The state in which `assert(lit)` starts propagating: `lit`'s variable is
    /// the decision, the trail is restarted, and `lit` is asked to hold.
    pub open spec fn decided(self, lit: Lit) -> EngineState {
        EngineState { decision: lit.x, trail: Seq::empty(), ..self }.after_enqueue(lit, None)
    }

    /// The text of the engine: its variables' lines, then its clauses' lines.
    pub open spec fn text(self) -> Seq<char> {
        vars_text(self.assigns) + clauses_text(self.clauses)
    }

    /// Each watch-list entry names a clause that has the list's literal at one
    /// of its two watched positions; so do the entries of `hand`, taken from
    /// the list of `hand_lit`.
    pub open spec fn watches_proper(self, hand_lit: Lit, hand: Seq<ClauseId>) -> bool {
        &&& forall|l: Lit, k: int|
            0 <= l.vi() < self.num_vars() && 0 <= k < self.watch_list(l).len() ==> watched_by(
                self.clauses[#[trigger] self.watch_list(l)[k].0 as int],
                l,
            )
        &&& forall|k: int| 0 <= k < hand.len() ==> watched_by(self.clauses[#[trigger] hand[k].0 as int], hand_lit)
    }

    /// `watches_proper` with nothing taken out.
    pub open spec fn watch_proper(self) -> bool {
        self.watches_proper(Lit { x: VarId(0), sign: true }, Seq::empty())
    }

    /// Every queued variable is assigned.
    pub open spec fn queue_assigned(self) -> bool {
        forall|k: int| 0 <= k < self.queue.len() ==> self.assigns[#[trigger] self.queue[k].0 as int] != LBool::Undef
    }

    /// The literal of variable `v` that holds under the current assignment.
    pub open spec fn holding_lit(self, v: VarId) -> Lit {
        Lit { x: v, sign: self.assigns[v.0 as int] == LBool::True }
    }

    /// Each variable propagated at the current level has a reason clause in
    /// which every literal other than the one it was set to is false.
    pub open spec fn reasons_sound(self) -> bool {
        forall|k: int|
            1 <= k < self.trail.len() ==> (#[trigger] self.reasons[self.trail[k].0 as int] matches Some(c) && c.0
                < self.num_clauses() && forall|l: Lit|
                self.clauses[c.0 as int].contains(l) ==> l == self.holding_lit(self.trail[k]) || is_false(
                    self.assigns,
                    l,
                ))
    }

    /// The reason clause of each variable propagated at the current level holds
    /// the literal that the variable was set to.
    pub open spec fn reasons_hold(self) -> bool {
        forall|k: int|
            #![trigger self.reasons[self.trail[k].0 as int]]
            1 <= k < self.trail.len() ==> (self.reasons[self.trail[k].0 as int] matches Some(c) ==> c.0
                < self.num_clauses() && self.clauses[c.0 as int].contains(self.holding_lit(self.trail[k])))
    }

    /// Each variable propagated at the current level comes after, on the trail,
    /// every trail variable of the other literals of its reason clause.
    pub open spec fn reasons_ordered(self) -> bool {
        forall|k: int|
            #![trigger self.reasons[self.trail[k].0 as int]]
            1 <= k < self.trail.len() ==> (self.reasons[self.trail[k].0 as int] matches Some(c)
                ==> forall|g: Lit, j: int|
                #![trigger self.clauses[c.0 as int].contains(g), self.trail[j]]
                self.clauses[c.0 as int].contains(g) && g != self.holding_lit(self.trail[k]) && k <= j
                    < self.trail.len() ==> self.trail[j] != g.x)
    }

    /// The two-watched-literal invariant, for the unsatisfied clauses whose
    /// literals are pairwise distinct, other than those of `bad`: each of the
    /// two watched literals is registered in its watch list, and is false only
    /// if its variable awaits propagation in the queue. Entries for `hand_lit`
    /// taken out as `hand` count as registered and as awaiting propagation.
    pub open spec fn watches_settled(self, hand_lit: Lit, hand: Seq<ClauseId>, bad: Set<ClauseId>) -> bool {
        forall|c: ClauseId, k: int|
            0 <= c.0 < self.num_clauses() && 0 <= k < 2 && self.clauses[c.0 as int].no_duplicates()
                && !satisfied(self.assigns, self.clauses[c.0 as int]) && !bad.contains(c) ==> {
                let g = #[trigger] self.clauses[c.0 as int][k];
                &&& self.watch_list(g).contains(c) || (g == hand_lit && hand.contains(c))
                &&& is_false(self.assigns, g) && !self.queue.contains(g.x) ==> g == hand_lit && hand.contains(c)
            }
    }

    /// The watch invariant measured against a fixed assignment `a` (the one
    /// before a decision): for the clauses with pairwise distinct literals not
    /// satisfied under `a`, each of the two watched literals is registered in
    /// its watch list (or, for `hand_lit`, held in `hand`) and is not false
    /// under `a`.
    pub open spec fn watches_kept(self, a: Seq<LBool>, hand_lit: Lit, hand: Seq<ClauseId>) -> bool {
        forall|c: ClauseId, k: int|
            0 <= c.0 < self.num_clauses() && 0 <= k < 2 && self.clauses[c.0 as int].no_duplicates()
                && !satisfied(a, self.clauses[c.0 as int]) ==> {
                let g = #[trigger] self.clauses[c.0 as int][k];
                &&& self.watch_list(g).contains(c) || (g == hand_lit && hand.contains(c))
                &&& !is_false(a, g)
            }
    }

    /// `watches_settled` with nothing taken out, for the clauses outside `bad`.
    pub open spec fn settled_except(self, bad: Set<ClauseId>) -> bool {
        self.watches_settled(Lit { x: VarId(0), sign: true }, Seq::empty(), bad)
    }

    /// `watches_settled` with nothing taken out, for every clause.
    pub open spec fn watch_settled(self) -> bool {
        self.settled_except(Set::empty())
    }

    /// The clauses for which the watch invariant fails: unsatisfied clauses
    /// with pairwise distinct literals, one of whose first two literals is not
    /// registered in its watch list, or is false while its variable is not
    /// queued (a clause stored with a watched literal already false, say).
    pub open spec fn unsettled(self) -> Set<ClauseId> {
        Set::new(
            |c: ClauseId|
                exists|k: int|
                    0 <= c.0 < self.num_clauses() && 0 <= k < 2 && self.clauses[c.0 as int].no_duplicates()
                        && !satisfied(self.assigns, self.clauses[c.0 as int]) && !{
                        let g = #[trigger] self.clauses[c.0 as int][k];
                        &&& self.watch_list(g).contains(c)
                        &&& is_false(self.assigns, g) ==> self.queue.contains(g.x)
                    },
        )
    }

    /// A clause may be stored without breaking `watch_settled`: its first two
    /// literals are false only if their variable is queued, unless the clause
    /// is satisfied.
    pub open spec fn settles(self, lits: Seq<Lit>) -> bool {
        satisfied(self.assigns, lits) || forall|k: int|
            0 <= k < 2 ==> (is_false(self.assigns, #[trigger] lits[k]) ==> self.queue.contains(lits[k].x))
    }

    /// The engine's invariant.
    pub open spec fn wf(self) -> bool {
        &&& self.shaped()
        &&& self.unassigned_clean()
    }

    /// Every watch-list entry is accounted for by a watched position of its clause.
    pub open spec fn watch_ok(self) -> bool {
        self.watches_bounded(-1, Seq::empty())
    }
}

} // verus!
