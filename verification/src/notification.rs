//! What listeners are told: each assignment of a listened variable, in the
//! order of the trail, with the value it was given.
use vstd::prelude::*;

use crate::clause::ClauseId;
use crate::lbool::LBool;
use crate::lit::Lit;
use crate::model::{first_open, is_true, propagating, watch_front, EngineState};
use crate::var::VarId;

verus! {

/// The notifications for the listened variables of `trail`, in trail order,
/// each with its value under `a`.
pub open spec fn notes(trail: Seq<VarId>, a: Seq<LBool>, listened: Seq<VarId>) -> Seq<(VarId, LBool)>
    decreases trail.len(),
{
    if trail.len() == 0 {
        Seq::empty()
    } else {
        let v = trail.last();
        notes(trail.drop_last(), a, listened) + if listened.contains(v) {
            seq![(v, a[v.0 as int])]
        } else {
            Seq::empty()
        }
    }
}

/// The notifications of a trail depend only on the values of its variables.
pub proof fn lemma_notes_frame(trail: Seq<VarId>, a: Seq<LBool>, b: Seq<LBool>, listened: Seq<VarId>)
    requires
        forall|k: int| 0 <= k < trail.len() ==> a[#[trigger] trail[k].0 as int] == b[trail[k].0 as int],
    ensures
        notes(trail, a, listened) == notes(trail, b, listened),
    decreases trail.len(),
{
    if trail.len() > 0 {
        let t = trail.drop_last();
        assert forall|k: int| 0 <= k < t.len() implies a[#[trigger] t[k].0 as int] == b[t[k].0 as int] by {
            assert(t[k] == trail[k]);
        }
        lemma_notes_frame(t, a, b, listened);
        assert(a[trail.last().0 as int] == b[trail.last().0 as int]);
    }
}

/// Each notification of a trail names a listened variable of the trail,
/// with its value.
pub proof fn lemma_notes_members(trail: Seq<VarId>, a: Seq<LBool>, listened: Seq<VarId>)
    ensures
        forall|k: int|
            0 <= k < notes(trail, a, listened).len() ==> {
                let e = #[trigger] notes(trail, a, listened)[k];
                &&& listened.contains(e.0)
                &&& trail.contains(e.0)
                &&& e.1 == a[e.0.0 as int]
            },
    decreases trail.len(),
{
    if trail.len() > 0 {
        let t = trail.drop_last();
        lemma_notes_members(t, a, listened);
        let n = notes(trail, a, listened);
        let m = notes(t, a, listened);
        assert forall|k: int| 0 <= k < n.len() implies {
            let e = #[trigger] n[k];
            &&& listened.contains(e.0)
            &&& trail.contains(e.0)
            &&& e.1 == a[e.0.0 as int]
        } by {
            if k < m.len() {
                assert(n[k] == m[k]);
                let j = choose|j: int| 0 <= j < t.len() && t[j] == m[k].0;
                assert(trail[j] == t[j]);
            } else {
                assert(n[k] == (trail.last(), a[trail.last().0 as int]));
                assert(trail[trail.len() - 1] == trail.last());
            }
        }
    }
}

/// Asking for a literal to hold keeps the notifications in step with the
/// trail, when every trail variable is assigned.
pub proof fn lemma_enqueue_notes(s: EngineState, lit: Lit, reason: Option<ClauseId>, base: Seq<(VarId, LBool)>)
    requires
        0 <= lit.vi() < s.num_vars(),
        s.notifications == base + notes(s.trail, s.assigns, s.listened),
        forall|k: int|
            0 <= k < s.trail.len() ==> #[trigger] s.trail[k].0 < s.num_vars() && s.assigns[s.trail[k].0 as int]
                != LBool::Undef,
    ensures
        ({
            let t = s.after_enqueue(lit, reason);
            t.notifications == base + notes(t.trail, t.assigns, t.listened)
        }),
{
    let t = s.after_enqueue(lit, reason);
    if s.assigns[lit.vi()] == LBool::Undef {
        assert forall|k: int| 0 <= k < s.trail.len() implies s.assigns[#[trigger] s.trail[k].0 as int]
            == t.assigns[s.trail[k].0 as int] by {
            assert(s.trail[k] != lit.x);
        }
        lemma_notes_frame(s.trail, s.assigns, t.assigns, s.listened);
        assert(t.trail.drop_last() == s.trail);
        assert(t.trail.last() == lit.x);
        assert(t.notifications == base + notes(t.trail, t.assigns, t.listened));
    }
}

/// Visiting a clause keeps the notifications in step with the trail, when
/// every trail variable is assigned.
pub proof fn lemma_visit_notes(s: EngineState, c: ClauseId, l: Lit, base: Seq<(VarId, LBool)>)
    requires
        s.shaped(),
        c.0 < s.num_clauses(),
        0 <= l.vi() < s.num_vars(),
        s.notifications == base + notes(s.trail, s.assigns, s.listened),
        forall|k: int|
            0 <= k < s.trail.len() ==> #[trigger] s.trail[k].0 < s.num_vars() && s.assigns[s.trail[k].0 as int]
                != LBool::Undef,
    ensures
        ({
            let t = s.after_visit(c, l);
            t.notifications == base + notes(t.trail, t.assigns, t.listened)
        }),
{
    let ol = s.clauses[c.0 as int];
    let lits = watch_front(ol, l.x);
    let i = first_open(s.assigns, lits, 2);
    if !is_true(s.assigns, lits[0]) && !is_true(s.assigns, lits[1]) && !(i < lits.len()) {
        let u = s.with_clause_lits(c, lits).with_watch(l.negated(), c);
        assert(ol.len() >= 2);
        assert(ol[0].vi() < s.num_vars() && ol[1].vi() < s.num_vars());
        assert(lits[0].vi() < s.num_vars());
        lemma_enqueue_notes(u, lits[0], Some(c), base);
    }
}

/// The notifications that an assertion adds after those it found: each
/// names a listened variable that was unassigned before, with a value.
pub proof fn lemma_fresh_notes(o: EngineState, lit: Lit, s: EngineState)
    requires
        propagating(o, lit, s),
        s.shaped(),
        s.notifications == o.notifications + notes(s.trail, s.assigns, o.listened),
    ensures
        s.notifications.len() >= o.notifications.len(),
        s.notifications.subrange(0, o.notifications.len() as int) == o.notifications,
        forall|k: int|
            o.notifications.len() <= k < s.notifications.len() ==> {
                let e = #[trigger] s.notifications[k];
                &&& o.listened.contains(e.0)
                &&& e.0.0 < o.num_vars()
                &&& o.assigns[e.0.0 as int] == LBool::Undef
                &&& e.1 != LBool::Undef
            },
{
    lemma_notes_members(s.trail, s.assigns, o.listened);
    let nn = notes(s.trail, s.assigns, o.listened);
    let m = o.notifications.len();
    assert(s.notifications.subrange(0, m as int) =~= o.notifications);
    assert forall|k: int| m <= k < s.notifications.len() implies {
        let e = #[trigger] s.notifications[k];
        &&& o.listened.contains(e.0)
        &&& e.0.0 < o.num_vars()
        &&& o.assigns[e.0.0 as int] == LBool::Undef
        &&& e.1 != LBool::Undef
    } by {
        let e = s.notifications[k];
        assert(e == nn[k - m]);
        let j = choose|j: int| 0 <= j < s.trail.len() && s.trail[j] == e.0;
        assert(s.trail[j].0 < s.num_vars());
    }
}

} // verus!
