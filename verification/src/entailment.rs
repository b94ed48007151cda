//! Clauses read as propositional formulas: a total assignment of the
//! variables satisfies a clause when one of its literals holds, and a set of
//! literals is implied by clauses when every assignment that satisfies all the
//! clauses makes one of the literals hold.
use vstd::prelude::*;

use crate::clause::ClauseId;
use crate::lbool::LBool;
use crate::lit::Lit;
use crate::soundness::lemma_ordered_at;
use crate::model::{
    is_false, propagating, lemma_open_count_pos, open_count, same_literals, EngineState,
};
use crate::var::VarId;

verus! {

/// Literal `l` holds under the total assignment `m`.
pub open spec fn holds(m: spec_fn(VarId) -> bool, l: Lit) -> bool {
    m(l.x) == l.sign
}

/// Some literal of `lits` holds under `m`.
pub open spec fn clause_holds(m: spec_fn(VarId) -> bool, lits: Seq<Lit>) -> bool {
    exists|i: int| 0 <= i < lits.len() && holds(m, #[trigger] lits[i])
}

/// Every clause of `cs` holds under `m`.
pub open spec fn models(m: spec_fn(VarId) -> bool, cs: Seq<Seq<Lit>>) -> bool {
    forall|c: int| 0 <= c < cs.len() ==> clause_holds(m, #[trigger] cs[c])
}

/// Every assignment that satisfies all of `cs` makes some literal of `s` hold.
pub open spec fn implied(cs: Seq<Seq<Lit>>, s: Set<Lit>) -> bool {
    forall|m: spec_fn(VarId) -> bool|
        #[trigger] models(m, cs) ==> exists|l: Lit| s.contains(l) && #[trigger] holds(m, l)
}

/// The literals of `lits` on a variable other than `v`.
pub open spec fn others(lits: Seq<Lit>, v: VarId) -> Set<Lit> {
    Set::new(|l: Lit| lits.contains(l) && l.x != v)
}

/// Each clause is implied by the clauses it belongs to.
pub proof fn lemma_implied_own(cs: Seq<Seq<Lit>>, c: int)
    requires
        0 <= c < cs.len(),
    ensures
        implied(cs, cs[c].to_set()),
{
    assert forall|m: spec_fn(VarId) -> bool| #[trigger] models(m, cs) implies exists|l: Lit|
        cs[c].to_set().contains(l) && #[trigger] holds(m, l) by {
        assert(clause_holds(m, cs[c]));
        let i = choose|i: int| 0 <= i < cs[c].len() && holds(m, #[trigger] cs[c][i]);
        assert(cs[c].to_set().contains(cs[c][i]));
    }
}

/// A larger set of literals is implied when a smaller one is.
pub proof fn lemma_implied_mono(cs: Seq<Seq<Lit>>, a: Set<Lit>, b: Set<Lit>)
    requires
        implied(cs, a),
        a.subset_of(b),
    ensures
        implied(cs, b),
{
    assert forall|m: spec_fn(VarId) -> bool| #[trigger] models(m, cs) implies exists|l: Lit|
        b.contains(l) && #[trigger] holds(m, l) by {
        let l = choose|l: Lit| a.contains(l) && #[trigger] holds(m, l);
        assert(b.contains(l));
    }
}

/// Resolution: from `a` with the negation of `h`, and a clause of `cs` that
/// holds `h` and no other literal on `h`'s variable, follows `a` with the
/// clause's literals on other variables.
pub proof fn lemma_resolve(cs: Seq<Seq<Lit>>, a: Set<Lit>, h: Lit, c: int)
    requires
        implied(cs, a.insert(h.negated())),
        0 <= c < cs.len(),
        cs[c].contains(h),
        forall|l: Lit| cs[c].contains(l) && l.x == h.x ==> l == h,
    ensures
        implied(cs, a.union(others(cs[c], h.x))),
{
    let r = a.union(others(cs[c], h.x));
    assert forall|m: spec_fn(VarId) -> bool| #[trigger] models(m, cs) implies exists|l: Lit|
        r.contains(l) && #[trigger] holds(m, l) by {
        let l0 = choose|l: Lit| a.insert(h.negated()).contains(l) && #[trigger] holds(m, l);
        if a.contains(l0) {
            assert(r.contains(l0));
        } else {
            assert(l0 == h.negated());
            assert(clause_holds(m, cs[c]));
            let i = choose|i: int| 0 <= i < cs[c].len() && holds(m, #[trigger] cs[c][i]);
            let l1 = cs[c][i];
            assert(cs[c].contains(l1));
            assert(r.contains(l1));
        }
    }
}

/// Clauses with the same literals imply the same sets.
pub proof fn lemma_implied_same(cs: Seq<Seq<Lit>>, ds: Seq<Seq<Lit>>, s: Set<Lit>)
    requires
        implied(ds, s),
        cs.len() == ds.len(),
        forall|c: int| 0 <= c < cs.len() ==> #[trigger] same_literals(cs[c], ds[c]),
    ensures
        implied(cs, s),
{
    assert forall|m: spec_fn(VarId) -> bool| #[trigger] models(m, cs) implies exists|l: Lit|
        s.contains(l) && #[trigger] holds(m, l) by {
        assert forall|c: int| 0 <= c < ds.len() implies clause_holds(m, #[trigger] ds[c]) by {
            assert(clause_holds(m, cs[c]));
            assert(same_literals(cs[c], ds[c]));
            let i = choose|i: int| 0 <= i < cs[c].len() && holds(m, #[trigger] cs[c][i]);
            assert(cs[c].contains(cs[c][i]));
            assert(ds[c].contains(cs[c][i]));
            let j = choose|j: int| 0 <= j < ds[c].len() && ds[c][j] == cs[c][i];
            assert(holds(m, ds[c][j]));
        }
        assert(models(m, ds));
    }
}

/// The false literals, under `o`, of the marked variables of `trail`: those
/// still to be resolved away.
pub open spec fn counted(o: EngineState, seen: Seq<bool>, trail: Seq<VarId>) -> Set<Lit> {
    Set::new(
        |l: Lit|
            0 <= l.vi() < o.num_vars() && seen[l.vi()] && trail.contains(l.x) && is_false(o.assigns, l),
    )
}

/// The literals of `lits` from position `j` on, but those on `pivot`.
pub open spec fn rest(lits: Seq<Lit>, j: int, pivot: Option<VarId>) -> Set<Lit> {
    Set::new(|l: Lit| exists|i: int| j <= i < lits.len() && lits[i] == l && pivot != Some(l.x))
}

/// Dropping the last trail variable removes its false literal from
/// `counted` when it is marked, and nothing otherwise.
pub proof fn lemma_counted_pop(o: EngineState, seen: Seq<bool>, trail: Seq<VarId>)
    requires
        trail.len() > 0,
        trail.no_duplicates(),
        0 <= trail.last().0 < o.num_vars(),
        o.assigns[trail.last().0 as int] != LBool::Undef,
    ensures
        !seen[trail.last().0 as int] ==> counted(o, seen, trail.drop_last()) == counted(o, seen, trail),
        seen[trail.last().0 as int] ==> counted(o, seen, trail)
            == counted(o, seen, trail.drop_last()).insert(
            Lit { x: trail.last(), sign: o.assigns[trail.last().0 as int] != LBool::True },
        ),
{
    let t = trail.drop_last();
    let v = trail.last();
    assert forall|u: VarId| u != v implies (#[trigger] trail.contains(u) <==> t.contains(u)) by {
        if trail.contains(u) {
            let k = choose|k: int| 0 <= k < trail.len() && trail[k] == u;
            assert(k < trail.len() - 1);
            assert(t[k] == u);
        }
        if t.contains(u) {
            let k = choose|k: int| 0 <= k < t.len() && t[k] == u;
            assert(trail[k] == u);
        }
    }
    assert(!t.contains(v)) by {
        if t.contains(v) {
            let k = choose|k: int| 0 <= k < t.len() && t[k] == v;
            assert(trail[k] == trail[trail.len() - 1]);
        }
    }
    assert(trail.contains(v)) by {
        assert(trail[trail.len() - 1] == v);
    }
    if !seen[v.0 as int] {
        assert(counted(o, seen, t) =~= counted(o, seen, trail));
    } else {
        let h = Lit { x: v, sign: o.assigns[v.0 as int] != LBool::True };
        assert(counted(o, seen, trail) =~= counted(o, seen, t).insert(h));
    }
}

/// Nothing left to count: no literal is counted.
pub proof fn lemma_counted_none(o: EngineState, seen: Seq<bool>, trail: Seq<VarId>)
    requires
        open_count(trail, seen) == 0,
    ensures
        counted(o, seen, trail) == Set::<Lit>::empty(),
{
    assert forall|l: Lit| !counted(o, seen, trail).contains(l) by {
        if counted(o, seen, trail).contains(l) {
            let k = choose|k: int| 0 <= k < trail.len() && trail[k] == l.x;
            lemma_open_count_pos(trail, seen, k);
        }
    }
    assert(counted(o, seen, trail) =~= Set::<Lit>::empty());
}

/// The variable being resolved away, if any.
pub open spec fn pivot(p: Option<(Lit, Option<ClauseId>)>) -> Option<VarId> {
    match p {
        Some(pp) => Some(pp.0.x),
        None => None,
    }
}

/// Each marked variable is that of a literal of `learnt` after the first, or a
/// variable of `o`'s trail.
pub open spec fn marks_accounted(o: EngineState, seen: Seq<bool>, learnt: Seq<Lit>) -> bool {
    forall|v: VarId|
        0 <= v.0 < o.num_vars() && #[trigger] seen[v.0 as int] ==> (exists|k: int|
            1 <= k < learnt.len() && learnt[k].x == v) || o.trail.contains(v)
}

/// What conflict analysis knows to be implied: the literals of `learnt` after
/// the first, the false literals of the marked variables still on `trail`,
/// and the literals of `lits` not yet processed.
pub open spec fn resolvent(
    o: EngineState,
    seen: Seq<bool>,
    learnt: Seq<Lit>,
    trail: Seq<VarId>,
    lits: Seq<Lit>,
    j: int,
    pv: Option<VarId>,
) -> Set<Lit> {
    learnt.subrange(1, learnt.len() as int).to_set().union(counted(o, seen, trail)).union(rest(lits, j, pv))
}

/// The total assignment `m` keeps every value that `a` gives.
pub open spec fn extends(m: spec_fn(VarId) -> bool, a: Seq<LBool>) -> bool {
    forall|v: VarId|
        0 <= v.0 < a.len() && a[v.0 as int] != LBool::Undef ==> #[trigger] m(v) == (a[v.0 as int] == LBool::True)
}

/// Clauses with the same literals hold under the same assignments.
pub proof fn lemma_models_same(cs: Seq<Seq<Lit>>, ds: Seq<Seq<Lit>>, m: spec_fn(VarId) -> bool)
    requires
        models(m, cs),
        cs.len() == ds.len(),
        forall|c: int| 0 <= c < cs.len() ==> #[trigger] same_literals(cs[c], ds[c]),
    ensures
        models(m, ds),
{
    assert forall|c: int| 0 <= c < ds.len() implies clause_holds(m, #[trigger] ds[c]) by {
        assert(clause_holds(m, cs[c]));
        assert(same_literals(cs[c], ds[c]));
        let i = choose|i: int| 0 <= i < cs[c].len() && holds(m, #[trigger] cs[c][i]);
        assert(cs[c].contains(cs[c][i]));
        assert(ds[c].contains(cs[c][i]));
        let j = choose|j: int| 0 <= j < ds[c].len() && ds[c][j] == cs[c][i];
        assert(holds(m, ds[c][j]));
    }
}

/// A literal false in `s`, on a variable whose value `m` keeps, does not hold
/// under `m`.
proof fn lemma_false_lit_fails(s: EngineState, m: spec_fn(VarId) -> bool, g: Lit)
    requires
        is_false(s.assigns, g),
        0 <= g.vi() < s.num_vars(),
        m(g.x) == (s.assigns[g.vi()] == LBool::True),
    ensures
        !holds(m, g),
{
}

/// Under an assignment `m` that satisfies the clauses, keeps the values
/// that held before the assertion of `lit` and makes `lit` true, the
/// variables on the trail of a propagating state `s` have the values that
/// propagation gave them: each is forced by its reason clause.
pub proof fn lemma_forced_at(o: EngineState, lit: Lit, s: EngineState, m: spec_fn(VarId) -> bool, k: int)
    requires
        propagating(o, lit, s),
        s.shaped(),
        s.reasons_sound(),
        s.reasons_ordered(),
        models(m, s.clauses),
        extends(m, o.assigns),
        holds(m, lit),
        0 <= k < s.trail.len(),
    ensures
        m(s.trail[k]) == (s.assigns[s.trail[k].0 as int] == LBool::True),
    decreases k,
{
    let v = s.trail[k];
    if k == 0 {
        assert(v == lit.x);
    } else {
        let rc = s.reasons[v.0 as int]->Some_0;
        assert(s.reasons[s.trail[k].0 as int] is Some);
        assert(s.reasons[s.trail[k].0 as int] matches Some(c2) && c2.0 < s.num_clauses() && forall|g: Lit|
            s.clauses[c2.0 as int].contains(g) ==> g == s.holding_lit(s.trail[k]) || is_false(s.assigns, g));
        let cl = s.clauses[rc.0 as int];
        assert(clause_holds(m, cl));
        let i = choose|i: int| 0 <= i < cl.len() && holds(m, #[trigger] cl[i]);
        let g = cl[i];
        assert(cl.contains(g));
        if g != s.holding_lit(v) {
            assert(is_false(s.assigns, g));
            assert(g.vi() < s.num_vars());
            if s.trail.contains(g.x) {
                let j = choose|j: int| 0 <= j < s.trail.len() && s.trail[j] == g.x;
                if j >= k {
                    lemma_ordered_at(s, k, rc, g, j);
                }
                lemma_forced_at(o, lit, s, m, j);
            } else {
                assert(o.assigns[g.vi()] != LBool::Undef);
                assert(s.assigns[g.vi()] == o.assigns[g.vi()]);
            }
            lemma_false_lit_fails(s, m, g);
        }
    }
}

/// A clause all of whose literals are false in a propagating state `s`
/// rules out every assignment that satisfies the clauses, keeps the values
/// that held before the assertion of `lit` and makes `lit` true.
pub proof fn lemma_conflict_refutes(o: EngineState, lit: Lit, s: EngineState, c: int, m: spec_fn(VarId) -> bool)
    requires
        propagating(o, lit, s),
        s.shaped(),
        s.reasons_sound(),
        s.reasons_ordered(),
        0 <= c < s.num_clauses(),
        forall|j: int| 0 <= j < s.clauses[c].len() ==> is_false(s.assigns, #[trigger] s.clauses[c][j]),
    ensures
        !(models(m, s.clauses) && extends(m, o.assigns) && holds(m, lit)),
{
    if models(m, s.clauses) && extends(m, o.assigns) && holds(m, lit) {
        let cl = s.clauses[c];
        assert(clause_holds(m, cl));
        let i = choose|i: int| 0 <= i < cl.len() && holds(m, #[trigger] cl[i]);
        let g = cl[i];
        assert(is_false(s.assigns, g));
        assert(g.vi() < s.num_vars());
        if s.trail.contains(g.x) {
            let j = choose|j: int| 0 <= j < s.trail.len() && s.trail[j] == g.x;
            lemma_forced_at(o, lit, s, m, j);
        } else {
            assert(o.assigns[g.vi()] != LBool::Undef);
            assert(s.assigns[g.vi()] == o.assigns[g.vi()]);
        }
        lemma_false_lit_fails(s, m, g);
    }
}

/// The false literal, under `o`, of variable `v`.
pub open spec fn falsified(o: EngineState, v: VarId) -> Lit {
    Lit { x: v, sign: o.assigns[v.0 as int] != LBool::True }
}

/// Whether `r` holds a literal on one of the first `k` variables of `o`'s trail.
pub open spec fn touches_below(o: EngineState, r: Set<Lit>, k: int) -> bool {
    exists|l: Lit| r.contains(l) && #[trigger] o.trail.subrange(0, k).contains(l.x)
}

/// First-UIP resolution, walking `o`'s trail down from position `k`: a trail
/// variable whose false literal is in `r` is resolved away through its reason
/// clause, unless it is the only variable of `r` left on the trail up to it;
/// then `r` is the learnt clause.
pub open spec fn first_uip(o: EngineState, r: Set<Lit>, k: int) -> Set<Lit>
    decreases k + 1,
{
    if k < 0 {
        r
    } else {
        let v = o.trail[k];
        let f = falsified(o, v);
        if !r.contains(f) {
            first_uip(o, r, k - 1)
        } else if !touches_below(o, r, k) {
            r
        } else {
            match o.reasons[v.0 as int] {
                Some(c) => first_uip(o, r.remove(f).union(others(o.clauses[c.0 as int], v)), k - 1),
                None => r,
            }
        }
    }
}

} // verus!
