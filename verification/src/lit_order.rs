//! The order of literals: by variable index first, then negative before positive.
use core::cmp::Ordering;

use vstd::prelude::*;

use crate::lit::Lit;

verus! {

/// Whether `a` comes before `b`: a smaller variable index, or the same variable
/// with `a` negative and `b` positive.
pub open spec fn lit_less(a: Lit, b: Lit) -> bool {
    a.x.0 < b.x.0 || (a.x.0 == b.x.0 && !a.sign && b.sign)
}

/// The comparison of `a` with `b`.
pub open spec fn lit_order(a: Lit, b: Lit) -> Option<Ordering> {
    if lit_less(a, b) {
        Some(Ordering::Less)
    } else if lit_less(b, a) {
        Some(Ordering::Greater)
    } else {
        Some(Ordering::Equal)
    }
}

/// Comparing literals follows their order: `partial_cmp(a, b)` is `Less`
/// exactly when `a` comes first (a smaller variable index, or the negative
/// literal of the same variable), `Greater` exactly when `b` comes first, and
/// `Equal` exactly when they are the same literal; swapping the arguments
/// reverses the answer, and the answer is never missing.
pub proof fn law_lit_compare(a: Lit, b: Lit)
    ensures
        lit_order(a, b) == Some(Ordering::Less) <==> lit_less(a, b),
        lit_order(a, b) == Some(Ordering::Greater) <==> lit_less(b, a),
        lit_order(a, b) == Some(Ordering::Equal) <==> a == b,
        lit_order(a, b) == Some(Ordering::Less) <==> lit_order(b, a) == Some(Ordering::Greater),
        lit_order(a, b) == Some(Ordering::Equal) <==> lit_order(b, a) == Some(Ordering::Equal),
        lit_order(a, b) is Some,
        a.x.0 < b.x.0 ==> lit_order(a, b) == Some(Ordering::Less),
        a.x == b.x && !a.sign && b.sign ==> lit_order(a, b) == Some(Ordering::Less),
        a.x == b.x && a.sign && !b.sign ==> lit_order(a, b) == Some(Ordering::Greater),
{
}

impl PartialOrd for Lit {
    fn partial_cmp(&self, other: &Lit) -> (r: Option<Ordering>)
        ensures
            r == lit_order(*self, *other),
    {
        if self.x.0 < other.x.0 {
            Some(Ordering::Less)
        } else if self.x.0 > other.x.0 {
            Some(Ordering::Greater)
        } else if self.sign == other.sign {
            Some(Ordering::Equal)
        } else if !self.sign {
            Some(Ordering::Less)
        } else {
            Some(Ordering::Greater)
        }
    }
}

impl vstd::std_specs::cmp::PartialOrdSpecImpl for Lit {
    open spec fn obeys_partial_cmp_spec() -> bool {
        true
    }

    open spec fn partial_cmp_spec(&self, other: &Lit) -> Option<Ordering> {
        lit_order(*self, *other)
    }
}

} // verus!
