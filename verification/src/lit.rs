use vstd::prelude::*;
use vstd::string::StringExecFns;

use crate::var::VarId;

verus! {

/// A literal: a variable together with a sign (true for positive, false for negative).
#[derive(Debug, Clone, Copy, PartialEq, Eq, Structural)]
pub struct Lit {
    pub x: VarId,
    pub sign: bool,
}

/// The literal that is always true: the positive literal of the reserved variable `0`.
pub fn true_lit() -> (l: Lit)
    ensures
        l == (Lit { x: VarId(0), sign: true }),
{
    Lit { x: VarId(0), sign: true }
}

/// The literal that is always false: the negative literal of the reserved variable `0`.
pub fn false_lit() -> (l: Lit)
    ensures
        l == (Lit { x: VarId(0), sign: false }),
{
    Lit { x: VarId(0), sign: false }
}

impl Lit {
    /// The literal with the same variable and the opposite sign.
    pub open spec fn negated(self) -> Lit {
        Lit { x: self.x, sign: !self.sign }
    }

    /// The raw index of the literal's variable.
    pub open spec fn vi(self) -> int {
        self.x.0 as int
    }

    /// Creates a literal from a variable index and a sign.
    ///
    /// `sign = true` means positive literal, `sign = false` means negated literal.
    pub fn new(x: VarId, sign: bool) -> (l: Lit)
        ensures
            l == (Lit { x, sign }),
    {
        Lit { x, sign }
    }

    /// Creates a positive literal for the given variable.
    pub fn pos(x: VarId) -> (l: Lit)
        ensures
            l == (Lit { x, sign: true }),
    {
        Lit { x, sign: true }
    }

    /// Creates a negative literal for the given variable.
    pub fn neg(x: VarId) -> (l: Lit)
        ensures
            l == (Lit { x, sign: false }),
    {
        Lit { x, sign: false }
    }

    /// Returns the variable associated with this literal.
    pub fn var(&self) -> (v: VarId)
        ensures
            v == self.x,
    {
        self.x
    }

    /// Returns `true` when the literal is positive.
    pub fn is_positive(&self) -> (b: bool)
        ensures
            b == self.sign,
    {
        self.sign
    }

    /// The text of a literal: its variable's text, preceded by `¬` when negative.
    pub open spec fn text(self) -> Seq<char> {
        if self.sign {
            self.x.text()
        } else {
            seq!['¬'] + self.x.text()
        }
    }

    /// Renders the literal, e.g. `b2` or `¬b2`.
    pub fn to_text(&self) -> (s: String)
        ensures
            s@ == self.text(),
    {
        let mut s = String::new();
        self.push_text(&mut s);
        s
    }

    /// Appends the text of the literal to `s`.
    pub fn push_text(&self, s: &mut String)
        ensures
            final(s)@ == old(s)@ + self.text(),
    {
        if !self.sign {
            proof {
                reveal_strlit("¬");
            }
            s.append("¬");
        }
        self.x.push_text(s);
        proof {
            assert(final(s)@ =~= old(s)@ + self.text());
        }
    }

    /// The negation of this literal.
    pub fn negate(&self) -> (l: Lit)
        ensures
            l == self.negated(),
    {
        Lit { x: self.x, sign: !self.sign }
    }
}

/// Creates a positive literal for the given variable.
pub fn pos(x: VarId) -> (l: Lit)
    ensures
        l == (Lit { x, sign: true }),
{
    Lit::pos(x)
}

/// Creates a negative literal for the given variable.
pub fn neg(x: VarId) -> (l: Lit)
    ensures
        l == (Lit { x, sign: false }),
{
    Lit::neg(x)
}

impl Default for Lit {
    /// A sentinel literal with an invalid variable index, used as a placeholder.
    fn default() -> (l: Lit)
        ensures
            l == (Lit { x: VarId(usize::MAX), sign: false }),
    {
        Lit { x: VarId(usize::MAX), sign: false }
    }
}

impl core::ops::Not for Lit {
    type Output = Lit;

    fn not(self) -> (l: Lit)
        ensures
            l == self.negated(),
    {
        Lit { x: self.x, sign: !self.sign }
    }
}

impl vstd::std_specs::ops::NotSpecImpl for Lit {
    open spec fn obeys_not_spec() -> bool {
        true
    }

    open spec fn not_req(self) -> bool {
        true
    }

    open spec fn not_spec(self) -> Lit {
        self.negated()
    }
}

impl<'a> core::ops::Not for &'a Lit {
    type Output = Lit;

    fn not(self) -> (l: Lit)
        ensures
            l == self.negated(),
    {
        Lit { x: self.x, sign: !self.sign }
    }
}

impl<'a> vstd::std_specs::ops::NotSpecImpl for &'a Lit {
    open spec fn obeys_not_spec() -> bool {
        true
    }

    open spec fn not_req(self) -> bool {
        true
    }

    open spec fn not_spec(self) -> Lit {
        self.negated()
    }
}

} // verus!
