use vstd::prelude::*;
use vstd::string::StringExecFns;

use crate::text::{decimal, push_decimal};

verus! {

/// Identifier of a SAT variable managed by an `Engine`.
///
/// Variable identifiers are stable for the lifetime of an engine and are
/// created by `Engine::add_var`.
#[derive(Debug, Clone, Copy, PartialEq, Eq, Hash, Structural)]
pub struct VarId(pub usize);

impl VarId {
    /// Wraps a raw variable index.
    pub fn new(index: usize) -> (v: VarId)
        ensures
            v.0 == index,
    {
        VarId(index)
    }

    /// The raw index of the variable.
    pub fn index(&self) -> (i: usize)
        ensures
            i == self.0,
    {
        self.0
    }
}

impl VarId {
    /// The text of a variable: `b` followed by its index.
    pub open spec fn text(self) -> Seq<char> {
        seq!['b'] + decimal(self.0 as nat)
    }

    /// Renders the variable as `b` followed by its index, e.g. `b5`.
    pub fn to_text(&self) -> (s: String)
        ensures
            s@ == self.text(),
    {
        let mut s = String::new();
        self.push_text(&mut s);
        s
    }

    /// Appends the text of the variable to `s`.
    pub fn push_text(&self, s: &mut String)
        ensures
            final(s)@ == old(s)@ + self.text(),
    {
        proof {
            reveal_strlit("b");
        }
        s.append("b");
        push_decimal(s, self.0);
        proof {
            assert(final(s)@ =~= old(s)@ + self.text());
        }
    }
}

impl core::ops::Deref for VarId {
    type Target = usize;

    fn deref(&self) -> (r: &usize)
        ensures
            *r == self.0,
    {
        &self.0
    }
}

} // verus!
