use vstd::prelude::*;
use vstd::string::StringExecFns;

verus! {

/// Three-valued boolean used by the SAT engine.
///
/// In addition to classical `True` and `False`, SAT solvers need an
/// `Undef` state for variables that have not been assigned yet.
#[derive(Clone, Debug, PartialEq, Eq, Structural)]
pub enum LBool {
    /// The variable is assigned to true.
    True,
    /// The variable is assigned to false.
    False,
    /// The variable is currently unassigned.
    Undef,
}

impl LBool {
    /// The value `b` as a three-valued boolean.
    pub open spec fn from_bool(b: bool) -> LBool {
        if b {
            LBool::True
        } else {
            LBool::False
        }
    }

    /// The name of the value: `True`, `False` or `Undef`.
    pub open spec fn text(self) -> Seq<char> {
        match self {
            LBool::True => seq!['T', 'r', 'u', 'e'],
            LBool::False => seq!['F', 'a', 'l', 's', 'e'],
            LBool::Undef => seq!['U', 'n', 'd', 'e', 'f'],
        }
    }

    /// Renders the value by its name: `True`, `False` or `Undef`.
    pub fn to_text(&self) -> (s: String)
        ensures
            s@ == self.text(),
    {
        let mut s = String::new();
        self.push_text(&mut s);
        s
    }

    /// Appends the name of the value to `s`.
    pub fn push_text(&self, s: &mut String)
        ensures
            final(s)@ == old(s)@ + self.text(),
    {
        match self {
            LBool::True => {
                proof {
                    reveal_strlit("True");
                }
                s.append("True");
            },
            LBool::False => {
                proof {
                    reveal_strlit("False");
                }
                s.append("False");
            },
            LBool::Undef => {
                proof {
                    reveal_strlit("Undef");
                }
                s.append("Undef");
            },
        }
    }

    /// A copy of this value, usable from verified code.
    pub fn copied(&self) -> (r: LBool)
        ensures
            r == *self,
    {
        match self {
            LBool::True => LBool::True,
            LBool::False => LBool::False,
            LBool::Undef => LBool::Undef,
        }
    }
}

impl Default for LBool {
    fn default() -> (r: LBool)
        ensures
            r == LBool::Undef,
    {
        LBool::Undef
    }
}

} // verus!
