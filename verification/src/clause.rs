use vstd::prelude::*;
use vstd::string::StringExecFns;

use crate::lit::Lit;
use crate::text::{decimal, push_decimal};

verus! {

/// Index of a clause stored in an `Engine`.
#[derive(Debug, Clone, Copy, PartialEq, Eq, Hash, Structural)]
pub struct ClauseId(pub usize);

impl ClauseId {
    /// Wraps a raw clause index.
    pub fn new(index: usize) -> (c: ClauseId)
        ensures
            c.0 == index,
    {
        ClauseId(index)
    }

    /// The text of a clause index: `c` followed by the index.
    pub open spec fn text(self) -> Seq<char> {
        seq!['c'] + decimal(self.0 as nat)
    }

    /// Renders the clause index as `c` followed by the index, e.g. `c4`.
    pub fn to_text(&self) -> (s: String)
        ensures
            s@ == self.text(),
    {
        let mut s = String::new();
        proof {
            reveal_strlit("c");
        }
        s.append("c");
        push_decimal(&mut s, self.0);
        proof {
            assert(s@ =~= self.text());
        }
        s
    }
}

impl core::ops::Deref for ClauseId {
    type Target = usize;

    fn deref(&self) -> (r: &usize)
        ensures
            *r == self.0,
    {
        &self.0
    }
}

/// A disjunction of literals.
pub struct Clause {
    pub lits: Vec<Lit>,
}

/// The text of a disjunction: its literals' texts separated by ` ∨ `.
pub open spec fn lits_text(lits: Seq<Lit>) -> Seq<char>
    decreases lits.len(),
{
    if lits.len() == 0 {
        Seq::empty()
    } else if lits.len() == 1 {
        lits[0].text()
    } else {
        lits_text(lits.drop_last()) + seq![' ', '∨', ' '] + lits.last().text()
    }
}

impl Clause {
    /// Renders the clause, e.g. `b1 ∨ ¬b2 ∨ b3`.
    pub fn to_text(&self) -> (s: String)
        ensures
            s@ == lits_text(self.lits@),
    {
        let mut s = String::new();
        push_lits_text(&mut s, &self.lits);
        s
    }
}

/// Appends the text of the disjunction of `lits` to `s`.
pub fn push_lits_text(s: &mut String, lits: &Vec<Lit>)
    ensures
        final(s)@ == old(s)@ + lits_text(lits@),
{
    let ghost start = s@;
    let mut i: usize = 0;
    while i < lits.len()
        invariant
            i <= lits@.len(),
            s@ == start + lits_text(lits@.subrange(0, i as int)),
        decreases lits@.len() - i,
    {
        let ghost before = s@;
        if i > 0 {
            proof {
                reveal_strlit(" ∨ ");
            }
            s.append(" ∨ ");
        }
        lits[i].push_text(s);
        proof {
            let pre = lits@.subrange(0, i as int);
            let post = lits@.subrange(0, i as int + 1);
            assert(post.drop_last() =~= pre);
            assert(post.last() == lits@[i as int]);
            if i == 0 {
                assert(lits_text(pre) =~= Seq::<char>::empty());
            }
            assert(s@ =~= start + lits_text(post));
        }
        i = i + 1;
    }
    proof {
        assert(lits@.subrange(0, lits@.len() as int) =~= lits@);
    }
}

} // verus!
