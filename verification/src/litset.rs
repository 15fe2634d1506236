//! A literal set: an ordered, non-empty sequence of trimmed literals on
//! consecutive lines that together form one continuous prose block.

use vstd::prelude::*;

use crate::literal::{literal_wf, TrimmedLiteral};

verus! {

/// Validity of a literal set: non-empty, every literal valid, and each
/// literal exactly one line below its predecessor.
pub open spec fn set_wf(ls: Seq<TrimmedLiteral>) -> bool {
    &&& ls.len() >= 1
    &&& (forall|i: int| 0 <= i < ls.len() ==> literal_wf(#[trigger] ls[i]))
    &&& (forall|i: int| 0 < i < ls.len() ==> (#[trigger] ls[i]).line == ls[i - 1].line + 1)
}

/// An ordered, non-empty sequence of line-adjacent literals.
#[derive(Debug, Clone)]
pub struct LiteralSet {
    pub literals: Vec<TrimmedLiteral>,
}

impl LiteralSet {
    /// A set holding a single literal.
    pub fn from(literal: TrimmedLiteral) -> (r: Self)
        requires
            literal_wf(literal),
        ensures
            r.literals@ == seq![literal],
            set_wf(r.literals@),
    {
        let mut literals = Vec::new();
        literals.push(literal);
        proof {
            assert(literals@ =~= seq![literal]);
        }
        LiteralSet { literals }
    }

    /// Append a literal iff it sits on the line right below the last literal
    /// of the set; otherwise hand the literal back unchanged.
    pub fn add_adjacent(&mut self, literal: TrimmedLiteral) -> (r: Result<(), TrimmedLiteral>)
        requires
            set_wf(old(self).literals@),
            literal_wf(literal),
        ensures
            set_wf(final (self).literals@),
            literal.line == old(self).literals@.last().line + 1 ==> {
                &&& r is Ok
                &&& final (self).literals@ == old(self).literals@.push(literal)
            },
            literal.line != old(self).literals@.last().line + 1 ==> {
                &&& r == Err::<(), TrimmedLiteral>(literal)
                &&& final (self).literals@ == old(self).literals@
            },
    {
        let last_line = self.literals[self.literals.len() - 1].line;
        if literal.line >= 1 && last_line == literal.line - 1 {
            self.literals.push(literal);
            Ok(())
        } else {
            Err(literal)
        }
    }

    /// The number of literals in the set.
    pub fn len(&self) -> (r: usize)
        ensures
            r == self.literals@.len(),
    {
        self.literals.len()
    }

    /// The literals of the set, in order.
    pub fn literals(&self) -> (r: &Vec<TrimmedLiteral>)
        ensures
            r@ == self.literals@,
    {
        &self.literals
    }
}

} // verus!
