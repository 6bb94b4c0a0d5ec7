use vstd::prelude::*;

verus! {

/// Arithmetic and boolean binary operators of the language.
#[derive(Clone, Copy, PartialEq, Eq, Structural, Debug)]
pub enum BinOp {
    Plus,
    Minus,
    Slash,
    Modulo,
    Carat,
    Star,
    And,
    Or,
}

/// Relational operators of the language.
#[derive(Clone, Copy, PartialEq, Eq, Structural, Debug)]
pub enum RelOp {
    NotEqual,
    EqualEqual,
    Greater,
    GreaterEqual,
    Less,
    LessEqual,
}

/// The negation of a relational operator: `a op b` holds exactly when
/// `a op.flip() b` does not.
pub open spec fn spec_negated(op: RelOp) -> RelOp {
    match op {
        RelOp::NotEqual => RelOp::EqualEqual,
        RelOp::EqualEqual => RelOp::NotEqual,
        RelOp::Less => RelOp::GreaterEqual,
        RelOp::LessEqual => RelOp::Greater,
        RelOp::Greater => RelOp::LessEqual,
        RelOp::GreaterEqual => RelOp::Less,
    }
}

/// Truth of `a op b` on mathematical integers.
pub open spec fn holds(op: RelOp, a: int, b: int) -> bool {
    match op {
        RelOp::NotEqual => a != b,
        RelOp::EqualEqual => a == b,
        RelOp::Less => a < b,
        RelOp::LessEqual => a <= b,
        RelOp::Greater => a > b,
        RelOp::GreaterEqual => a >= b,
    }
}

impl RelOp {
    /// The operator that tests the opposite condition.
    pub fn flip(&self) -> (r: RelOp)
        ensures
            r == spec_negated(*self),
            forall|a: int, b: int| holds(r, a, b) == !holds(*self, a, b),
    {
        match self {
            RelOp::NotEqual => RelOp::EqualEqual,
            RelOp::EqualEqual => RelOp::NotEqual,
            RelOp::Less => RelOp::GreaterEqual,
            RelOp::LessEqual => RelOp::Greater,
            RelOp::Greater => RelOp::LessEqual,
            RelOp::GreaterEqual => RelOp::Less,
        }
    }
}

/// Flipping a relational operator twice gives the operator back.
pub proof fn lemma_flip_involutive(op: RelOp)
    ensures
        spec_negated(spec_negated(op)) == op,
{
}

} // verus!
