use vstd::prelude::*;
use crate::bytecode::Constant;

verus! {

/// An operand of linear three-address code: a variable (`true`) or
/// temporary (`false`) with its SSA version, a constant, a register or
/// the return slot.
#[derive(Clone, Copy, PartialEq, Eq, Structural, Hash, Debug)]
pub enum Operand {
    Assignable(usize, usize, bool),
    Constant(Constant),
    Register(usize),
    Return,
}

impl Operand {
    /// The operand as a one-element list where it is assignable.
    pub open spec fn assignable_list(self) -> Seq<Operand> {
        if self is Assignable { seq![self] } else { Seq::empty() }
    }

    /// The operand as a one-element list where it can be defined.
    pub fn vars_defined(&self) -> (r: Vec<Operand>)
        ensures
            r@ == self.assignable_list(),
    {
        match self {
            Operand::Assignable(_, _, _) => {
                let mut v: Vec<Operand> = Vec::new();
                v.push(*self);
                assert(v@ =~= seq![*self]);
                v
            },
            _ => Vec::new(),
        }
    }

    /// The operand as a one-element list where it is a variable read.
    pub fn vars_used(&self) -> (r: Vec<Operand>)
        ensures
            r@ == self.assignable_list(),
    {
        match self {
            Operand::Assignable(_, _, _) => {
                let mut v: Vec<Operand> = Vec::new();
                v.push(*self);
                assert(v@ =~= seq![*self]);
                v
            },
            _ => Vec::new(),
        }
    }

    /// Sets the SSA version to `ssa` where the operand is the assignable
    /// `value` of the kind `is_var`.
    pub fn replace_with_ssa(&mut self, value: usize, ssa: usize, is_var: bool)
        ensures
            *final(self) == (match *old(self) {
                Operand::Assignable(v, s, i) => if v == value && i == is_var {
                    Operand::Assignable(v, ssa, i)
                } else {
                    *old(self)
                },
                _ => *old(self),
            }),
    {
        if let Operand::Assignable(v, _, i) = *self {
            if v == value && i == is_var {
                *self = Operand::Assignable(v, ssa, i);
            }
        }
    }
}

} // verus!
