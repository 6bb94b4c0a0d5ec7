use vstd::prelude::*;
use crate::bytecode::Constant;

verus! {

/// A jump target: a named one (an interned name) or a numbered one.
#[derive(Clone, Copy, PartialEq, Eq, Structural, Hash, Debug)]
pub enum Label {
    Named(usize),
    Label(usize),
}

/// A variable or temporary in SSA form.
#[derive(Clone, Copy, PartialEq, Eq, Structural, Hash, Debug)]
pub struct SSA {
    pub value: usize,
    pub ssa: usize,
    pub is_var: bool,
}

/// An operand: an SSA name or a constant.
#[derive(Clone, Copy, PartialEq, Eq, Structural, Debug)]
pub enum Operand {
    Assignable(SSA),
    Constant(Constant),
}

impl Operand {
    /// The SSA names that the operand reads.
    pub fn used(&self) -> (r: Vec<SSA>)
        ensures
            r@ == (match *self {
                Operand::Assignable(v) => seq![v],
                _ => Seq::<SSA>::empty(),
            }),
    {
        match self {
            Operand::Assignable(v) => {
                let mut r: Vec<SSA> = Vec::new();
                r.push(*v);
                assert(r@ =~= seq![*v]);
                r
            },
            _ => Vec::new(),
        }
    }

    /// Whether the operand is `v`.
    pub fn uses(&self, v: Operand) -> (r: bool)
        ensures
            r == (*self == v),
    {
        *self == v
    }

    /// Sets the SSA version to `ssa` where the operand names `value` of
    /// the kind `is_var`.
    pub fn replace_with_ssa(&mut self, value: usize, is_var: bool, ssa: usize)
        ensures
            *final(self) == (match *old(self) {
                Operand::Assignable(v) => if v.value == value && v.is_var == is_var {
                    Operand::Assignable(SSA { ssa, ..v })
                } else {
                    *old(self)
                },
                _ => *old(self),
            }),
    {
        if let Operand::Assignable(v) = *self {
            if v.value == value && v.is_var == is_var {
                *self = Operand::Assignable(SSA { value: v.value, ssa, is_var: v.is_var });
            }
        }
    }

    /// Replaces the operand by `c` if it is `v`.
    pub fn replace_with(&mut self, v: Operand, c: Operand)
        ensures
            *final(self) == (if *old(self) == v { c } else { *old(self) }),
    {
        if *self == v {
            *self = c;
        }
    }
}

/// An unconditional jump.
#[derive(Clone, Copy, PartialEq, Eq, Structural, Debug)]
pub struct Jump {
    pub goto: Label,
}

} // verus!
