use vstd::prelude::*;

verus! {

/// An output register of a bytecode instruction.
#[derive(Clone, Copy, PartialEq, Eq, Structural, Debug)]
pub enum OR {
    REG(usize),
    STACK(usize),
}

/// An input register of a bytecode instruction.
#[derive(Clone, Copy, PartialEq, Eq, Structural, Debug)]
pub enum IR {
    REG(usize),
    VALUE(usize),
    STACK(usize),
    MEMLOC(usize),
    STACKPOP,
    RETVAL,
}

/// Where a label stands: a chunk and a statement in it.
#[derive(Clone, Copy, PartialEq, Eq, Structural, Debug, Default)]
pub struct LabelLocation {
    pub chunk_index: usize,
    pub statement_index: usize,
}

impl LabelLocation {
    pub fn new(chunk_index: usize, statement_index: usize) -> (r: Self)
        ensures
            r.chunk_index == chunk_index,
            r.statement_index == statement_index,
    {
        LabelLocation { chunk_index, statement_index }
    }
}

} // verus!
