use vstd::prelude::*;

verus! {

/// What kind of code a compilation context compiles.
#[derive(Clone, Copy, PartialEq, Eq, Structural, Debug)]
pub enum ContextType {
    Function,
    Method,
    Initializer,
    Script,
}

/// The state of compiling one function: its kind, the enclosing context,
/// the chunk it writes to and its stack offset.
#[derive(Clone, Copy, PartialEq, Eq, Structural, Debug)]
pub struct CompilerContext {
    pub context_type: ContextType,
    pub enclosing: Option<usize>,
    pub chunk_index: usize,
    pub stack_offset: usize,
}

impl CompilerContext {
    /// A function context with no enclosing context, at chunk 0 and
    /// stack offset 0.
    pub fn new() -> (r: Self)
        ensures
            r.context_type == ContextType::Function,
            r.enclosing is None,
            r.chunk_index == 0,
            r.stack_offset == 0,
    {
        CompilerContext { context_type: ContextType::Function, enclosing: None, chunk_index: 0, stack_offset: 0 }
    }
}

} // verus!
