use vstd::prelude::*;

verus! {

/// The options of the command line: debug output, profiling,
/// optimisation, and the path of the source file.
#[derive(Clone, Debug)]
pub struct Cli {
    pub debug: bool,
    pub profile: bool,
    pub optimize: bool,
    pub input: String,
}

} // verus!
