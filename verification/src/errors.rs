use vstd::prelude::*;

verus! {

/// The errors of scanning, with the line and column where they arose.
#[derive(Clone, Copy, PartialEq, Eq, Structural, Debug)]
pub enum ScanError {
    InputStreamEmpty,
    UnterminatedString(usize, usize),
    InvalidNumeric(usize, usize),
}

/// The errors of the scoping check.
#[derive(Clone, Copy, PartialEq, Eq, Structural, Debug)]
pub enum BindingError {
    PlaceHolder,
}

} // verus!
