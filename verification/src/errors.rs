use vstd::prelude::*;

verus! {

/// The closed set of failures this library can report.  Every failure is a
/// deterministic function of the input data; nothing is retried or recovered.
#[derive(Clone, Copy, Debug, PartialEq, Eq, Structural)]
pub enum Error {
    /// A byte sequence violates the ballot property.
    NotALatticeWord,
    /// A weight is not weakly decreasing.
    InvalidContent,
    /// Promotion or cyclic descents were requested for a word whose content
    /// is not rectangular.
    NotRectangular,
}

} // verus!
