//! What can be wrong with the data a query meets.

use vstd::prelude::*;

verus! {

/// A fault in the repository data, or in an identifier handed in, that stops
/// the query at hand.
#[derive(Clone, Copy, Debug, PartialEq, Eq, Structural)]
pub enum DataError {
    /// A requirement names an operator that is none of the six known ones.
    UnknownOperator,
    /// A version text that had to be compared does not parse.
    MalformedVersion,
    /// An identifier that the universe has no package for.
    UnknownSolvable,
}

} // verus!
