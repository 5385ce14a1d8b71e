//! The error kinds that the list operations report.

use vstd::prelude::*;

verus! {

/// An operation failed: either an argument could not be read as an integer,
/// or a position lies outside the current list.
#[derive(Clone, Copy, Debug, PartialEq, Eq, Structural)]
pub enum TodoError {
    /// An argument is not a valid integer, or stored text does not parse.
    ParseError,
    /// A position is not between 1 and the length of the list.
    IndexOutOfRange,
}

} // verus!
