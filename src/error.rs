//! Errors of parsing a timesheet.

use vstd::prelude::*;

verus! {

/// Why a timesheet could not be read.
#[derive(Clone, Copy, Debug, PartialEq, Eq, Structural)]
pub enum ParseError {
    /// A date line does not hold a valid calendar date.
    DateParse,
    /// An entry line was recognised but its numbers are out of range.
    MalformedEntry,
}

} // verus!
