//! The ways in which a request to the library can be refused.

use vstd::prelude::*;

verus! {

/// Why an input was refused.
#[derive(Clone, Copy, Debug, PartialEq, Eq, Structural)]
pub enum CubeError {
    /// The text does not hold the integers that the format asks for, or
    /// fewer cube lines than it declares.
    MalformedInput,
    /// A cube has not one entry per variable, or a literal was to be put
    /// where a cube already constrains the variable.
    InvariantViolation,
    /// A variable was named that the cubes do not have.
    IndexOutOfRange,
}

} // verus!
