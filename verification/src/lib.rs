pub mod bits;
pub mod cx;
pub mod driver;
pub mod laws;
pub mod pure;
pub mod tableau;

use vstd::prelude::*;

verus! {

/// Failures reported by the simulation engines.
#[derive(Clone, Copy, PartialEq, Eq, Structural, Debug)]
pub enum QError {
    /// A unitary's dimension does not match the state's dimension.
    DimensionMismatch,
    /// An operation names a qubit position outside the declared register.
    UnknownQubitReference,
    /// A code or generator specification is malformed (for example, zero qubits).
    InvalidCodeConfiguration,
    /// An operation name is not recognized.
    UnsupportedOperation,
}

} // verus!
