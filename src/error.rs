use vstd::prelude::*;

verus! {

/// The ways an engine operation can fail.
#[derive(Debug, Clone, Copy, PartialEq, Eq, Structural)]
pub enum QError {
    /// Data whose length is not a square of the required shape.
    InvalidDimension,
    /// Operands whose sizes do not fit together.
    DimensionMismatch,
    /// A qubit whose amplitudes are not normalized.
    UnnormalizedState,
    /// Composition of an empty list of qubits.
    EmptyInput,
    /// Renormalization against a vanishing probability.
    DegenerateMeasurement,
}

} // verus!
