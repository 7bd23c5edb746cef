//! A small dense quantum-circuit simulation engine.
//!
//! The engine is generic over the amplitude type: the arithmetic on
//! amplitudes (products, sums, weights, rescaling) is handed in by the
//! caller as closures, and every operation is specified by how its results
//! relate to what those closures may return. The index arithmetic of the
//! tensor structure is fully verified.
use vstd::prelude::*;

pub mod algebra;
pub mod dims;
pub mod error;
pub mod matrix;
pub mod state;

pub use error::QError;
pub use state::{QState, Qubit};

verus! {

/// A classical measurement outcome.
#[derive(Debug, Clone, Copy, PartialEq, Eq, Structural)]
pub enum ClassicalBit {
    Off,
    On,
}

} // verus!
