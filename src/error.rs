//! The failures that the primitives of this crate report.
use vstd::prelude::*;

verus! {

/// Why an operation could not produce a result.
#[derive(Clone, Copy, Debug, PartialEq, Eq, Structural)]
pub enum CryptoError {
    /// Division or reduction by zero.
    InvalidOperand,
    /// The operand has no inverse modulo the given modulus.
    NonInvertible,
    /// A message whose length in bits does not fit in 64 bits.
    UnsupportedLength,
    /// Point addition on two points with the same x coordinate.
    DegenerateAddition,
}

} // verus!
