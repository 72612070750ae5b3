//! Fixed-width 256-bit arithmetic, modular arithmetic over it, affine
//! elliptic-curve point addition, and the SHA-256 digest.
pub mod error;
pub mod arithmetic256;
pub mod sha256;
pub mod ecc;
pub mod text;
