//! Arithmetic in the prime field of integers modulo `p`, on 256-bit residues.

pub mod field;
pub mod fermat;
pub mod laws;
pub mod uint256;

pub use field::{FieldElement, FieldError};
pub use uint256::Uint256;
