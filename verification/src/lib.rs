//! Finite-field arithmetic over a prime modulus: the element type,
//! its validated constructor, and the field operations, each with a
//! proved contract over the mathematical residues.

pub mod digits;
pub mod fermat;
pub mod field;
pub mod laws;
pub mod modmath;

pub use field::FieldElement;
pub use field::FieldError;
