//! Integer and finite-field arithmetic.

pub mod abel;
pub mod bits;
pub mod fermat;
pub mod galois;
pub mod group;
pub mod modular;
pub mod number;
pub mod poly;
pub mod uint;
