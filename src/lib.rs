//! GGH lattice public-key cryptosystem over exact integer matrices.
//!
//! Bases, unimodular transforms, messages and ciphertexts are integer
//! valued; every decision that the scheme takes (determinants, the Hadamard
//! quality threshold, Babai rounding) is made in exact integer arithmetic.
pub mod matrix;
mod random;
pub mod unimodular;
pub mod basis;
pub mod babai;
pub mod ggh;
