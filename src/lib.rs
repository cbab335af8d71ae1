//! Regev's learning-with-errors encryption over `Z/qZ` and a single-server
//! private information retrieval protocol built on its additive homomorphism.

pub mod element;
pub mod error;
pub mod matrix;
pub mod regev;
