//! Random linear network coding over GF(2^8).
//!
//! Original data is split into `k` pieces; an encoder emits coded pieces,
//! each a linear combination of the originals under a coding vector of `k`
//! field coefficients. A recoder combines received coded pieces into new
//! ones without decoding. A decoder collects coded pieces, maintains a
//! reduced-row-echelon matrix by Gaussian elimination, and recovers the
//! original bytes once it holds `k` linearly independent pieces.

pub mod decoder;
pub mod decoder_matrix;
pub mod encoder;
pub mod errors;
pub mod gf256;
pub mod kernels;
pub mod layout;
pub mod random;
pub mod recoder;

pub use errors::RLNCError;
