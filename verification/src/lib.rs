//! Gaussian discriminant analysis over two-dimensional observations,
//! carried out in exact rational arithmetic.
//!
//! The estimation pipeline (class prior, per-class means, pooled covariance),
//! matrix inversion, the quadratic form of the Gaussian density, and the
//! posterior combination are all closed-form rational computations and are
//! verified exactly here. Only the transcendental factors of the density
//! (the square root and the exponential) are left to the caller.

pub mod density;
pub mod error;
pub mod estimate;
pub mod linalg;
pub mod rational;
