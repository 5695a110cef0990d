//! Recursive low-degree extension and full-domain evaluation of polynomials
//! over a prime field, driven by precomputed chains of degree-2 maps.
pub mod correctness;
pub mod ecfft;
pub mod field;
pub mod poly;
pub mod precompute;

pub use ecfft::{
    evaluate_over_domain, exact_log2, EcFftError, EcFftPrecomputation, EcFftPrecomputationStep,
    Matrix,
};
pub use field::{fadd, finv, fmul, fpow, fsub, MODULUS};
pub use poly::evaluate;
pub use precompute::{precompute, EcFftParameters, Isogeny};
