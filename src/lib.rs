//! Audio fingerprinting: spectral peak selection, fingerprint hashing,
//! offset-histogram voting and the index-side bookkeeping around them.
pub mod arith;
pub mod fft;
pub mod fingerprint;
pub mod index;
pub mod ranking;
pub mod voting;
pub mod visualization;
