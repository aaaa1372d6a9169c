//! A self-verifying archival pipeline: a reversible keyed byte transform,
//! erasure-coded chunk sets with a compact integrity residual, key ratcheting,
//! access policy, and a signed archive container.
pub mod container;
pub mod digest;
pub mod erasure;
pub mod framing;
pub mod keys;
pub mod policy;
pub mod residual;
pub mod seed;
pub mod sigil;
pub mod transform;

