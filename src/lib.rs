//! Variable-base multi-scalar multiplication by the bucket method.
//!
//! The algorithm is generic over any commutative group whose addition
//! implements [`group::AddGroup`]; scalars are fixed-width little-endian limb integers.
pub mod group;
pub mod cyclic;
pub mod scalar;
pub mod msm;
pub mod laws;
pub mod reference;
