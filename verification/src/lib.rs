//! Pooling of per-token embeddings into one vector per sequence.
//!
//! The crate holds the shape and index logic of the two reductions over a small
//! row-major tensor type; every function carries a machine-checked contract.
pub mod pooling;
pub mod tensor;

pub use crate::pooling::{broadcast_mask, cls, Pooling, PoolingError};
pub use crate::tensor::Tensor;
