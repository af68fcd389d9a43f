//! Internal working state of the embedding algorithm.

pub(crate) mod embedder;
pub(crate) mod node;
