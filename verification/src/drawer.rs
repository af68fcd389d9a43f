//! The `Drawer` trait.

use vstd::prelude::*;

use crate::embedding::EmbeddedNode;
use crate::errors::LayouterError;

verus! {

/// By implementing this trait anyone can provide their own drawer, for
/// instance one that draws onto a bitmap. A drawer consumes the finished
/// embedding and writes it to the named output file in its own format.
pub trait Drawer {
    /// Writes the embedding to the file with the given name.
    fn draw(&self, file_name: &str, embedding: &[EmbeddedNode]) -> Result<(), LayouterError>;
}

} // verus!
