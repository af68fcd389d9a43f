//! The `Visualize` trait.

use vstd::prelude::*;

verus! {

/// The `Visualize` trait abstracts the visual presentation of a node's data.
/// It can be implemented by the node data type of a tree when a custom
/// visualization is desired. Only the `visualize` method is mandatory.
pub trait Visualize {
    /// Returns the string representation of the node's data.
    fn visualize(&self) -> String;

    /// Returns the string representation of the node's data with the help of
    /// the given source text. Default-implemented by calling `visualize`.
    fn visualize_with_source(&self, _source: &str) -> String {
        self.visualize()
    }

    /// When this method returns true the drawer can emphasize the node's
    /// string representation in an implementation-dependent way, i.e. it can
    /// print it bold.
    fn emphasize(&self) -> bool {
        false
    }
}

} // verus!
