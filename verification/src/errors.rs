//! The error type of this crate.

use vstd::prelude::*;
use vstd::string::StringExecFns;

verus! {

/// Error type used in this crate.
///
/// The embedding algorithm itself only ever reports a usage error (more than
/// one top-level node) or an invalid input walk; drawers that write files may
/// report I/O problems through the same type.
#[derive(Debug)]
pub enum LayouterError {
    /// A problem while writing the drawing to its output.
    IoError { msg: String },
    /// The given tree walk is not usable.
    TreeError { msg: String },
    /// Any other error, described by a message.
    OtherError { msg: String },
}

impl LayouterError {
    /// Creates an error from a plain description.
    pub fn from_description(description: &str) -> (e: LayouterError)
        ensures
            e matches LayouterError::OtherError { msg } && msg@ == description@,
    {
        LayouterError::OtherError { msg: String::from_str(description) }
    }

    /// Creates an error that reports a problem with the input tree walk.
    pub fn from_tree_description(description: &str) -> (e: LayouterError)
        ensures
            e matches LayouterError::TreeError { msg } && msg@ == description@,
    {
        LayouterError::TreeError { msg: String::from_str(description) }
    }

    /// Creates an error that reports an I/O problem, from a message a drawer
    /// extracted from its underlying error.
    pub fn from_io_description(description: &str) -> (e: LayouterError)
        ensures
            e matches LayouterError::IoError { msg } && msg@ == description@,
    {
        LayouterError::IoError { msg: String::from_str(description) }
    }

    /// The message carried by this error.
    pub fn message(&self) -> (m: &String)
        ensures
            m@ == self.spec_message(),
    {
        match self {
            LayouterError::IoError { msg } => msg,
            LayouterError::TreeError { msg } => msg,
            LayouterError::OtherError { msg } => msg,
        }
    }

    /// The message carried by this error.
    pub open spec fn spec_message(&self) -> Seq<char> {
        match self {
            LayouterError::IoError { msg } => msg@,
            LayouterError::TreeError { msg } => msg@,
            LayouterError::OtherError { msg } => msg@,
        }
    }
}

} // verus!
