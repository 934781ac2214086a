//! The failures that evaluation reports.

use vstd::prelude::*;

verus! {

/// What can go wrong between a line of text and its value.
#[derive(Debug, PartialEq, Eq)]
pub enum LambError {
    /// The text is not a statement; the message says where and why.
    Parse(String),
    /// No file at the path.
    FileNotFound(String),
    /// The identifier has no definition.
    NotDefined(String),
}

} // verus!
