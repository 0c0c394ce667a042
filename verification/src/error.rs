//! Reasons for which an operation on a matrix or a row is refused.

use vstd::prelude::*;

verus! {

/// Why an operation was refused.
#[derive(Debug, Clone, Copy, PartialEq, Eq, Structural)]
pub enum MatrixError {
    /// The row lengths disagree with the stated dimensions, or a width is
    /// larger than a word.
    Dimension,
    /// A bit index or a range of bits lies outside the row.
    Index,
}

} // verus!
