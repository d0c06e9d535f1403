//! Construction failures. Out-of-range access and unsupported operations
//! are reported as absent-value results by the accessors themselves; only
//! construction from user-supplied data can fail with one of these causes.

use vstd::prelude::*;

verus! {

/// Why constructing a matrix from user-supplied data was rejected.
#[derive(Clone, Copy, Debug, PartialEq, Eq, Structural)]
pub enum MatError {
    /// A diagonal matrix was given more elements than `min(rows, cols)`.
    TooManyElements,
    /// The matrix-literal separator is empty or all whitespace.
    InvalidSeparator,
    /// The matrix-literal string is empty.
    EmptyInput,
    /// A token of the matrix literal does not parse as an entry.
    InvalidToken,
    /// The rows of the matrix literal do not all have the same length.
    InvalidShape,
}

} // verus!
