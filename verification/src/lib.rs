//! A small numeric-matrix library with three storage representations —
//! dense, diagonal, and sparse — sharing one set of element-access and
//! arithmetic operations over an exact rational entry type.

pub mod dense;
pub mod diag;
pub mod entry;
pub mod error;
pub mod parse;
mod random;
pub mod render;
pub mod sparse;
