//! The error types of the reader and of the writer.
use vstd::prelude::*;

verus! {

/// Property list parsing error.
#[derive(Debug, Clone, Copy, PartialEq, Eq)]
pub struct InvalidPropertyList;

/// Same as `core::convert::Infallible`, whose value it would hold: a type with no value,
/// the error type of the writer, which never fails.
#[derive(Debug)]
pub struct Infallible(pub core::convert::Infallible);

} // verus!
