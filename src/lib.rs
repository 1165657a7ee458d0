//! Pairs two channels of camera captures by the timestamp encoded in each
//! file name, and sorts the result into matched, unmatched and empty files.
use vstd::prelude::*;

pub mod timestamp;
pub mod entity;
pub mod collection;
pub mod join;
pub mod plan;
pub mod number;

verus! {

/// Why an operation of the library failed.
#[derive(Debug, Clone, Copy, PartialEq, Eq, Structural)]
pub enum MatchError {
    /// A file name does not start with a timestamp in the fixed form.
    Parse,
    /// A nearest-time lookup or a match was asked of an empty collection.
    EmptyCollection,
    /// A number given as text is not a decimal `u64`.
    InvalidNumber,
}

} // verus!
