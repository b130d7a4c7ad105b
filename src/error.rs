//! Why an access to a container failed.
use vstd::prelude::*;

verus! {

#[derive(Debug, Clone, Copy, PartialEq, Eq)]
pub enum AccessError {
    /// The index lies past the last element.
    OutOfBounds(usize),
    /// The container holds nothing.
    Empty,
}

} // verus!
