use vstd::prelude::*;

verus! {

/// Status of an operation that did not complete.
#[derive(Debug, Clone, Copy, PartialEq, Eq, Structural)]
pub enum Error {
    /// The key is absent, or a removal in progress hid it.
    NotFound,
    /// A node on the path was retired; the operation has to restart from the root.
    Retry,
}

} // verus!
