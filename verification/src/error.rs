//! The failures an operation on a snapshot can report.
use vstd::prelude::*;

verus! {

/// Why an operation on a snapshot did not complete.
#[derive(Clone, Copy, Debug, PartialEq, Eq, Structural)]
pub enum Error {
    /// The `len` bytes at `address` do not all lie inside the valid address window.
    OutOfRange { address: u64, len: usize },
    /// The `len` bytes at `address` were not all captured or written before.
    Uninitialized { address: u64, len: usize },
    /// A snapshot holds `found` bytes where `expected` are needed.
    SizeMismatch { expected: usize, found: usize },
    /// The link at `node` was reached a second time before the list's sentinel.
    CorruptList { node: u64 },
    /// A slab has no free slot left.
    Full,
}

/// The outcome of an operation with its value replaced by the value's view.
pub open spec fn seen<A: View>(r: Result<A, Error>) -> Result<A::V, Error> {
    match r {
        Ok(value) => Ok(value@),
        Err(e) => Err(e),
    }
}

} // verus!
