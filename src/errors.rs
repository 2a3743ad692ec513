//! The recoverable errors of a stream.
use vstd::prelude::*;

verus! {

/// Errors that abort a `write` or `end` call.
#[derive(Debug, Clone, Copy, PartialEq, Eq, Structural)]
pub enum Error {
    /// The carry-over buffer would have to grow beyond its fixed capacity.
    BufferCapacityExceeded,
}

} // verus!
