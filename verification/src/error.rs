use vstd::prelude::*;

verus! {

/// Why a write was turned down.
#[derive(Debug, Clone, Copy, PartialEq, Eq, Structural)]
pub enum RingBufferError {
    /// The buffer was full before a single byte could be written.
    NoSpaceLeft,
}

} // verus!
