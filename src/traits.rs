//! What the transport reports and what it is told.
use vstd::prelude::*;

verus! {

/// Direction of a substream as the transport reports it.
#[derive(Clone, Copy, Debug, PartialEq, Eq, Structural)]
pub enum Direction {
    /// The remote peer opened the substream.
    Inbound,
    /// The local node opened the substream.
    Outbound,
}

/// Answer to the transport's request to validate an inbound substream.
#[derive(Clone, Copy, Debug, PartialEq, Eq, Structural)]
pub enum ValidationResult {
    /// Keep opening the substream.
    Accept,
    /// Refuse the substream.
    Reject,
}

} // verus!
