//! Connection-policy engine for one notification protocol.
//!
//! A [`Peerset`] keeps a bounded population of peers for a gossip protocol: it decides
//! whom to dial, which inbound substreams to accept, whom to evict and when a peer may be
//! tried again. The transport and the peer store are outside the library: their reports
//! come in as arguments and the library's decisions go out as return values.

pub mod peer_id;
pub mod state;
pub mod traits;
mod table;
pub mod peerset;
pub mod laws;

pub use peer_id::PeerId;
pub use peerset::{
    Peerset, PeersetCommand, PeersetNotificationCommand, PendingBackoff, DEFAULT_BACKOFF,
    DISCONNECT_ADJUSTMENT, OPEN_FAILURE_ADJUSTMENT, OPEN_FAILURE_BACKOFF,
    SLOT_ALLOCATION_FREQUENCY,
};
pub use state::{Direction, PeerState, Reserved};
pub use traits::ValidationResult;
