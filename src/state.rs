//! Per-peer connection state.
use vstd::prelude::*;

use crate::peer_id::PeerId;

verus! {

/// Is the peer reserved?
#[derive(Clone, Copy, Debug, PartialEq, Eq, Structural)]
pub enum Reserved {
    Yes,
    No,
}

impl From<bool> for Reserved {
    fn from(value: bool) -> (r: Reserved) {
        if value {
            Reserved::Yes
        } else {
            Reserved::No
        }
    }
}

impl vstd::std_specs::convert::FromSpecImpl<bool> for Reserved {
    open spec fn obeys_from_spec() -> bool {
        true
    }

    open spec fn from_spec(v: bool) -> Reserved {
        if v {
            Reserved::Yes
        } else {
            Reserved::No
        }
    }
}

impl From<Reserved> for bool {
    fn from(value: Reserved) -> (r: bool) {
        match value {
            Reserved::Yes => true,
            Reserved::No => false,
        }
    }
}

impl vstd::std_specs::convert::FromSpecImpl<Reserved> for bool {
    open spec fn obeys_from_spec() -> bool {
        true
    }

    open spec fn from_spec(v: Reserved) -> bool {
        v is Yes
    }
}

/// Direction of a substream, with the peer's reserved status when the substream was
/// initiated.
#[derive(Clone, Copy, Debug, PartialEq, Eq, Structural)]
pub enum Direction {
    /// Inbound substream.
    Inbound(Reserved),
    /// Outbound substream.
    Outbound(Reserved),
}

/// Connection state of one peer.
///
/// A peer in `Opening`, `Connected`, `Canceled` or `Closing` holds a slot of its
/// direction, unless the direction is marked reserved.
#[derive(Clone, Copy, Debug, PartialEq, Eq, Structural)]
pub enum PeerState {
    /// No active substream: the allocator may pick the peer.
    Disconnected,
    /// Recently disconnected or failed: ignored until its back-off expires.
    Backoff,
    /// A substream is being opened and the transport has not confirmed it yet.
    Opening { direction: Direction },
    /// The substream is open.
    Connected { direction: Direction },
    /// Policy changed while the substream was opening: close it once it opens.
    Canceled { direction: Direction },
    /// Close was requested locally and the transport has not confirmed it yet.
    Closing { direction: Direction },
}

impl PeerState {
    /// The direction whose slot the state holds, if it holds one.
    pub open spec fn held(self) -> Option<Direction> {
        match self {
            PeerState::Opening { direction } => Some(direction),
            PeerState::Connected { direction } => Some(direction),
            PeerState::Canceled { direction } => Some(direction),
            PeerState::Closing { direction } => Some(direction),
            _ => None,
        }
    }

    /// The direction whose slot the state holds, if it holds one.
    pub fn direction(&self) -> (r: Option<Direction>)
        ensures
            r == self.held(),
    {
        match self {
            PeerState::Opening { direction } => Some(*direction),
            PeerState::Connected { direction } => Some(*direction),
            PeerState::Canceled { direction } => Some(*direction),
            PeerState::Closing { direction } => Some(*direction),
            _ => None,
        }
    }

    /// Can the allocator pick a peer in this state?
    pub fn is_available(&self) -> (r: bool)
        ensures
            r == (*self is Disconnected),
    {
        match self {
            PeerState::Disconnected => true,
            _ => false,
        }
    }
}

} // verus!

verus! {

/// Peers of `peers` whose state holds a slot of direction `d`.
pub open spec fn holders(peers: Map<PeerId, PeerState>, d: Direction) -> Set<PeerId> {
    peers.dom().filter(|p: PeerId| peers[p].held() == Some(d))
}

/// One if `b` holds, else zero.
pub open spec fn one_if(b: bool) -> nat {
    if b {
        1
    } else {
        0
    }
}

/// Setting one peer's state changes the number of holders of a direction by what that
/// peer held before and holds after.
pub proof fn lemma_holders_insert(
    peers: Map<PeerId, PeerState>,
    p: PeerId,
    s: PeerState,
    d: Direction,
)
    requires
        peers.dom().finite(),
    ensures
        holders(peers, d).finite(),
        holders(peers.insert(p, s), d).finite(),
        holders(peers.insert(p, s), d).len() + one_if(
            peers.contains_key(p) && peers[p].held() == Some(d),
        ) == holders(peers, d).len() + one_if(s.held() == Some(d)),
{
    let f1 = |q: PeerId| peers[q].held() == Some(d);
    let peers2 = peers.insert(p, s);
    let f2 = |q: PeerId| peers2[q].held() == Some(d);
    peers.dom().lemma_len_filter(f1);
    peers2.dom().lemma_len_filter(f2);
    let old_set = holders(peers, d);
    let new_set = holders(peers2, d);
    let base = old_set.remove(p);
    assert(new_set.remove(p) =~= base);
    if s.held() == Some(d) {
        assert(new_set =~= base.insert(p));
    } else {
        assert(new_set =~= base);
    }
    if peers.contains_key(p) && peers[p].held() == Some(d) {
        assert(old_set =~= base.insert(p));
    } else {
        assert(old_set =~= base);
    }
}

/// A peer whose state holds a slot of `d` is among the holders of `d`.
pub proof fn lemma_holder_counted(peers: Map<PeerId, PeerState>, p: PeerId, d: Direction)
    requires
        peers.dom().finite(),
        peers.contains_key(p),
        peers[p].held() == Some(d),
    ensures
        holders(peers, d).len() > 0,
{
    lemma_holders_remove(peers, p, d);
}

/// Removing one peer lowers the number of holders of a direction by what it held.
pub proof fn lemma_holders_remove(peers: Map<PeerId, PeerState>, p: PeerId, d: Direction)
    requires
        peers.dom().finite(),
    ensures
        holders(peers, d).finite(),
        holders(peers.remove(p), d).len() + one_if(
            peers.contains_key(p) && peers[p].held() == Some(d),
        ) == holders(peers, d).len(),
{
    let f1 = |q: PeerId| peers[q].held() == Some(d);
    peers.dom().lemma_len_filter(f1);
    let old_set = holders(peers, d);
    let base = old_set.remove(p);
    assert(holders(peers.remove(p), d) =~= base);
    if peers.contains_key(p) && peers[p].held() == Some(d) {
        assert(old_set =~= base.insert(p));
    } else {
        assert(old_set =~= base);
    }
}

} // verus!
