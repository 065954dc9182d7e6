//! Properties of the peer set that relate several operations or hold in every state.
use vstd::prelude::*;

use crate::peer_id::PeerId;
use crate::peerset::{inbound_slot, outbound_slot, Notification, Peerset, PeersetModel};
use crate::state::{holders, one_if, Direction, Reserved};
use crate::traits::ValidationResult;

verus! {

/// In every state, the inbound count is the number of peers holding a non-reserved
/// inbound slot (opening, connected, canceled or closing), and likewise outbound.
pub proof fn lemma_counts_match_states(p: &Peerset)
    requires
        p.wf(),
    ensures
        p@.num_in == holders(p@.peers, inbound_slot()).len(),
        p@.num_out == holders(p@.peers, outbound_slot()).len(),
{
    p.lemma_consistent();
}

/// In every state, neither count exceeds its budget.
pub proof fn lemma_within_budget(p: &Peerset)
    requires
        p.wf(),
    ensures
        p@.num_in <= p@.max_in,
        p@.num_out <= p@.max_out,
{
    p.lemma_consistent();
}

/// In every state, every reserved peer has a state.
pub proof fn lemma_reserved_are_known(p: &Peerset)
    requires
        p.wf(),
    ensures
        forall|q: PeerId| p@.reserved.contains(q) ==> p@.peers.contains_key(q),
{
    p.lemma_consistent();
}

/// Once reserved-only mode is turned on, no non-reserved peer is connected.
pub proof fn lemma_reserved_only_disconnects(
    m: PeersetModel,
    post: PeersetModel,
    r: Option<Notification>,
)
    requires
        m.set_reserved_only_post(post, true, r),
    ensures
        forall|q: PeerId|
            post.peers.contains_key(q) && !post.reserved.contains(q) ==> !(post.peers[q] is Connected),
{
}

/// No peer is counted as both inbound and outbound.
pub proof fn lemma_counted_once(p: &Peerset)
    requires
        p.wf(),
    ensures
        forall|q: PeerId|
            !(holders(p@.peers, inbound_slot()).contains(q) && holders(
                p@.peers,
                outbound_slot(),
            ).contains(q)),
{
}

proof fn lemma_add_reserved_set(m: PeersetModel, s: Seq<PeerId>)
    ensures
        m.add_reserved(s).0.reserved == m.reserved.union(s.to_set()),
    decreases s.len(),
{
    if s.len() > 0 {
        lemma_add_reserved_set(m, s.drop_last());
        assert(s.to_set() =~= s.drop_last().to_set().insert(s.last())) by {
            assert(s =~= s.drop_last().push(s.last()));
            s.drop_last().lemma_push_to_set_commute(s.last());
        }
        assert(m.add_reserved(s).0.reserved =~= m.reserved.union(s.to_set()));
    } else {
        assert(m.reserved.union(s.to_set()) =~= m.reserved);
    }
}

proof fn lemma_remove_reserved_set(m: PeersetModel, s: Seq<PeerId>)
    ensures
        m.remove_reserved(s).0.reserved == m.reserved.difference(s.to_set()),
    decreases s.len(),
{
    if s.len() > 0 {
        lemma_remove_reserved_set(m, s.drop_last());
        assert(s.to_set() =~= s.drop_last().to_set().insert(s.last())) by {
            assert(s =~= s.drop_last().push(s.last()));
            s.drop_last().lemma_push_to_set_commute(s.last());
        }
        assert(m.remove_reserved(s).0.reserved =~= m.reserved.difference(s.to_set()));
    } else {
        assert(m.reserved.difference(s.to_set()) =~= m.reserved);
    }
}

/// Adding reserved peers that were not reserved and then removing them again gives
/// back the reserved set as it was.
pub proof fn lemma_add_then_remove_reserved(m: PeersetModel, peers: Seq<PeerId>)
    requires
        forall|q: PeerId| peers.contains(q) ==> !m.reserved.contains(q),
    ensures
        m.add_reserved(peers).0.remove_reserved(peers).0.reserved == m.reserved,
{
    let m1 = m.add_reserved(peers).0;
    lemma_add_reserved_set(m, peers);
    lemma_remove_reserved_set(m1, peers);
    assert(m1.remove_reserved(peers).0.reserved =~= m.reserved);
}

/// A substream that opens and then closes leaves its peer backed off, with each count
/// lowered by the slot the peer held and by nothing else; a reserved peer holds none,
/// so both counts are as they were.
pub proof fn lemma_open_then_close(m: PeersetModel, peer: PeerId, now: u64)
    requires
        m.consistent(),
        m.peers.contains_key(peer),
        m.peers[peer] is Opening || m.peers[peer] is Canceled,
    ensures
        ({
            let m2 = m.opened(peer).0.closed(peer, now);
            let held = m.peers[peer].held();
            &&& m2.peers[peer] is Backoff
            &&& m2.num_in + one_if(held == Some(inbound_slot())) == m.num_in
            &&& m2.num_out + one_if(held == Some(outbound_slot())) == m.num_out
            &&& (held == Some(Direction::Inbound(Reserved::Yes)) || held == Some(
                Direction::Outbound(Reserved::Yes),
            )) ==> m2.num_in == m.num_in && m2.num_out == m.num_out
        }),
{
    let held = m.peers[peer].held();
    if held == Some(inbound_slot()) {
        crate::state::lemma_holder_counted(m.peers, peer, inbound_slot());
    }
    if held == Some(outbound_slot()) {
        crate::state::lemma_holder_counted(m.peers, peer, outbound_slot());
    }
}

/// Disconnecting a peer a second time changes nothing and gives no instruction.
pub proof fn lemma_disconnect_twice(m: PeersetModel, peer: PeerId)
    ensures
        m.disconnect(peer).0.disconnect(peer) == (m.disconnect(peer).0, None::<Notification>),
{
}

/// When every inbound slot is taken, an inbound substream from a non-reserved peer
/// that is unknown or `Disconnected` is rejected and no count changes.
pub proof fn lemma_inbound_full(m: PeersetModel, peer: PeerId)
    requires
        m.num_in == m.max_in,
        !m.reserved.contains(peer),
        !m.peers.contains_key(peer) || m.peers[peer] is Disconnected,
    ensures
        m.inbound(peer).1 == ValidationResult::Reject,
        m.inbound(peer).0.num_in == m.num_in,
        m.inbound(peer).0.num_out == m.num_out,
{
}

/// Replacing the reserved set by an empty set changes nothing.
pub proof fn lemma_empty_reserved_set_ignored(
    m: PeersetModel,
    post: PeersetModel,
    r: Option<Notification>,
)
    requires
        m.set_reserved_post(post, Seq::empty(), r),
    ensures
        post == m,
        r is None,
{
}

} // verus!
