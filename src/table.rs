//! Storage behind the peer set: a table of peer states and a set of peers, each kept
//! in a vector without repeated peers.
use vstd::prelude::*;

use crate::peer_id::PeerId;
use crate::state::PeerState;

verus! {

/// Peers and their states.
pub(crate) struct PeerTable {
    peers: Vec<PeerId>,
    states: Vec<PeerState>,
    map: Ghost<Map<PeerId, PeerState>>,
}

impl PeerTable {
    /// The state of each known peer.
    pub(crate) closed spec fn view(&self) -> Map<PeerId, PeerState> {
        self.map@
    }

    /// The known peers, in storage order.
    pub(crate) closed spec fn keys(&self) -> Seq<PeerId> {
        self.peers@
    }

    pub(crate) closed spec fn wf(&self) -> bool {
        &&& self.peers@.len() == self.states@.len()
        &&& self.peers@.no_duplicates()
        &&& forall|i: int|
            0 <= i < self.peers@.len() ==> #[trigger] self.map@.contains_key(self.peers@[i])
                && self.map@[self.peers@[i]] == self.states@[i]
        &&& forall|p: PeerId| #[trigger] self.map@.contains_key(p) ==> self.peers@.contains(p)
    }

    pub(crate) proof fn lemma_keys(&self)
        requires
            self.wf(),
        ensures
            self.view().dom().finite(),
            self.view().dom() == self.keys().to_set(),
            self.keys().no_duplicates(),
            forall|i: int|
                0 <= i < self.keys().len() ==> #[trigger] self.view().contains_key(self.keys()[i]),
    {
        assert(self.view().dom() =~= self.keys().to_set()) by {
            assert forall|p: PeerId| self.keys().contains(p) implies self.map@.contains_key(p) by {
                let i = choose|i: int| 0 <= i < self.peers@.len() && self.peers@[i] == p;
                assert(self.map@.contains_key(self.peers@[i]));
            }
        }
        vstd::seq_lib::seq_to_set_is_finite(self.keys());
    }

    pub(crate) fn new() -> (r: PeerTable)
        ensures
            r.wf(),
            r.view() == Map::<PeerId, PeerState>::empty(),
            r.keys() == Seq::<PeerId>::empty(),
    {
        PeerTable { peers: Vec::new(), states: Vec::new(), map: Ghost(Map::empty()) }
    }

    pub(crate) fn len(&self) -> (r: usize)
        requires
            self.wf(),
        ensures
            r == self.keys().len(),
    {
        self.peers.len()
    }

    /// Index of `peer` in storage order, if it is known.
    pub(crate) fn find(&self, peer: &PeerId) -> (r: Option<usize>)
        requires
            self.wf(),
        ensures
            match r {
                Some(i) => i < self.keys().len() && self.keys()[i as int] == *peer,
                None => !self.view().contains_key(*peer),
            },
    {
        let mut i: usize = 0;
        while i < self.peers.len()
            invariant
                self.wf(),
                0 <= i <= self.peers@.len(),
                forall|j: int| 0 <= j < i ==> self.peers@[j] != *peer,
            decreases self.peers@.len() - i,
        {
            if self.peers[i] == *peer {
                return Some(i);
            }
            i = i + 1;
        }
        None
    }

    /// The peer stored at `i` and its state.
    pub(crate) fn entry_at(&self, i: usize) -> (r: (PeerId, PeerState))
        requires
            self.wf(),
            i < self.keys().len(),
        ensures
            r.0 == self.keys()[i as int],
            self.view().contains_key(r.0),
            r.1 == self.view()[r.0],
    {
        (self.peers[i], self.states[i])
    }

    /// The state of `peer`, if it is known.
    pub(crate) fn get(&self, peer: &PeerId) -> (r: Option<PeerState>)
        requires
            self.wf(),
        ensures
            r == (if self.view().contains_key(*peer) {
                Some(self.view()[*peer])
            } else {
                None
            }),
    {
        match self.find(peer) {
            Some(i) => Some(self.states[i]),
            None => None,
        }
    }

    /// Replaces the state of the peer stored at `i`.
    pub(crate) fn set_at(&mut self, i: usize, state: PeerState)
        requires
            old(self).wf(),
            i < old(self).keys().len(),
        ensures
            final(self).wf(),
            final(self).keys() == old(self).keys(),
            final(self).view() == old(self).view().insert(old(self).keys()[i as int], state),
    {
        let ghost p = self.peers@[i as int];
        self.states.set(i, state);
        self.map = Ghost(self.map@.insert(p, state));
        assert forall|j: int| 0 <= j < self.peers@.len() implies #[trigger] self.map@.contains_key(
            self.peers@[j],
        ) && self.map@[self.peers@[j]] == self.states@[j] by {
            assert(old(self).map@.contains_key(old(self).peers@[j]));
            if j != i {
                assert(self.peers@[j] != p);
            }
        }
    }

    /// Sets the state of `peer`, adding it if it is not known.
    pub(crate) fn set(&mut self, peer: PeerId, state: PeerState)
        requires
            old(self).wf(),
        ensures
            final(self).wf(),
            final(self).view() == old(self).view().insert(peer, state),
    {
        match self.find(&peer) {
            Some(i) => self.set_at(i, state),
            None => {
                self.peers.push(peer);
                self.states.push(state);
                self.map = Ghost(self.map@.insert(peer, state));
                assert forall|j: int| 0 <= j < self.peers@.len() implies #[trigger] self.map@.contains_key(
                    self.peers@[j],
                ) && self.map@[self.peers@[j]] == self.states@[j] by {
                    if j < self.peers@.len() - 1 {
                        assert(old(self).map@.contains_key(self.peers@[j]));
                    }
                }
                assert forall|p: PeerId| #[trigger] self.map@.contains_key(p) implies self.peers@.contains(p) by {
                    if p != peer {
                        assert(old(self).peers@.contains(p));
                        let k = choose|k: int| 0 <= k < old(self).peers@.len() && old(self).peers@[k] == p;
                        assert(self.peers@[k] == p);
                    } else {
                        assert(self.peers@[self.peers@.len() - 1] == p);
                    }
                }
            }
        }
    }
}

/// A set of peers.
pub(crate) struct PeerList {
    peers: Vec<PeerId>,
}

impl PeerList {
    pub(crate) closed spec fn view(&self) -> Set<PeerId> {
        self.peers@.to_set()
    }

    /// The members, in storage order.
    pub(crate) closed spec fn members(&self) -> Seq<PeerId> {
        self.peers@
    }

    pub(crate) closed spec fn wf(&self) -> bool {
        self.peers@.no_duplicates()
    }

    pub(crate) proof fn lemma_members(&self)
        requires
            self.wf(),
        ensures
            self.view().finite(),
            self.view() == self.members().to_set(),
            self.members().no_duplicates(),
            forall|i: int| 0 <= i < self.members().len() ==> #[trigger] self.view().contains(self.members()[i]),
    {
        vstd::seq_lib::seq_to_set_is_finite(self.peers@);
        assert forall|i: int| 0 <= i < self.members().len() implies #[trigger] self.view().contains(self.members()[i]) by {
            assert(self.peers@.contains(self.peers@[i]));
        }
    }

    pub(crate) fn new() -> (r: PeerList)
        ensures
            r.wf(),
            r.view() == Set::<PeerId>::empty(),
    {
        let r = PeerList { peers: Vec::new() };
        assert(r.peers@.to_set() =~= Set::<PeerId>::empty());
        r
    }

    /// The set of the peers in `peers`.
    pub(crate) fn from_vec(peers: &Vec<PeerId>) -> (r: PeerList)
        ensures
            r.wf(),
            r.view() == peers@.to_set(),
    {
        let mut r = PeerList::new();
        let mut i: usize = 0;
        while i < peers.len()
            invariant
                r.wf(),
                0 <= i <= peers@.len(),
                r.view() == peers@.subrange(0, i as int).to_set(),
            decreases peers@.len() - i,
        {
            r.insert(peers[i]);
            proof {
                assert(peers@.subrange(0, i + 1) =~= peers@.subrange(0, i as int).push(peers@[i as int]));
                peers@.subrange(0, i as int).lemma_push_to_set_commute(peers@[i as int]);
            }
            i = i + 1;
        }
        assert(peers@.subrange(0, i as int) =~= peers@);
        r
    }

    pub(crate) fn len(&self) -> (r: usize)
        ensures
            r == self.members().len(),
    {
        self.peers.len()
    }

    pub(crate) fn at(&self, i: usize) -> (r: PeerId)
        requires
            i < self.members().len(),
        ensures
            r == self.members()[i as int],
    {
        self.peers[i]
    }

    fn index_of(&self, peer: &PeerId) -> (r: Option<usize>)
        ensures
            match r {
                Some(i) => i < self.peers@.len() && self.peers@[i as int] == *peer,
                None => !self.peers@.contains(*peer),
            },
    {
        let mut i: usize = 0;
        while i < self.peers.len()
            invariant
                0 <= i <= self.peers@.len(),
                forall|j: int| 0 <= j < i ==> self.peers@[j] != *peer,
            decreases self.peers@.len() - i,
        {
            if self.peers[i] == *peer {
                return Some(i);
            }
            i = i + 1;
        }
        None
    }

    pub(crate) fn contains(&self, peer: &PeerId) -> (r: bool)
        ensures
            r == self.view().contains(*peer),
    {
        self.index_of(peer).is_some()
    }

    /// Adds `peer`; tells whether it was absent.
    pub(crate) fn insert(&mut self, peer: PeerId) -> (r: bool)
        requires
            old(self).wf(),
        ensures
            final(self).wf(),
            r == !old(self).view().contains(peer),
            final(self).view() == old(self).view().insert(peer),
            !r ==> final(self).view() == old(self).view(),
    {
        if self.contains(&peer) {
            assert(self.view() =~= self.view().insert(peer));
            false
        } else {
            self.peers.push(peer);
            proof {
                old(self).peers@.lemma_push_to_set_commute(peer);
                assert forall|a: int, b: int| 0 <= a < b < self.peers@.len() implies self.peers@[a] != self.peers@[b] by {
                    if b == self.peers@.len() - 1 {
                        assert(old(self).peers@.contains(self.peers@[a]));
                    }
                }
            }
            true
        }
    }

    /// Removes `peer`; tells whether it was present.
    pub(crate) fn remove(&mut self, peer: &PeerId) -> (r: bool)
        requires
            old(self).wf(),
        ensures
            final(self).wf(),
            r == old(self).view().contains(*peer),
            final(self).view() == old(self).view().remove(*peer),
            !r ==> final(self).view() == old(self).view(),
    {
        match self.index_of(peer) {
            Some(i) => {
                let ghost before = self.peers@;
                self.peers.remove(i);
                proof {
                    assert(self.peers@ =~= before.remove(i as int));
                    assert forall|a: int, b: int| 0 <= a < b < self.peers@.len() implies self.peers@[a] != self.peers@[b] by {
                        let a0 = if a < i { a } else { a + 1 };
                        let b0 = if b < i { b } else { b + 1 };
                        assert(before[a0] != before[b0]);
                    }
                    assert forall|q: PeerId| #[trigger] self.peers@.contains(q) <==> (before.contains(q) && q != *peer) by {
                        if self.peers@.contains(q) {
                            let k = choose|k: int| 0 <= k < self.peers@.len() && self.peers@[k] == q;
                            let k0 = if k < i { k } else { k + 1 };
                            assert(before[k0] == q);
                            assert(k0 != i);
                        }
                        if before.contains(q) && q != *peer {
                            let k = choose|k: int| 0 <= k < before.len() && before[k] == q;
                            assert(k != i);
                            let k1 = if k < i { k } else { k - 1 };
                            assert(self.peers@[k1] == q);
                        }
                    }
                    assert(self.view() =~= old(self).view().remove(*peer));
                }
                true
            },
            None => {
                assert(self.view() =~= self.view().remove(*peer));
                false
            },
        }
    }

    /// The members, as a vector.
    pub(crate) fn to_vec(&self) -> (r: Vec<PeerId>)
        ensures
            r@ == self.members(),
    {
        self.peers.clone()
    }
}

} // verus!
