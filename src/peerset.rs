//! The peer set: slot budgets, reserved peers, back-offs and the reports of the
//! transport.
use vstd::prelude::*;

use crate::peer_id::PeerId;
use crate::state::{
    holders, lemma_holder_counted, lemma_holders_insert, one_if, Direction, PeerState, Reserved,
};
use crate::table::{PeerList, PeerTable};
use crate::traits;
use crate::traits::ValidationResult;

verus! {

/// Back-off after a substream closes, in milliseconds.
pub const DEFAULT_BACKOFF: u64 = 15_000;

/// Back-off after a substream fails to open, in milliseconds.
pub const OPEN_FAILURE_BACKOFF: u64 = 60_000;

/// Interval between two runs of the slot allocator, in milliseconds.
pub const SLOT_ALLOCATION_FREQUENCY: u64 = 1_000;

/// Reputation change applied when a disconnected peer's back-off expires.
pub const DISCONNECT_ADJUSTMENT: i32 = -256;

/// Reputation change applied when the back-off after an open failure expires.
pub const OPEN_FAILURE_ADJUSTMENT: i32 = -1024;

/// A back-off that ends at `due` (milliseconds) and then reports `adjustment` for `peer`.
#[derive(Clone, Copy, Debug)]
pub struct PendingBackoff {
    pub peer: PeerId,
    pub adjustment: i32,
    pub due: u64,
}

/// Instruction for the transport.
#[derive(Debug)]
pub enum PeersetNotificationCommand {
    /// Open substreams to these peers.
    OpenSubstream { peers: Vec<PeerId> },
    /// Close the substreams to these peers.
    CloseSubstream { peers: Vec<PeerId> },
}

/// An instruction for the transport, as mathematical values.
pub enum Notification {
    Open(Seq<PeerId>),
    Close(Seq<PeerId>),
}

impl View for PeersetNotificationCommand {
    type V = Notification;

    open spec fn view(&self) -> Notification {
        match self {
            PeersetNotificationCommand::OpenSubstream { peers } => Notification::Open(peers@),
            PeersetNotificationCommand::CloseSubstream { peers } => Notification::Close(peers@),
        }
    }
}

/// The view of an optional instruction.
pub open spec fn notification_view(r: Option<PeersetNotificationCommand>) -> Option<Notification> {
    match r {
        Some(c) => Some(c@),
        None => None,
    }
}

/// `r` closes exactly the peers of `peers`, each once.
pub open spec fn closes_exactly(r: Option<Notification>, peers: Set<PeerId>) -> bool {
    match r {
        Some(Notification::Close(s)) => s.no_duplicates() && s.to_set() == peers,
        _ => false,
    }
}

/// Command sent to a [`Peerset`] by the protocols and the peer store.
#[derive(Debug)]
pub enum PeersetCommand {
    /// Replace the reserved set; an empty set is ignored.
    SetReservedPeers { peers: Vec<PeerId> },
    /// Add reserved peers.
    AddReservedPeers { peers: Vec<PeerId> },
    /// Remove reserved peers.
    RemoveReservedPeers { peers: Vec<PeerId> },
    /// Turn reserved-only mode on or off.
    SetReservedOnly { reserved_only: bool },
    /// Disconnect a peer.
    DisconnectPeer { peer: PeerId },
    /// Ask for the reserved set; it is read with [`Peerset::reserved_peers`].
    GetReservedPeers,
}

/// The state `s` of a peer once reserved-only mode is on: unchanged for a reserved peer;
/// otherwise a connected peer is closed and an opening one canceled.
pub open spec fn restrict_state(s: PeerState, reserved: bool) -> PeerState {
    if reserved {
        s
    } else {
        match s {
            PeerState::Connected { direction } => PeerState::Closing { direction },
            PeerState::Opening { direction } => PeerState::Canceled { direction },
            _ => s,
        }
    }
}

/// Runs the back-offs of `bs` in order at time `now`: the new states, the back-offs
/// still pending, and the reputation changes now due. An expired back-off moves its
/// peer from `Backoff` to `Disconnected` and always reports its change.
pub open spec fn expire(peers: Map<PeerId, PeerState>, bs: Seq<PendingBackoff>, now: u64) -> (
    Map<PeerId, PeerState>,
    Seq<PendingBackoff>,
    Seq<(PeerId, i32)>,
)
    decreases bs.len(),
{
    if bs.len() == 0 {
        (peers, Seq::empty(), Seq::empty())
    } else {
        let (m, pending, reports) = expire(peers, bs.drop_last(), now);
        let b = bs.last();
        if b.due <= now {
            let m2 = if m.contains_key(b.peer) && m[b.peer] is Backoff {
                m.insert(b.peer, PeerState::Disconnected)
            } else {
                m
            };
            (m2, pending, reports.push((b.peer, b.adjustment)))
        } else {
            (m, pending.push(b), reports)
        }
    }
}

/// `now + delay`, or the largest time if that does not fit.
pub open spec fn deadline_spec(now: u64, delay: u64) -> u64 {
    if now as int + delay as int > u64::MAX as int {
        u64::MAX
    } else {
        (now + delay) as u64
    }
}

/// `now + delay`, or the largest time if that does not fit.
pub fn deadline(now: u64, delay: u64) -> (r: u64)
    ensures
        r == deadline_spec(now, delay),
{
    if now > u64::MAX - delay {
        u64::MAX
    } else {
        now + delay
    }
}

/// The inbound slot direction.
pub open spec fn inbound_slot() -> Direction {
    Direction::Inbound(Reserved::No)
}

/// The outbound slot direction.
pub open spec fn outbound_slot() -> Direction {
    Direction::Outbound(Reserved::No)
}

/// What a [`Peerset`] holds, as mathematical values.
pub struct PeersetModel {
    pub protocol: Seq<char>,
    pub peers: Map<PeerId, PeerState>,
    pub reserved: Set<PeerId>,
    pub reserved_only: bool,
    pub num_in: nat,
    pub num_out: nat,
    pub max_in: nat,
    pub max_out: nat,
    pub backoffs: Seq<PendingBackoff>,
    pub next_allocation: u64,
}

impl PeersetModel {
    /// The counters agree with the states, stay within their budgets, and every
    /// reserved peer has a state.
    pub open spec fn consistent(self) -> bool {
        &&& self.peers.dom().finite()
        &&& self.num_in == holders(self.peers, inbound_slot()).len()
        &&& self.num_out == holders(self.peers, outbound_slot()).len()
        &&& self.num_in <= self.max_in
        &&& self.num_out <= self.max_out
        &&& self.reserved.subset_of(self.peers.dom())
    }

    /// The same, with `peer` in `state`.
    pub open spec fn with_state(self, peer: PeerId, state: PeerState) -> PeersetModel {
        PeersetModel { peers: self.peers.insert(peer, state), ..self }
    }

    /// The same, with the slot that `held` names given back.
    pub open spec fn release(self, held: Option<Direction>) -> PeersetModel {
        PeersetModel {
            num_in: if held == Some(inbound_slot()) {
                (self.num_in - 1) as nat
            } else {
                self.num_in
            },
            num_out: if held == Some(outbound_slot()) {
                (self.num_out - 1) as nat
            } else {
                self.num_out
            },
            ..self
        }
    }

    /// The same, with one more back-off pending.
    pub open spec fn with_backoff(self, peer: PeerId, adjustment: i32, due: u64) -> PeersetModel {
        PeersetModel {
            backoffs: self.backoffs.push(PendingBackoff { peer, adjustment, due }),
            ..self
        }
    }

    /// The transport confirmed that the substream to `peer` opened: the new model, and
    /// whether the substream is to be kept.
    pub open spec fn opened(self, peer: PeerId) -> (PeersetModel, bool) {
        match self.peers[peer] {
            PeerState::Opening { direction } => (
                self.with_state(peer, PeerState::Connected { direction }),
                true,
            ),
            PeerState::Canceled { direction } => (
                self.with_state(peer, PeerState::Closing { direction }),
                false,
            ),
            _ => (self, false),
        }
    }

    /// The substream to `peer` closed at time `now`.
    pub open spec fn closed(self, peer: PeerId, now: u64) -> PeersetModel {
        self.release(self.peers[peer].held()).with_state(peer, PeerState::Backoff).with_backoff(
            peer,
            DISCONNECT_ADJUSTMENT,
            deadline_spec(now, DEFAULT_BACKOFF),
        )
    }

    /// The substream to `peer` failed to open at time `now`.
    pub open spec fn open_failed(self, peer: PeerId, now: u64) -> PeersetModel {
        self.release(self.peers[peer].held()).with_state(peer, PeerState::Backoff).with_backoff(
            peer,
            OPEN_FAILURE_ADJUSTMENT,
            deadline_spec(now, OPEN_FAILURE_BACKOFF),
        )
    }

    /// The protocol refused the substream of `peer` that had been accepted.
    pub open spec fn rejected(self, peer: PeerId) -> PeersetModel {
        if self.peers.contains_key(peer) && self.peers[peer] is Opening {
            self.release(self.peers[peer].held()).with_state(peer, PeerState::Disconnected)
        } else {
            self
        }
    }

    /// A peer's state once reserved-only mode is turned on: a non-reserved peer that is
    /// connected is closed and one that is opening is canceled.
    pub open spec fn restricted_state(self, peer: PeerId) -> PeerState {
        restrict_state(self.peers[peer], self.reserved.contains(peer))
    }

    /// The non-reserved peers that are connected.
    pub open spec fn connected_non_reserved(self) -> Set<PeerId> {
        self.peers.dom().filter(
            |p: PeerId| !self.reserved.contains(p) && self.peers[p] is Connected,
        )
    }

    /// The effect of turning reserved-only mode on or off; `r` is the instruction
    /// returned.
    pub open spec fn set_reserved_only_post(
        self,
        post: PeersetModel,
        reserved_only: bool,
        r: Option<Notification>,
    ) -> bool {
        if reserved_only {
            &&& post == PeersetModel {
                reserved_only: true,
                peers: Map::new(
                    |p: PeerId| self.peers.contains_key(p),
                    |p: PeerId| self.restricted_state(p),
                ),
                ..self
            }
            &&& closes_exactly(r, self.connected_non_reserved())
        } else {
            post == PeersetModel { reserved_only: false, ..self } && r is None
        }
    }

    /// The effect of replacing the reserved set by the peers of `peers`. An empty
    /// `peers` changes nothing. Otherwise the peers that leave the reserved set are to
    /// be closed (their states are left to the transport's report), and each new
    /// reserved peer without a state starts `Disconnected`.
    pub open spec fn set_reserved_post(
        self,
        post: PeersetModel,
        peers: Seq<PeerId>,
        r: Option<Notification>,
    ) -> bool {
        if peers.len() == 0 {
            post == self && r is None
        } else {
            let gone = self.reserved.difference(peers.to_set());
            &&& post == PeersetModel {
                reserved: peers.to_set(),
                peers: Map::new(
                    |p: PeerId| self.peers.contains_key(p) || peers.contains(p),
                    |p: PeerId| state_or_disconnected(self.peers, p),
                ),
                ..self
            }
            &&& if gone.is_empty() {
                r is None
            } else {
                closes_exactly(r, gone)
            }
        }
    }

    /// Adds the peers of `peers` to the reserved set, in order: the new model and the
    /// peers to dial. A peer that was not reserved and is unknown or `Disconnected` is
    /// dialed as a reserved outbound peer; one already reserved is skipped.
    pub open spec fn add_reserved(self, peers: Seq<PeerId>) -> (PeersetModel, Seq<PeerId>)
        decreases peers.len(),
    {
        if peers.len() == 0 {
            (self, Seq::empty())
        } else {
            let (m, out) = self.add_reserved(peers.drop_last());
            let p = peers.last();
            if m.reserved.contains(p) {
                (m, out)
            } else {
                let m2 = PeersetModel { reserved: m.reserved.insert(p), ..m };
                if !m.peers.contains_key(p) || m.peers[p] is Disconnected {
                    (
                        m2.with_state(
                            p,
                            PeerState::Opening { direction: Direction::Outbound(Reserved::Yes) },
                        ),
                        out.push(p),
                    )
                } else {
                    (m2, out)
                }
            }
        }
    }

    /// Removes the peers of `peers` from the reserved set, in order: the new model and
    /// the peers to close. A connected peer that was reserved is closed, an opening one
    /// is canceled; one that was not reserved is skipped.
    pub open spec fn remove_reserved(self, peers: Seq<PeerId>) -> (PeersetModel, Seq<PeerId>)
        decreases peers.len(),
    {
        if peers.len() == 0 {
            (self, Seq::empty())
        } else {
            let (m, out) = self.remove_reserved(peers.drop_last());
            let p = peers.last();
            if !m.reserved.contains(p) {
                (m, out)
            } else {
                let m2 = PeersetModel { reserved: m.reserved.remove(p), ..m };
                if !m.peers.contains_key(p) {
                    (m2, out)
                } else {
                    match m.peers[p] {
                        PeerState::Connected { direction } => (
                            m2.with_state(p, PeerState::Closing { direction }),
                            out.push(p),
                        ),
                        PeerState::Opening { direction } => (
                            m2.with_state(p, PeerState::Canceled { direction }),
                            out,
                        ),
                        _ => (m2, out),
                    }
                }
            }
        }
    }

    /// Disconnects `peer`: a connected peer is closed, an opening one is canceled, and
    /// any other peer is left as it is.
    pub open spec fn disconnect(self, peer: PeerId) -> (PeersetModel, Option<Notification>) {
        if !self.peers.contains_key(peer) {
            (self, None)
        } else {
            match self.peers[peer] {
                PeerState::Connected { direction } => (
                    self.with_state(peer, PeerState::Closing { direction }),
                    Some(Notification::Close(seq![peer])),
                ),
                PeerState::Opening { direction } => (
                    self.with_state(peer, PeerState::Canceled { direction }),
                    None,
                ),
                _ => (self, None),
            }
        }
    }

    /// The effect of `command`; `r` is the instruction returned.
    pub open spec fn command_post(
        self,
        post: PeersetModel,
        command: PeersetCommand,
        r: Option<Notification>,
    ) -> bool {
        match command {
            PeersetCommand::SetReservedPeers { peers } => self.set_reserved_post(post, peers@, r),
            PeersetCommand::AddReservedPeers { peers } => {
                let (m, out) = self.add_reserved(peers@);
                post == m && r == Some(Notification::Open(out))
            },
            PeersetCommand::RemoveReservedPeers { peers } => {
                let (m, out) = self.remove_reserved(peers@);
                post == m && r == Some(Notification::Close(out))
            },
            PeersetCommand::SetReservedOnly { reserved_only } => self.set_reserved_only_post(
                post,
                reserved_only,
                r,
            ),
            PeersetCommand::DisconnectPeer { peer } => (post, r) == self.disconnect(peer),
            PeersetCommand::GetReservedPeers => post == self && r is None,
        }
    }

    /// The back-offs that have ended by `now` are run: the new model and the reputation
    /// changes to report.
    pub open spec fn backoffs_expired(self, now: u64) -> (PeersetModel, Seq<(PeerId, i32)>) {
        let (peers, pending, reports) = expire(self.peers, self.backoffs, now);
        (PeersetModel { peers, backoffs: pending, ..self }, reports)
    }

    /// Reserved peers that the allocator dials: those that are `Disconnected`.
    pub open spec fn dial_candidates(self) -> Set<PeerId> {
        self.reserved.filter(|p: PeerId| self.peers.contains_key(p) && self.peers[p] is Disconnected)
    }

    /// Peers the peer store is not to offer: all that are not `Disconnected`.
    pub open spec fn busy(self) -> Set<PeerId> {
        self.peers.dom().filter(|p: PeerId| !(self.peers[p] is Disconnected))
    }

    /// Dials the first `n` of `candidates` that are not `banned` and are reserved and
    /// `Disconnected`: the new model and the peers dialed, in order.
    pub open spec fn dial_reserved(self, candidates: Seq<PeerId>, banned: Seq<bool>, n: nat) -> (
        PeersetModel,
        Seq<PeerId>,
    )
        decreases n,
    {
        if n == 0 {
            (self, Seq::empty())
        } else {
            let (m, out) = self.dial_reserved(candidates, banned, (n - 1) as nat);
            let p = candidates[n - 1];
            if !banned[n - 1] && m.reserved.contains(p) && m.peers.contains_key(p)
                && m.peers[p] is Disconnected {
                (
                    m.with_state(p, PeerState::Opening { direction: Direction::Outbound(Reserved::Yes) }),
                    out.push(p),
                )
            } else {
                (m, out)
            }
        }
    }

    /// Can the allocator give `peer` an outbound slot?
    pub open spec fn admits_outbound(self, peer: PeerId) -> bool {
        &&& !self.reserved_only
        &&& self.num_out < self.max_out
        &&& !self.reserved.contains(peer)
        &&& (!self.peers.contains_key(peer) || self.peers[peer] is Disconnected)
    }

    /// Gives outbound slots to the first `n` of `candidates`, in order, each that the
    /// allocator admits: the new model and the peers dialed.
    pub open spec fn dial_outbound(self, candidates: Seq<PeerId>, n: nat) -> (PeersetModel, Seq<PeerId>)
        decreases n,
    {
        if n == 0 {
            (self, Seq::empty())
        } else {
            let (m, out) = self.dial_outbound(candidates, (n - 1) as nat);
            let p = candidates[n - 1];
            if m.admits_outbound(p) {
                (
                    PeersetModel { num_out: m.num_out + 1, ..m }.with_state(
                        p,
                        PeerState::Opening { direction: outbound_slot() },
                    ),
                    out.push(p),
                )
            } else {
                (m, out)
            }
        }
    }

    /// Gives `peer` an inbound slot if it is reserved or a slot is free.
    pub open spec fn admit_inbound(self, peer: PeerId) -> (PeersetModel, ValidationResult) {
        if self.reserved.contains(peer) {
            (
                self.with_state(peer, PeerState::Opening { direction: Direction::Inbound(Reserved::Yes) }),
                ValidationResult::Accept,
            )
        } else if self.num_in < self.max_in {
            (
                PeersetModel { num_in: self.num_in + 1, ..self }.with_state(
                    peer,
                    PeerState::Opening { direction: inbound_slot() },
                ),
                ValidationResult::Accept,
            )
        } else {
            (self.with_state(peer, PeerState::Disconnected), ValidationResult::Reject)
        }
    }

    /// The transport asks whether to accept an inbound substream from `peer`.
    pub open spec fn inbound(self, peer: PeerId) -> (PeersetModel, ValidationResult) {
        let r = self.reserved.contains(peer);
        if !self.peers.contains_key(peer) || self.peers[peer] is Disconnected {
            self.admit_inbound(peer)
        } else {
            match self.peers[peer] {
                PeerState::Opening { direction: Direction::Outbound(Reserved::Yes) } => if r {
                    (
                        self.with_state(
                            peer,
                            PeerState::Opening { direction: Direction::Inbound(Reserved::Yes) },
                        ),
                        ValidationResult::Accept,
                    )
                } else {
                    (self, ValidationResult::Reject)
                },
                PeerState::Opening { direction: Direction::Outbound(Reserved::No) } => if !r {
                    self.release(Some(outbound_slot())).admit_inbound(peer)
                } else {
                    (self, ValidationResult::Reject)
                },
                PeerState::Canceled { direction: Direction::Outbound(reserved) } => (
                    self.release(self.peers[peer].held()).with_state(peer, PeerState::Disconnected),
                    ValidationResult::Reject,
                ),
                _ => (self, ValidationResult::Reject),
            }
        }
    }
}

/// Connection-policy engine for one notification protocol.
pub struct Peerset {
    protocol: String,
    max_out: usize,
    num_out: usize,
    max_in: usize,
    num_in: usize,
    reserved_only: bool,
    reserved_peers: PeerList,
    peers: PeerTable,
    pending_backoffs: Vec<PendingBackoff>,
    next_slot_allocation: u64,
}

impl View for Peerset {
    type V = PeersetModel;

    closed spec fn view(&self) -> PeersetModel {
        PeersetModel {
            protocol: self.protocol@,
            peers: self.peers.view(),
            reserved: self.reserved_peers.view(),
            reserved_only: self.reserved_only,
            num_in: self.num_in as nat,
            num_out: self.num_out as nat,
            max_in: self.max_in as nat,
            max_out: self.max_out as nat,
            backoffs: self.pending_backoffs@,
            next_allocation: self.next_slot_allocation,
        }
    }
}

/// The state of a peer absent from the table counts as `Disconnected`.
pub open spec fn state_or_disconnected(peers: Map<PeerId, PeerState>, peer: PeerId) -> PeerState {
    if peers.contains_key(peer) {
        peers[peer]
    } else {
        PeerState::Disconnected
    }
}

/// Setting one state changes each slot count by what the peer held before and after.
proof fn lemma_set_state(peers: Map<PeerId, PeerState>, p: PeerId, s: PeerState)
    requires
        peers.dom().finite(),
    ensures
        peers.insert(p, s).dom().finite(),
        holders(peers.insert(p, s), inbound_slot()).len() + one_if(
            peers.contains_key(p) && peers[p].held() == Some(inbound_slot()),
        ) == holders(peers, inbound_slot()).len() + one_if(s.held() == Some(inbound_slot())),
        holders(peers.insert(p, s), outbound_slot()).len() + one_if(
            peers.contains_key(p) && peers[p].held() == Some(outbound_slot()),
        ) == holders(peers, outbound_slot()).len() + one_if(s.held() == Some(outbound_slot())),
{
    lemma_holders_insert(peers, p, s, inbound_slot());
    lemma_holders_insert(peers, p, s, outbound_slot());
}

impl Peerset {
    /// Well-formedness: the storage is sound and the model is consistent.
    pub closed spec fn wf(&self) -> bool {
        &&& self.peers.wf()
        &&& self.reserved_peers.wf()
        &&& self@.consistent()
    }

    /// A well-formed peer set has a consistent model.
    pub proof fn lemma_consistent(&self)
        requires
            self.wf(),
        ensures
            self@.consistent(),
    {
    }

    proof fn lemma_wf(&self)
        requires
            self.wf(),
        ensures
            self@.peers.dom().finite(),
            self@.reserved.finite(),
            self.peers.view().dom() == self.peers.keys().to_set(),
            self.reserved_peers.view() == self.reserved_peers.members().to_set(),
            self.peers.keys().no_duplicates(),
            self.reserved_peers.members().no_duplicates(),
            forall|i: int|
                0 <= i < self.peers.keys().len() ==> #[trigger] self.peers.view().contains_key(
                    self.peers.keys()[i],
                ),
            forall|i: int|
                0 <= i < self.reserved_peers.members().len() ==> #[trigger] self.reserved_peers.view().contains(
                    self.reserved_peers.members()[i],
                ),
    {
        self.peers.lemma_keys();
        self.reserved_peers.lemma_members();
    }

    /// Creates a peer set at time `now` (milliseconds). The reserved peers start
    /// disconnected; the first slot allocation is due one allocation interval later.
    pub fn new(
        protocol: String,
        max_out: usize,
        max_in: usize,
        reserved_only: bool,
        reserved_peers: Vec<PeerId>,
        now: u64,
    ) -> (r: Peerset)
        ensures
            r.wf(),
            r@.protocol == protocol@,
            r@.reserved == reserved_peers@.to_set(),
            r@.peers == Map::new(
                |p: PeerId| reserved_peers@.contains(p),
                |p: PeerId| PeerState::Disconnected,
            ),
            r@.reserved_only == reserved_only,
            r@.num_in == 0,
            r@.num_out == 0,
            r@.max_in == max_in,
            r@.max_out == max_out,
            r@.backoffs == Seq::<PendingBackoff>::empty(),
            r@.next_allocation == deadline_spec(now, SLOT_ALLOCATION_FREQUENCY),
    {
        let reserved = PeerList::from_vec(&reserved_peers);
        let mut peers = PeerTable::new();
        let mut i: usize = 0;
        while i < reserved_peers.len()
            invariant
                peers.wf(),
                0 <= i <= reserved_peers@.len(),
                peers.view() == Map::new(
                    |p: PeerId| reserved_peers@.subrange(0, i as int).contains(p),
                    |p: PeerId| PeerState::Disconnected,
                ),
            decreases reserved_peers@.len() - i,
        {
            peers.set(reserved_peers[i], PeerState::Disconnected);
            proof {
                let s0 = reserved_peers@.subrange(0, i as int);
                let s1 = reserved_peers@.subrange(0, i + 1);
                assert(s1 =~= s0.push(reserved_peers@[i as int]));
                assert forall|p: PeerId| s1.contains(p) <==> (s0.contains(p) || p == reserved_peers@[i as int]) by {
                    if s1.contains(p) {
                        let k = choose|k: int| 0 <= k < s1.len() && s1[k] == p;
                        if k < i {
                            assert(s0[k] == p);
                        }
                    }
                    if s0.contains(p) {
                        let k = choose|k: int| 0 <= k < s0.len() && s0[k] == p;
                        assert(s1[k] == p);
                    }
                    if p == reserved_peers@[i as int] {
                        assert(s1[i as int] == p);
                    }
                }
                assert(peers.view() =~= Map::new(
                    |p: PeerId| s1.contains(p),
                    |p: PeerId| PeerState::Disconnected,
                ));
            }
            i = i + 1;
        }
        assert(reserved_peers@.subrange(0, i as int) =~= reserved_peers@);
        let r = Peerset {
            protocol,
            max_out,
            num_out: 0,
            max_in,
            num_in: 0,
            reserved_only,
            reserved_peers: reserved,
            peers,
            pending_backoffs: Vec::new(),
            next_slot_allocation: deadline(now, SLOT_ALLOCATION_FREQUENCY),
        };
        proof {
            r.peers.lemma_keys();
            assert(holders(r@.peers, inbound_slot()) =~= Set::empty());
            assert(holders(r@.peers, outbound_slot()) =~= Set::empty());
        }
        r
    }
}

impl Peerset {
    /// Gives back the slot that `held` names.
    fn release_slot(&mut self, held: Option<Direction>)
        requires
            held == Some(inbound_slot()) ==> old(self).num_in > 0,
            held == Some(outbound_slot()) ==> old(self).num_out > 0,
        ensures
            final(self)@ == old(self)@.release(held),
            final(self).peers == old(self).peers,
            final(self).reserved_peers == old(self).reserved_peers,
    {
        match held {
            Some(Direction::Inbound(Reserved::No)) => {
                self.num_in = self.num_in - 1;
            },
            Some(Direction::Outbound(Reserved::No)) => {
                self.num_out = self.num_out - 1;
            },
            _ => {},
        }
    }

    /// Puts `peer` in `state`.
    fn set_state(&mut self, peer: PeerId, state: PeerState)
        requires
            old(self).peers.wf(),
        ensures
            final(self).peers.wf(),
            final(self)@ == old(self)@.with_state(peer, state),
            final(self).reserved_peers == old(self).reserved_peers,
    {
        self.peers.set(peer, state);
    }

    /// Starts a back-off for `peer`.
    fn push_backoff(&mut self, peer: PeerId, adjustment: i32, due: u64)
        ensures
            final(self)@ == old(self)@.with_backoff(peer, adjustment, due),
            final(self).peers == old(self).peers,
            final(self).reserved_peers == old(self).reserved_peers,
    {
        self.pending_backoffs.push(PendingBackoff { peer, adjustment, due });
    }

    /// Reports that the substream to `peer` opened. The slot was taken when the
    /// substream was initiated or accepted, so no count changes.
    ///
    /// Returns `true` if the substream is to be kept, and `false` if it was canceled
    /// while it was opening and must be closed.
    pub fn report_substream_opened(&mut self, peer: PeerId, _direction: traits::Direction) -> (keep: bool)
        requires
            old(self).wf(),
            old(self)@.peers.contains_key(peer),
            old(self)@.peers[peer] is Opening || old(self)@.peers[peer] is Canceled,
        ensures
            final(self).wf(),
            (final(self)@, keep) == old(self)@.opened(peer),
    {
        proof {
            self.lemma_wf();
        }
        let ghost m = self@;
        match self.peers.get(&peer) {
            Some(PeerState::Opening { direction }) => {
                self.set_state(peer, PeerState::Connected { direction });
                proof {
                    lemma_set_state(m.peers, peer, PeerState::Connected { direction });
                }
                true
            },
            Some(PeerState::Canceled { direction }) => {
                self.set_state(peer, PeerState::Closing { direction });
                proof {
                    lemma_set_state(m.peers, peer, PeerState::Closing { direction });
                }
                false
            },
            _ => false,
        }
    }

    /// Reports at time `now` that the substream to `peer` closed. The slot of a
    /// non-reserved peer is given back and the peer backs off for [`DEFAULT_BACKOFF`].
    pub fn report_substream_closed(&mut self, peer: PeerId, now: u64)
        requires
            old(self).wf(),
            old(self)@.peers.contains_key(peer),
            old(self)@.peers[peer] is Connected || old(self)@.peers[peer] is Closing,
        ensures
            final(self).wf(),
            final(self)@ == old(self)@.closed(peer, now),
    {
        proof {
            self.lemma_wf();
        }
        let ghost m = self@;
        let state = match self.peers.get(&peer) {
            Some(s) => s,
            None => PeerState::Disconnected,
        };
        let held = state.direction();
        proof {
            if held == Some(inbound_slot()) {
                lemma_holder_counted(m.peers, peer, inbound_slot());
            }
            if held == Some(outbound_slot()) {
                lemma_holder_counted(m.peers, peer, outbound_slot());
            }
        }
        self.release_slot(held);
        self.set_state(peer, PeerState::Backoff);
        self.push_backoff(peer, DISCONNECT_ADJUSTMENT, deadline(now, DEFAULT_BACKOFF));
        proof {
            lemma_set_state(m.peers, peer, PeerState::Backoff);
        }
    }

    /// Reports at time `now` that the substream to `peer` failed to open. The slot of a
    /// non-reserved peer is given back and the peer backs off for
    /// [`OPEN_FAILURE_BACKOFF`].
    pub fn report_substream_open_failure(&mut self, peer: PeerId, now: u64)
        requires
            old(self).wf(),
            old(self)@.peers.contains_key(peer),
            old(self)@.peers[peer] is Opening || old(self)@.peers[peer] is Canceled,
        ensures
            final(self).wf(),
            final(self)@ == old(self)@.open_failed(peer, now),
    {
        proof {
            self.lemma_wf();
        }
        let ghost m = self@;
        let state = match self.peers.get(&peer) {
            Some(s) => s,
            None => PeerState::Disconnected,
        };
        let held = state.direction();
        proof {
            if held == Some(inbound_slot()) {
                lemma_holder_counted(m.peers, peer, inbound_slot());
            }
            if held == Some(outbound_slot()) {
                lemma_holder_counted(m.peers, peer, outbound_slot());
            }
        }
        self.release_slot(held);
        self.set_state(peer, PeerState::Backoff);
        self.push_backoff(peer, OPEN_FAILURE_ADJUSTMENT, deadline(now, OPEN_FAILURE_BACKOFF));
        proof {
            lemma_set_state(m.peers, peer, PeerState::Backoff);
        }
    }

    /// Gives `peer` an inbound slot if it is reserved or a slot is free; else leaves it
    /// `Disconnected`.
    fn admit_inbound(&mut self, peer: PeerId, reserved: bool) -> (r: ValidationResult)
        requires
            old(self).peers.wf(),
            reserved == old(self)@.reserved.contains(peer),
            old(self)@.num_in <= old(self)@.max_in,
        ensures
            final(self).peers.wf(),
            final(self).reserved_peers == old(self).reserved_peers,
            (final(self)@, r) == old(self)@.admit_inbound(peer),
    {
        if reserved {
            self.set_state(peer, PeerState::Opening { direction: Direction::Inbound(Reserved::Yes) });
            ValidationResult::Accept
        } else if self.num_in < self.max_in {
            self.num_in = self.num_in + 1;
            self.set_state(peer, PeerState::Opening { direction: Direction::Inbound(Reserved::No) });
            ValidationResult::Accept
        } else {
            self.set_state(peer, PeerState::Disconnected);
            ValidationResult::Reject
        }
    }

    /// Decides on an inbound substream from `peer`.
    ///
    /// A disconnected or unknown peer is accepted if it is reserved or an inbound slot
    /// is free, and rejected otherwise. A peer that was being dialed is moved to the
    /// inbound side, as the transport saw the inbound substream first. A canceled
    /// outbound peer gives back its slot and is rejected, as is a backed-off peer or a
    /// peer in any other state.
    pub fn report_inbound_substream(&mut self, peer: PeerId) -> (r: ValidationResult)
        requires
            old(self).wf(),
        ensures
            final(self).wf(),
            (final(self)@, r) == old(self)@.inbound(peer),
    {
        proof {
            self.lemma_wf();
        }
        let ghost m = self@;
        let reserved = self.reserved_peers.contains(&peer);
        match self.peers.get(&peer) {
            None | Some(PeerState::Disconnected) => {
                let r = self.admit_inbound(peer, reserved);
                proof {
                    lemma_set_state(m.peers, peer, self@.peers[peer]);
                    assert(self@.peers =~= m.peers.insert(peer, self@.peers[peer]));
                }
                r
            },
            Some(PeerState::Opening { direction: Direction::Outbound(Reserved::Yes) }) => {
                if reserved {
                    self.set_state(peer, PeerState::Opening { direction: Direction::Inbound(Reserved::Yes) });
                    proof {
                        lemma_set_state(m.peers, peer, self@.peers[peer]);
                    }
                    ValidationResult::Accept
                } else {
                    ValidationResult::Reject
                }
            },
            Some(PeerState::Opening { direction: Direction::Outbound(Reserved::No) }) => {
                if !reserved {
                    proof {
                        lemma_holder_counted(m.peers, peer, outbound_slot());
                    }
                    self.release_slot(Some(Direction::Outbound(Reserved::No)));
                    let r = self.admit_inbound(peer, reserved);
                    proof {
                        lemma_set_state(m.peers, peer, self@.peers[peer]);
                        assert(self@.peers =~= m.peers.insert(peer, self@.peers[peer]));
                    }
                    r
                } else {
                    ValidationResult::Reject
                }
            },
            Some(PeerState::Canceled { direction: Direction::Outbound(res) }) => {
                let held = Some(Direction::Outbound(res));
                proof {
                    if held == Some(outbound_slot()) {
                        lemma_holder_counted(m.peers, peer, outbound_slot());
                    }
                }
                self.release_slot(held);
                self.set_state(peer, PeerState::Disconnected);
                proof {
                    lemma_set_state(m.peers, peer, PeerState::Disconnected);
                }
                ValidationResult::Reject
            },
            _ => ValidationResult::Reject,
        }
    }

    /// Reports that the protocol refused a substream of `peer` that had been accepted.
    /// An opening peer becomes `Disconnected` and gives back its slot; a peer in any
    /// other state, or an unknown one, is left as it is.
    pub fn report_substream_rejected(&mut self, peer: PeerId)
        requires
            old(self).wf(),
        ensures
            final(self).wf(),
            final(self)@ == old(self)@.rejected(peer),
    {
        proof {
            self.lemma_wf();
        }
        let ghost m = self@;
        match self.peers.get(&peer) {
            Some(PeerState::Opening { direction }) => {
                let held = Some(direction);
                proof {
                    if held == Some(inbound_slot()) {
                        lemma_holder_counted(m.peers, peer, inbound_slot());
                    }
                    if held == Some(outbound_slot()) {
                        lemma_holder_counted(m.peers, peer, outbound_slot());
                    }
                }
                self.release_slot(held);
                self.set_state(peer, PeerState::Disconnected);
                proof {
                    lemma_set_state(m.peers, peer, PeerState::Disconnected);
                }
            },
            _ => {},
        }
    }
}

/// What an appended sequence contains.
proof fn lemma_push_contains(s: Seq<PeerId>, x: PeerId)
    ensures
        forall|q: PeerId| s.push(x).contains(q) <==> (s.contains(q) || q == x),
{
    let t = s.push(x);
    assert forall|q: PeerId| t.contains(q) <==> (s.contains(q) || q == x) by {
        if t.contains(q) {
            let k = choose|k: int| 0 <= k < t.len() && t[k] == q;
            if k < s.len() {
                assert(s[k] == q);
            }
        }
        if s.contains(q) {
            let k = choose|k: int| 0 <= k < s.len() && s[k] == q;
            assert(t[k] == q);
        }
        if q == x {
            assert(t[t.len() - 1] == q);
        }
    }
}

/// The first `i + 1` elements are the first `i` and then the element at `i`.
proof fn lemma_prefix_step(s: Seq<PeerId>, i: int)
    requires
        0 <= i < s.len(),
    ensures
        s.subrange(0, i + 1) == s.subrange(0, i).push(s[i]),
        forall|q: PeerId|
            s.subrange(0, i + 1).contains(q) <==> (s.subrange(0, i).contains(q) || q == s[i]),
{
    assert(s.subrange(0, i + 1) =~= s.subrange(0, i).push(s[i]));
    lemma_push_contains(s.subrange(0, i), s[i]);
}

/// In a sequence without repeats, the element at `i` is not among the first `i`.
proof fn lemma_unique_not_in_prefix(s: Seq<PeerId>, i: int)
    requires
        0 <= i < s.len(),
        s.no_duplicates(),
    ensures
        !s.subrange(0, i).contains(s[i]),
{
    if s.subrange(0, i).contains(s[i]) {
        let k = choose|k: int| 0 <= k < i && s.subrange(0, i)[k] == s[i];
        assert(s[k] == s[i]);
    }
}

/// Closes the non-reserved connected peers of `table` and cancels its non-reserved
/// opening peers; returns the peers closed.
fn close_non_reserved(table: &mut PeerTable, reserved: &PeerList) -> (r: Vec<PeerId>)
    requires
        old(table).wf(),
        reserved.wf(),
    ensures
        final(table).wf(),
        final(table).view() == Map::new(
            |p: PeerId| old(table).view().contains_key(p),
            |p: PeerId| restrict_state(old(table).view()[p], reserved.view().contains(p)),
        ),
        r@.no_duplicates(),
        r@.to_set() == old(table).view().dom().filter(
            |p: PeerId| !reserved.view().contains(p) && old(table).view()[p] is Connected,
        ),
{
    let ghost m = table.view();
    let ghost keys = table.keys();
    proof {
        table.lemma_keys();
    }
    let mut out: Vec<PeerId> = Vec::new();
    let n = table.len();
    let mut i: usize = 0;
    while i < n
        invariant
            table.wf(),
            n == keys.len(),
            keys.no_duplicates(),
            m.dom() == keys.to_set(),
            table.keys() == keys,
            0 <= i <= n,
            table.view() == Map::new(
                |p: PeerId| m.contains_key(p),
                |p: PeerId|
                    if keys.subrange(0, i as int).contains(p) {
                        restrict_state(m[p], reserved.view().contains(p))
                    } else {
                        m[p]
                    },
            ),
            out@.no_duplicates(),
            forall|q: PeerId|
                out@.contains(q) <==> (keys.subrange(0, i as int).contains(q)
                    && !reserved.view().contains(q) && m[q] is Connected),
        decreases n - i,
    {
        let ghost out0 = out@;
        let ghost v0 = table.view();
        proof {
            lemma_prefix_step(keys, i as int);
            lemma_unique_not_in_prefix(keys, i as int);
            assert(keys.to_set().contains(keys[i as int]));
        }
        let (peer, state) = table.entry_at(i);
        assert(state == m[peer]);
        let is_reserved = reserved.contains(&peer);
        if !is_reserved {
            match state {
                PeerState::Connected { direction } => {
                    table.set_at(i, PeerState::Closing { direction });
                    out.push(peer);
                    proof {
                        lemma_push_unique(out0, peer);
                    }
                },
                PeerState::Opening { direction } => {
                    table.set_at(i, PeerState::Canceled { direction });
                },
                _ => {},
            }
        }
        proof {
            assert forall|q: PeerId|
                out@.contains(q) <==> (keys.subrange(0, i + 1).contains(q)
                    && !reserved.view().contains(q) && m[q] is Connected) by {
                if q != peer {
                    assert(out@.contains(q) <==> out0.contains(q));
                }
            }
            assert(table.view() =~= Map::new(
                |p: PeerId| m.contains_key(p),
                |p: PeerId|
                    if keys.subrange(0, i + 1).contains(p) {
                        restrict_state(m[p], reserved.view().contains(p))
                    } else {
                        m[p]
                    },
            ));
        }
        i = i + 1;
    }
    proof {
        assert(keys.subrange(0, i as int) =~= keys);
        assert(table.view() =~= Map::new(
            |p: PeerId| m.contains_key(p),
            |p: PeerId| restrict_state(m[p], reserved.view().contains(p)),
        ));
        assert(out@.to_set() =~= m.dom().filter(
            |p: PeerId| !reserved.view().contains(p) && m[p] is Connected,
        ));
    }
    out
}

/// The members of `list` that are not in `keep`.
fn missing_from(list: &PeerList, keep: &PeerList) -> (r: Vec<PeerId>)
    requires
        list.wf(),
    ensures
        r@.no_duplicates(),
        r@.to_set() == list.view().difference(keep.view()),
{
    let ghost members = list.members();
    proof {
        list.lemma_members();
    }
    let mut out: Vec<PeerId> = Vec::new();
    let mut i: usize = 0;
    while i < list.len()
        invariant
            list.wf(),
            members == list.members(),
            members.no_duplicates(),
            0 <= i <= members.len(),
            out@.no_duplicates(),
            forall|q: PeerId|
                out@.contains(q) <==> (members.subrange(0, i as int).contains(q) && !keep.view().contains(q)),
        decreases members.len() - i,
    {
        let ghost out0 = out@;
        proof {
            lemma_prefix_step(members, i as int);
            lemma_unique_not_in_prefix(members, i as int);
        }
        let peer = list.at(i);
        if !keep.contains(&peer) {
            out.push(peer);
            proof {
                lemma_push_unique(out0, peer);
            }
        }
        proof {
            assert forall|q: PeerId|
                out@.contains(q) <==> (members.subrange(0, i + 1).contains(q) && !keep.view().contains(q)) by {
                if q != peer {
                    assert(out@.contains(q) <==> out0.contains(q));
                }
            }
        }
        i = i + 1;
    }
    proof {
        assert(members.subrange(0, i as int) =~= members);
        assert(out@.to_set() =~= list.view().difference(keep.view()));
    }
    out
}

/// Gives each peer of `peers` that `table` does not know the state `Disconnected`.
fn add_unknown(table: &mut PeerTable, peers: &Vec<PeerId>)
    requires
        old(table).wf(),
    ensures
        final(table).wf(),
        final(table).view() == Map::new(
            |p: PeerId| old(table).view().contains_key(p) || peers@.contains(p),
            |p: PeerId| state_or_disconnected(old(table).view(), p),
        ),
{
    let ghost m = table.view();
    let mut i: usize = 0;
    while i < peers.len()
        invariant
            table.wf(),
            0 <= i <= peers@.len(),
            table.view() == Map::new(
                |p: PeerId| m.contains_key(p) || peers@.subrange(0, i as int).contains(p),
                |p: PeerId| state_or_disconnected(m, p),
            ),
        decreases peers@.len() - i,
    {
        proof {
            lemma_prefix_step(peers@, i as int);
        }
        let peer = peers[i];
        if table.get(&peer).is_none() {
            table.set(peer, PeerState::Disconnected);
        }
        proof {
            assert(table.view() =~= Map::new(
                |p: PeerId| m.contains_key(p) || peers@.subrange(0, i + 1).contains(p),
                |p: PeerId| state_or_disconnected(m, p),
            ));
        }
        i = i + 1;
    }
    proof {
        assert(peers@.subrange(0, i as int) =~= peers@);
    }
}

/// Runs the back-offs of `bs` at time `now` on `table`; returns the back-offs still
/// pending and the reputation changes due.
fn expire_backoffs(table: &mut PeerTable, bs: &Vec<PendingBackoff>, now: u64) -> (r: (
    Vec<PendingBackoff>,
    Vec<(PeerId, i32)>,
))
    requires
        old(table).wf(),
    ensures
        final(table).wf(),
        (final(table).view(), r.0@, r.1@) == expire(old(table).view(), bs@, now),
        final(table).view().dom() == old(table).view().dom(),
        holders(final(table).view(), inbound_slot()) == holders(old(table).view(), inbound_slot()),
        holders(final(table).view(), outbound_slot()) == holders(old(table).view(), outbound_slot()),
{
    let ghost m = table.view();
    let mut pending: Vec<PendingBackoff> = Vec::new();
    let mut reports: Vec<(PeerId, i32)> = Vec::new();
    let mut i: usize = 0;
    while i < bs.len()
        invariant
            table.wf(),
            0 <= i <= bs@.len(),
            (table.view(), pending@, reports@) == expire(m, bs@.subrange(0, i as int), now),
            table.view().dom() == m.dom(),
            holders(table.view(), inbound_slot()) == holders(m, inbound_slot()),
            holders(table.view(), outbound_slot()) == holders(m, outbound_slot()),
        decreases bs@.len() - i,
    {
        proof {
            assert(bs@.subrange(0, i + 1).drop_last() =~= bs@.subrange(0, i as int));
        }
        let ghost v0 = table.view();
        let b = bs[i];
        if b.due <= now {
            match table.get(&b.peer) {
                Some(PeerState::Backoff) => {
                    table.set(b.peer, PeerState::Disconnected);
                    proof {
                        assert(holders(table.view(), inbound_slot()) =~= holders(v0, inbound_slot()));
                        assert(holders(table.view(), outbound_slot()) =~= holders(v0, outbound_slot()));
                        assert(table.view().dom() =~= v0.dom());
                    }
                },
                _ => {},
            }
            reports.push((b.peer, b.adjustment));
        } else {
            pending.push(b);
        }
        i = i + 1;
    }
    proof {
        assert(bs@.subrange(0, i as int) =~= bs@);
    }
    (pending, reports)
}

/// Appending a new element keeps a sequence free of repeats.
proof fn lemma_push_unique(s: Seq<PeerId>, x: PeerId)
    requires
        s.no_duplicates(),
        !s.contains(x),
    ensures
        s.push(x).no_duplicates(),
        forall|q: PeerId| s.push(x).contains(q) <==> (s.contains(q) || q == x),
{
    let t = s.push(x);
    assert forall|a: int, b: int| 0 <= a < b < t.len() implies t[a] != t[b] by {
        if b == t.len() - 1 {
            assert(s.contains(t[a]));
        }
    }
    assert forall|q: PeerId| t.contains(q) <==> (s.contains(q) || q == x) by {
        if t.contains(q) {
            let k = choose|k: int| 0 <= k < t.len() && t[k] == q;
            if k < s.len() {
                assert(s[k] == q);
            }
        }
        if s.contains(q) {
            let k = choose|k: int| 0 <= k < s.len() && s[k] == q;
            assert(t[k] == q);
        }
        if q == x {
            assert(t[t.len() - 1] == q);
        }
    }
}

impl Peerset {
    fn disconnect_peer(&mut self, peer: PeerId) -> (r: Option<PeersetNotificationCommand>)
        requires
            old(self).wf(),
        ensures
            final(self).wf(),
            (final(self)@, notification_view(r)) == old(self)@.disconnect(peer),
    {
        proof {
            self.lemma_wf();
        }
        let ghost m = self@;
        match self.peers.get(&peer) {
            Some(PeerState::Connected { direction }) => {
                self.set_state(peer, PeerState::Closing { direction });
                proof {
                    lemma_set_state(m.peers, peer, PeerState::Closing { direction });
                }
                let mut peers = Vec::new();
                peers.push(peer);
                proof {
                    assert(peers@ =~= seq![peer]);
                }
                Some(PeersetNotificationCommand::CloseSubstream { peers })
            },
            Some(PeerState::Opening { direction }) => {
                self.set_state(peer, PeerState::Canceled { direction });
                proof {
                    lemma_set_state(m.peers, peer, PeerState::Canceled { direction });
                }
                None
            },
            _ => None,
        }
    }

    fn add_reserved_peers(&mut self, peers: &Vec<PeerId>) -> (r: Vec<PeerId>)
        requires
            old(self).wf(),
        ensures
            final(self).wf(),
            (final(self)@, r@) == old(self)@.add_reserved(peers@),
            r@.no_duplicates(),
    {
        let ghost m0 = self@;
        let mut out: Vec<PeerId> = Vec::new();
        let mut i: usize = 0;
        while i < peers.len()
            invariant
                self.wf(),
                0 <= i <= peers@.len(),
                (self@, out@) == m0.add_reserved(peers@.subrange(0, i as int)),
                out@.no_duplicates(),
                forall|q: PeerId| out@.contains(q) ==> self@.reserved.contains(q),
            decreases peers@.len() - i,
        {
            proof {
                self.lemma_wf();
                let s1 = peers@.subrange(0, i + 1);
                assert(s1.drop_last() =~= peers@.subrange(0, i as int));
            }
            let ghost m = self@;
            let ghost out0 = out@;
            let peer = peers[i];
            if self.reserved_peers.insert(peer) {
                let state = self.peers.get(&peer);
                let dial = match state {
                    None => true,
                    Some(PeerState::Disconnected) => true,
                    _ => false,
                };
                if dial {
                    self.set_state(peer, PeerState::Opening { direction: Direction::Outbound(Reserved::Yes) });
                    proof {
                        lemma_set_state(m.peers, peer, PeerState::Opening { direction: Direction::Outbound(Reserved::Yes) });
                    }
                    out.push(peer);
                    proof {
                        lemma_push_unique(out0, peer);
                    }
                }
            }
            proof {
                assert forall|q: PeerId| out@.contains(q) implies self@.reserved.contains(q) by {
                    if out0.contains(q) {
                        assert(m.reserved.contains(q));
                    }
                }
            }
            i = i + 1;
        }
        proof {
            assert(peers@.subrange(0, i as int) =~= peers@);
        }
        out
    }

    fn remove_reserved_peers(&mut self, peers: &Vec<PeerId>) -> (r: Vec<PeerId>)
        requires
            old(self).wf(),
        ensures
            final(self).wf(),
            (final(self)@, r@) == old(self)@.remove_reserved(peers@),
            r@.no_duplicates(),
    {
        let ghost m0 = self@;
        let mut out: Vec<PeerId> = Vec::new();
        let mut i: usize = 0;
        while i < peers.len()
            invariant
                self.wf(),
                0 <= i <= peers@.len(),
                (self@, out@) == m0.remove_reserved(peers@.subrange(0, i as int)),
                out@.no_duplicates(),
                forall|q: PeerId| out@.contains(q) ==> !self@.reserved.contains(q),
            decreases peers@.len() - i,
        {
            proof {
                self.lemma_wf();
                let s1 = peers@.subrange(0, i + 1);
                assert(s1.drop_last() =~= peers@.subrange(0, i as int));
            }
            let ghost m = self@;
            let ghost out0 = out@;
            let peer = peers[i];
            if self.reserved_peers.remove(&peer) {
                match self.peers.get(&peer) {
                    Some(PeerState::Connected { direction }) => {
                        self.set_state(peer, PeerState::Closing { direction });
                        proof {
                            lemma_set_state(m.peers, peer, PeerState::Closing { direction });
                        }
                        out.push(peer);
                        proof {
                            lemma_push_unique(out0, peer);
                        }
                    },
                    Some(PeerState::Opening { direction }) => {
                        self.set_state(peer, PeerState::Canceled { direction });
                        proof {
                            lemma_set_state(m.peers, peer, PeerState::Canceled { direction });
                        }
                    },
                    _ => {},
                }
            }
            proof {
                assert forall|q: PeerId| out@.contains(q) implies !self@.reserved.contains(q) by {
                    if out0.contains(q) {
                        assert(!m.reserved.contains(q));
                    }
                }
            }
            i = i + 1;
        }
        proof {
            assert(peers@.subrange(0, i as int) =~= peers@);
        }
        out
    }
}

impl Peerset {
    fn set_reserved_only(&mut self, reserved_only: bool) -> (r: Option<PeersetNotificationCommand>)
        requires
            old(self).wf(),
        ensures
            final(self).wf(),
            old(self)@.set_reserved_only_post(final(self)@, reserved_only, notification_view(r)),
    {
        let ghost m = self@;
        proof {
            self.lemma_wf();
        }
        self.reserved_only = reserved_only;
        if !reserved_only {
            return None;
        }
        let peers = close_non_reserved(&mut self.peers, &self.reserved_peers);
        proof {
            let new_map = self@.peers;
            assert(new_map =~= Map::new(|p: PeerId| m.peers.contains_key(p), |p: PeerId| m.restricted_state(p)));
            assert(holders(new_map, inbound_slot()) =~= holders(m.peers, inbound_slot()));
            assert(holders(new_map, outbound_slot()) =~= holders(m.peers, outbound_slot()));
            assert(new_map.dom() =~= m.peers.dom());
        }
        Some(PeersetNotificationCommand::CloseSubstream { peers })
    }

    fn set_reserved_peers(&mut self, peers: &Vec<PeerId>) -> (r: Option<PeersetNotificationCommand>)
        requires
            old(self).wf(),
        ensures
            final(self).wf(),
            old(self)@.set_reserved_post(final(self)@, peers@, notification_view(r)),
    {
        let ghost m = self@;
        proof {
            self.lemma_wf();
        }
        if peers.len() == 0 {
            return None;
        }
        let keep = PeerList::from_vec(peers);
        let gone = missing_from(&self.reserved_peers, &keep);
        add_unknown(&mut self.peers, peers);
        self.reserved_peers = keep;
        proof {
            let new_map = self@.peers;
            assert(holders(new_map, inbound_slot()) =~= holders(m.peers, inbound_slot()));
            assert(holders(new_map, outbound_slot()) =~= holders(m.peers, outbound_slot()));
            assert(new_map.dom() =~= m.peers.dom().union(peers@.to_set()));
            assert(self@.reserved.subset_of(new_map.dom()));
        }
        if gone.len() == 0 {
            proof {
                assert(gone@.to_set() =~= Set::empty()) by {
                    assert(gone@ =~= Seq::<PeerId>::empty());
                }
            }
            None
        } else {
            proof {
                assert(gone@.to_set().contains(gone@[0]));
            }
            Some(PeersetNotificationCommand::CloseSubstream { peers: gone })
        }
    }

    /// Carries out one command of the protocols or the peer store, and returns the
    /// instruction for the transport that it gives, if any.
    pub fn on_command(&mut self, command: PeersetCommand) -> (r: Option<PeersetNotificationCommand>)
        requires
            old(self).wf(),
        ensures
            final(self).wf(),
            old(self)@.command_post(final(self)@, command, notification_view(r)),
    {
        match command {
            PeersetCommand::SetReservedPeers { peers } => self.set_reserved_peers(&peers),
            PeersetCommand::AddReservedPeers { peers } => {
                let out = self.add_reserved_peers(&peers);
                Some(PeersetNotificationCommand::OpenSubstream { peers: out })
            },
            PeersetCommand::RemoveReservedPeers { peers } => {
                let out = self.remove_reserved_peers(&peers);
                Some(PeersetNotificationCommand::CloseSubstream { peers: out })
            },
            PeersetCommand::SetReservedOnly { reserved_only } => self.set_reserved_only(reserved_only),
            PeersetCommand::DisconnectPeer { peer } => self.disconnect_peer(peer),
            PeersetCommand::GetReservedPeers => None,
        }
    }
}

impl Peerset {
    /// Runs, at time `now` (milliseconds), every back-off that has ended: a peer still
    /// backed off becomes `Disconnected`. Returns the reputation change of each ended
    /// back-off, in the order the back-offs started, for the peer store.
    pub fn poll_backoffs(&mut self, now: u64) -> (r: Vec<(PeerId, i32)>)
        requires
            old(self).wf(),
        ensures
            final(self).wf(),
            (final(self)@, r@) == old(self)@.backoffs_expired(now),
    {
        proof {
            self.lemma_wf();
        }
        let (pending, reports) = expire_backoffs(&mut self.peers, &self.pending_backoffs, now);
        self.pending_backoffs = pending;
        reports
    }

    /// Is the slot allocator due at time `now`?
    pub fn slot_allocation_due(&self, now: u64) -> (r: bool)
        ensures
            r == (now >= self@.next_allocation),
    {
        now >= self.next_slot_allocation
    }

    /// The reserved peers that are `Disconnected`: the allocator dials those of them
    /// that the peer store has not banned.
    pub fn reserved_dial_candidates(&self) -> (r: Vec<PeerId>)
        requires
            self.wf(),
        ensures
            r@.no_duplicates(),
            r@.to_set() == self@.dial_candidates(),
    {
        proof {
            self.lemma_wf();
        }
        let ghost members = self.reserved_peers.members();
        let mut out: Vec<PeerId> = Vec::new();
        let mut i: usize = 0;
        while i < self.reserved_peers.len()
            invariant
                self.wf(),
                members == self.reserved_peers.members(),
                members.no_duplicates(),
                self@.reserved == members.to_set(),
                0 <= i <= members.len(),
                out@.no_duplicates(),
                forall|q: PeerId|
                    out@.contains(q) <==> (members.subrange(0, i as int).contains(q)
                        && self@.peers.contains_key(q) && self@.peers[q] is Disconnected),
            decreases members.len() - i,
        {
            let ghost out0 = out@;
            proof {
                lemma_prefix_step(members, i as int);
                lemma_unique_not_in_prefix(members, i as int);
            }
            let peer = self.reserved_peers.at(i);
            match self.peers.get(&peer) {
                Some(PeerState::Disconnected) => {
                    out.push(peer);
                    proof {
                        lemma_push_unique(out0, peer);
                    }
                },
                _ => {},
            }
            proof {
                assert forall|q: PeerId|
                    out@.contains(q) <==> (members.subrange(0, i + 1).contains(q)
                        && self@.peers.contains_key(q) && self@.peers[q] is Disconnected) by {
                    if q != peer {
                        assert(out@.contains(q) <==> out0.contains(q));
                    }
                }
            }
            i = i + 1;
        }
        proof {
            assert(members.subrange(0, i as int) =~= members);
            assert(out@.to_set() =~= self@.dial_candidates());
        }
        out
    }

    /// Dials, as reserved outbound peers, the `candidates` that are not flagged in
    /// `banned` and are still reserved and `Disconnected`. Returns the peers dialed.
    pub fn dial_reserved(&mut self, candidates: &Vec<PeerId>, banned: &Vec<bool>) -> (r: Vec<PeerId>)
        requires
            old(self).wf(),
            candidates@.len() == banned@.len(),
        ensures
            final(self).wf(),
            (final(self)@, r@) == old(self)@.dial_reserved(candidates@, banned@, candidates@.len()),
            r@.no_duplicates(),
    {
        let ghost m0 = self@;
        let mut out: Vec<PeerId> = Vec::new();
        let mut i: usize = 0;
        while i < candidates.len()
            invariant
                self.wf(),
                candidates@.len() == banned@.len(),
                0 <= i <= candidates@.len(),
                (self@, out@) == m0.dial_reserved(candidates@, banned@, i as nat),
                out@.no_duplicates(),
                forall|q: PeerId| out@.contains(q) ==> self@.peers.contains_key(q) && !(self@.peers[q] is Disconnected),
            decreases candidates@.len() - i,
        {
            proof {
                self.lemma_wf();
            }
            let ghost m = self@;
            let ghost out0 = out@;
            let peer = candidates[i];
            if !banned[i] && self.reserved_peers.contains(&peer) {
                match self.peers.get(&peer) {
                    Some(PeerState::Disconnected) => {
                        self.set_state(peer, PeerState::Opening { direction: Direction::Outbound(Reserved::Yes) });
                        proof {
                            lemma_set_state(m.peers, peer, PeerState::Opening { direction: Direction::Outbound(Reserved::Yes) });
                        }
                        out.push(peer);
                        proof {
                            lemma_push_unique(out0, peer);
                        }
                    },
                    _ => {},
                }
            }
            proof {
                assert forall|q: PeerId| out@.contains(q) implies self@.peers.contains_key(q) && !(self@.peers[q] is Disconnected) by {
                    if out0.contains(q) {
                        assert(m.peers.contains_key(q));
                    }
                }
            }
            i = i + 1;
        }
        out
    }

    /// What to ask the peer store for: the peers it is not to offer and how many
    /// candidates at most. `None` when reserved-only mode is on or no outbound slot is
    /// free, so that nothing is asked.
    pub fn outbound_request(&self) -> (r: Option<(Vec<PeerId>, usize)>)
        requires
            self.wf(),
        ensures
            r is Some <==> (!self@.reserved_only && self@.num_out < self@.max_out),
            self@.num_out >= self@.max_out ==> r is None,
            match r {
                Some((ignore, limit)) => {
                    &&& limit == self@.max_out - self@.num_out
                    &&& ignore@.no_duplicates()
                    &&& ignore@.to_set() == self@.busy()
                },
                None => true,
            },
    {
        if self.reserved_only || self.num_out >= self.max_out {
            return None;
        }
        proof {
            self.lemma_wf();
        }
        let ghost keys = self.peers.keys();
        let mut ignore: Vec<PeerId> = Vec::new();
        let mut i: usize = 0;
        while i < self.peers.len()
            invariant
                self.wf(),
                keys == self.peers.keys(),
                keys.no_duplicates(),
                self@.peers.dom() == keys.to_set(),
                0 <= i <= keys.len(),
                ignore@.no_duplicates(),
                forall|q: PeerId|
                    ignore@.contains(q) <==> (keys.subrange(0, i as int).contains(q)
                        && !(self@.peers[q] is Disconnected)),
            decreases keys.len() - i,
        {
            let ghost out0 = ignore@;
            proof {
                lemma_prefix_step(keys, i as int);
                lemma_unique_not_in_prefix(keys, i as int);
            }
            let (peer, state) = self.peers.entry_at(i);
            assert(state == self@.peers[peer]);
            if !state.is_available() {
                ignore.push(peer);
                proof {
                    lemma_push_unique(out0, peer);
                }
            }
            proof {
                assert forall|q: PeerId|
                    ignore@.contains(q) <==> (keys.subrange(0, i + 1).contains(q)
                        && !(self@.peers[q] is Disconnected)) by {
                    if q != peer {
                        assert(ignore@.contains(q) <==> out0.contains(q));
                    } else {
                        assert(keys.subrange(0, i + 1).contains(q));
                        assert(!out0.contains(q));
                    }
                }
            }
            i = i + 1;
        }
        proof {
            assert(keys.subrange(0, i as int) =~= keys);
            assert(ignore@.to_set() =~= self@.busy());
        }
        Some((ignore, self.max_out - self.num_out))
    }

    /// Gives outbound slots to the peer store's `candidates`, in order: a candidate is
    /// taken while a slot is free and reserved-only mode is off, if it is not reserved
    /// and is unknown or `Disconnected`. Returns the peers dialed.
    pub fn dial_outbound(&mut self, candidates: &Vec<PeerId>) -> (r: Vec<PeerId>)
        requires
            old(self).wf(),
        ensures
            final(self).wf(),
            (final(self)@, r@) == old(self)@.dial_outbound(candidates@, candidates@.len()),
            r@.no_duplicates(),
    {
        let ghost m0 = self@;
        let mut out: Vec<PeerId> = Vec::new();
        let mut i: usize = 0;
        while i < candidates.len()
            invariant
                self.wf(),
                0 <= i <= candidates@.len(),
                (self@, out@) == m0.dial_outbound(candidates@, i as nat),
                out@.no_duplicates(),
                forall|q: PeerId| out@.contains(q) ==> self@.peers.contains_key(q) && !(self@.peers[q] is Disconnected),
            decreases candidates@.len() - i,
        {
            proof {
                self.lemma_wf();
            }
            let ghost m = self@;
            let ghost out0 = out@;
            let peer = candidates[i];
            if !self.reserved_only && self.num_out < self.max_out && !self.reserved_peers.contains(&peer) {
                let free = match self.peers.get(&peer) {
                    None => true,
                    Some(PeerState::Disconnected) => true,
                    _ => false,
                };
                if free {
                    self.num_out = self.num_out + 1;
                    self.set_state(peer, PeerState::Opening { direction: Direction::Outbound(Reserved::No) });
                    proof {
                        lemma_set_state(m.peers, peer, PeerState::Opening { direction: Direction::Outbound(Reserved::No) });
                    }
                    out.push(peer);
                    proof {
                        lemma_push_unique(out0, peer);
                    }
                }
            }
            proof {
                assert forall|q: PeerId| out@.contains(q) implies self@.peers.contains_key(q) && !(self@.peers[q] is Disconnected) by {
                    if out0.contains(q) {
                        assert(m.peers.contains_key(q));
                    }
                }
            }
            i = i + 1;
        }
        out
    }

    /// Ends a run of the slot allocator at time `now`: the next run is due one interval
    /// later. Returns an instruction to open substreams to the `reserved` peers and
    /// then the `outbound` ones, unless both are empty.
    pub fn finish_slot_allocation(
        &mut self,
        now: u64,
        reserved: Vec<PeerId>,
        outbound: Vec<PeerId>,
    ) -> (r: Option<PeersetNotificationCommand>)
        requires
            old(self).wf(),
        ensures
            final(self).wf(),
            final(self)@ == (PeersetModel {
                next_allocation: deadline_spec(now, SLOT_ALLOCATION_FREQUENCY),
                ..old(self)@
            }),
            notification_view(r) == (if reserved@.len() + outbound@.len() == 0 {
                None
            } else {
                Some(Notification::Open(reserved@ + outbound@))
            }),
    {
        self.next_slot_allocation = deadline(now, SLOT_ALLOCATION_FREQUENCY);
        let mut peers = reserved;
        let mut rest = outbound;
        peers.append(&mut rest);
        if peers.len() == 0 {
            None
        } else {
            Some(PeersetNotificationCommand::OpenSubstream { peers })
        }
    }
}

impl Peerset {
    /// The protocol name given at construction.
    pub fn protocol(&self) -> (r: &String)
        ensures
            r@ == self@.protocol,
    {
        &self.protocol
    }

    /// Number of inbound slots taken.
    pub fn num_in(&self) -> (r: usize)
        ensures
            r == self@.num_in,
    {
        self.num_in
    }

    /// Number of outbound slots taken.
    pub fn num_out(&self) -> (r: usize)
        ensures
            r == self@.num_out,
    {
        self.num_out
    }

    /// Is reserved-only mode on?
    pub fn reserved_only(&self) -> (r: bool)
        ensures
            r == self@.reserved_only,
    {
        self.reserved_only
    }

    /// The state of `peer`, if it is known.
    pub fn state_of(&self, peer: &PeerId) -> (r: Option<PeerState>)
        requires
            self.wf(),
        ensures
            r == (if self@.peers.contains_key(*peer) {
                Some(self@.peers[*peer])
            } else {
                None
            }),
    {
        self.peers.get(peer)
    }

    /// Every known peer with its state, each peer once.
    pub fn peers(&self) -> (r: Vec<(PeerId, PeerState)>)
        requires
            self.wf(),
        ensures
            forall|i: int|
                0 <= i < r@.len() ==> #[trigger] self@.peers.contains_key(r@[i].0) && self@.peers[r@[i].0]
                    == r@[i].1,
            forall|p: PeerId| #[trigger] self@.peers.contains_key(p) ==> exists|i: int| 0 <= i < r@.len() && r@[i].0 == p,
            forall|i: int, j: int| 0 <= i < j < r@.len() ==> r@[i].0 != r@[j].0,
    {
        proof {
            self.lemma_wf();
        }
        let ghost keys = self.peers.keys();
        let mut out: Vec<(PeerId, PeerState)> = Vec::new();
        let mut i: usize = 0;
        while i < self.peers.len()
            invariant
                self.wf(),
                keys == self.peers.keys(),
                keys.no_duplicates(),
                self@.peers.dom() == keys.to_set(),
                0 <= i <= keys.len(),
                out@.len() == i,
                forall|k: int| 0 <= k < i ==> #[trigger] out@[k] == (keys[k], self@.peers[keys[k]]),
            decreases keys.len() - i,
        {
            let entry = self.peers.entry_at(i);
            out.push(entry);
            i = i + 1;
        }
        proof {
            assert forall|p: PeerId| #[trigger] self@.peers.contains_key(p) implies exists|k: int| 0 <= k < out@.len() && out@[k].0 == p by {
                assert(keys.to_set().contains(p));
                let k = choose|k: int| 0 <= k < keys.len() && keys[k] == p;
                assert(out@[k] == (keys[k], self@.peers[keys[k]]));
            }
            assert forall|k: int| 0 <= k < out@.len() implies #[trigger] self@.peers.contains_key(out@[k].0) && self@.peers[out@[k].0] == out@[k].1 by {
                assert(out@[k] == (keys[k], self@.peers[keys[k]]));
                assert(keys.to_set().contains(keys[k]));
            }
            assert forall|a: int, b: int| 0 <= a < b < out@.len() implies out@[a].0 != out@[b].0 by {
                assert(out@[a] == (keys[a], self@.peers[keys[a]]));
                assert(out@[b] == (keys[b], self@.peers[keys[b]]));
            }
        }
        out
    }

    /// The reserved peers, each once.
    pub fn reserved_peers(&self) -> (r: Vec<PeerId>)
        requires
            self.wf(),
        ensures
            r@.no_duplicates(),
            r@.to_set() == self@.reserved,
    {
        proof {
            self.lemma_wf();
        }
        self.reserved_peers.to_vec()
    }
}

} // verus!
