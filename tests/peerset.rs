use peerset::traits;
use peerset::{
    Direction, PeerId, PeerState, Peerset, PeersetCommand, PeersetNotificationCommand, Reserved,
    ValidationResult, OPEN_FAILURE_ADJUSTMENT,
};

fn peer(n: u8) -> PeerId {
    let mut bytes = [0u8; 32];
    bytes[0] = n;
    bytes[31] = n.wrapping_mul(7);
    PeerId::from_bytes(bytes)
}

/// One step of the peer set at time `now`: back-offs, then the command if any, then
/// the slot allocator with `store` as the peer store's candidates (none banned).
fn step(
    peerset: &mut Peerset,
    now: u64,
    command: Option<PeersetCommand>,
    store: &Vec<PeerId>,
) -> (Vec<(PeerId, i32)>, Option<PeersetNotificationCommand>) {
    let reports = peerset.poll_backoffs(now);
    if let Some(command) = command {
        if let Some(out) = peerset.on_command(command) {
            return (reports, Some(out));
        }
    }
    if peerset.slot_allocation_due(now) {
        let candidates = peerset.reserved_dial_candidates();
        let banned = vec![false; candidates.len()];
        let reserved = peerset.dial_reserved(&candidates, &banned);
        let outbound = match peerset.outbound_request() {
            Some((ignore, limit)) => {
                let offered: Vec<PeerId> =
                    store.iter().filter(|p| !ignore.contains(p)).take(limit).cloned().collect();
                peerset.dial_outbound(&offered)
            },
            None => Vec::new(),
        };
        return (reports, peerset.finish_slot_allocation(now, reserved, outbound));
    }
    (reports, None)
}

fn open_peers(cmd: Option<PeersetNotificationCommand>) -> Vec<PeerId> {
    match cmd {
        Some(PeersetNotificationCommand::OpenSubstream { peers }) => peers,
        event => panic!("invalid event: {event:?}"),
    }
}

fn close_peers(cmd: Option<PeersetNotificationCommand>) -> Vec<PeerId> {
    match cmd {
        Some(PeersetNotificationCommand::CloseSubstream { peers }) => peers,
        event => panic!("invalid event: {event:?}"),
    }
}

fn new_peerset(reserved_only: bool, reserved: Vec<PeerId>) -> Peerset {
    Peerset::new("/notif/1".to_string(), 25, 25, reserved_only, reserved, 0)
}

#[test]
fn inbound_substream_for_outbound_peer() {
    let peers = vec![peer(1), peer(2), peer(3)];
    let inbound_peer = peers[0];
    let mut peerset = new_peerset(false, Vec::new());
    assert_eq!(peerset.num_in(), 0usize);
    assert_eq!(peerset.num_out(), 0usize);

    let out_peers = open_peers(step(&mut peerset, 1_000, None, &peers).1);
    assert_eq!(out_peers.len(), 3usize);
    assert_eq!(peerset.num_in(), 0usize);
    assert_eq!(peerset.num_out(), 3usize);
    assert_eq!(
        peerset.state_of(&inbound_peer),
        Some(PeerState::Opening { direction: Direction::Outbound(Reserved::No) })
    );

    assert_eq!(peerset.report_inbound_substream(inbound_peer), ValidationResult::Accept);
    assert_eq!(peerset.num_in(), 1usize);
    assert_eq!(peerset.num_out(), 2usize);
    assert_eq!(
        peerset.state_of(&inbound_peer),
        Some(PeerState::Opening { direction: Direction::Inbound(Reserved::No) })
    );
}

#[test]
fn canceled_peer_gets_banned() {
    let peers = vec![peer(1), peer(2), peer(3)];
    let mut peerset = new_peerset(true, peers.clone());
    assert_eq!(peerset.num_in(), 0usize);
    assert_eq!(peerset.num_out(), 0usize);

    let out_peers = open_peers(step(&mut peerset, 1_000, None, &Vec::new()).1);
    assert_eq!(peerset.num_in(), 0usize);
    assert_eq!(peerset.num_out(), 0usize);
    assert_eq!(out_peers.len(), 3);
    for outbound_peer in &out_peers {
        assert!(peers.contains(outbound_peer));
        assert_eq!(
            peerset.state_of(outbound_peer),
            Some(PeerState::Opening { direction: Direction::Outbound(Reserved::Yes) })
        );
    }

    let command = PeersetCommand::RemoveReservedPeers { peers: peers.clone() };
    let out_peers = close_peers(step(&mut peerset, 1_001, Some(command), &Vec::new()).1);
    assert!(out_peers.is_empty());

    for (_, state) in peerset.peers() {
        assert_eq!(state, PeerState::Canceled { direction: Direction::Outbound(Reserved::Yes) });
    }
    assert!(peerset.reserved_peers().is_empty());
}

#[test]
fn peer_added_and_removed_from_peerset() {
    let mut peerset = new_peerset(true, Vec::new());
    assert_eq!(peerset.num_in(), 0usize);
    assert_eq!(peerset.num_out(), 0usize);

    let peers = vec![peer(1), peer(2), peer(3)];
    let command = PeersetCommand::AddReservedPeers { peers: peers.clone() };
    let out_peers = open_peers(step(&mut peerset, 0, Some(command), &Vec::new()).1);
    assert_eq!(peerset.num_in(), 0usize);
    assert_eq!(peerset.num_out(), 0usize);
    assert_eq!(out_peers.len(), 3);
    for outbound_peer in &out_peers {
        assert!(peers.contains(outbound_peer));
        assert!(peerset.reserved_peers().contains(outbound_peer));
        assert_eq!(
            peerset.state_of(outbound_peer),
            Some(PeerState::Opening { direction: Direction::Outbound(Reserved::Yes) })
        );
    }

    for p in &peers {
        assert!(peerset.report_substream_opened(*p, traits::Direction::Outbound));
        assert_eq!(
            peerset.state_of(p),
            Some(PeerState::Connected { direction: Direction::Outbound(Reserved::Yes) })
        );
    }

    let command = PeersetCommand::RemoveReservedPeers { peers: peers.clone() };
    let out_peers = close_peers(step(&mut peerset, 0, Some(command), &Vec::new()).1);
    assert!(!out_peers.is_empty());
    for p in &out_peers {
        assert!(peers.contains(p));
        assert!(!peerset.reserved_peers().contains(p));
        assert_eq!(
            peerset.state_of(p),
            Some(PeerState::Closing { direction: Direction::Outbound(Reserved::Yes) })
        );
    }

    // the peers are closing, so adding them again opens nothing
    let command = PeersetCommand::AddReservedPeers { peers: peers.clone() };
    let out_peers = open_peers(step(&mut peerset, 0, Some(command), &Vec::new()).1);
    assert!(out_peers.is_empty());
    for p in &peers {
        assert!(peerset.reserved_peers().contains(p));
        assert_eq!(
            peerset.state_of(p),
            Some(PeerState::Closing { direction: Direction::Outbound(Reserved::Yes) })
        );
    }

    // removing them again leaves them closing
    let command = PeersetCommand::RemoveReservedPeers { peers: peers.clone() };
    let out_peers = close_peers(step(&mut peerset, 0, Some(command), &Vec::new()).1);
    assert!(out_peers.is_empty());
    for p in &peers {
        assert!(!peerset.reserved_peers().contains(p));
        assert_eq!(
            peerset.state_of(p),
            Some(PeerState::Closing { direction: Direction::Outbound(Reserved::Yes) })
        );
    }
}

#[test]
fn backoff_blocks_inbound() {
    let mut peerset = new_peerset(true, Vec::new());
    let peers = vec![peer(1), peer(2), peer(3)];
    let command = PeersetCommand::AddReservedPeers { peers: peers.clone() };
    open_peers(step(&mut peerset, 0, Some(command), &Vec::new()).1);
    for p in &peers {
        assert!(peerset.report_substream_opened(*p, traits::Direction::Outbound));
    }
    let command = PeersetCommand::RemoveReservedPeers { peers: peers.clone() };
    assert_eq!(close_peers(step(&mut peerset, 0, Some(command), &Vec::new()).1).len(), 3);

    peerset.report_substream_closed(peers[0], 10);
    assert_eq!(peerset.state_of(&peers[0]), Some(PeerState::Backoff));
    assert_eq!(peerset.report_inbound_substream(peers[0]), ValidationResult::Reject);
    assert_eq!(peerset.state_of(&peers[0]), Some(PeerState::Backoff));
    assert_eq!(peerset.num_in(), 0);
    assert_eq!(peerset.num_out(), 0);
}

#[test]
fn open_failure_charges_reputation_after_backoff() {
    let x = peer(9);
    let mut peerset = Peerset::new("/notif/1".to_string(), 1, 25, false, Vec::new(), 0);
    let out_peers = open_peers(step(&mut peerset, 1_000, None, &vec![x]).1);
    assert_eq!(out_peers, vec![x]);
    assert_eq!(
        peerset.state_of(&x),
        Some(PeerState::Opening { direction: Direction::Outbound(Reserved::No) })
    );
    assert_eq!(peerset.num_out(), 1);

    peerset.report_substream_open_failure(x, 1_500);
    assert_eq!(peerset.state_of(&x), Some(PeerState::Backoff));
    assert_eq!(peerset.num_out(), 0);

    // not yet expired
    assert!(peerset.poll_backoffs(61_499).is_empty());
    assert_eq!(peerset.state_of(&x), Some(PeerState::Backoff));

    let reports = peerset.poll_backoffs(61_500);
    assert_eq!(reports, vec![(x, OPEN_FAILURE_ADJUSTMENT)]);
    assert_eq!(reports[0].1, -1024);
    assert_eq!(peerset.state_of(&x), Some(PeerState::Disconnected));
    assert!(peerset.poll_backoffs(100_000).is_empty());
}

#[test]
fn closed_substream_charges_disconnect_adjustment() {
    let x = peer(4);
    let mut peerset = new_peerset(false, Vec::new());
    open_peers(step(&mut peerset, 1_000, None, &vec![x]).1);
    assert!(peerset.report_substream_opened(x, traits::Direction::Outbound));
    peerset.report_substream_closed(x, 2_000);
    assert_eq!(peerset.num_out(), 0);
    assert!(peerset.poll_backoffs(16_999).is_empty());
    assert_eq!(peerset.poll_backoffs(17_000), vec![(x, -256)]);
    assert_eq!(peerset.state_of(&x), Some(PeerState::Disconnected));
}

#[test]
fn reserved_only_cancels_opening_candidate() {
    let y = peer(5);
    let mut peerset = new_peerset(false, Vec::new());
    open_peers(step(&mut peerset, 1_000, None, &vec![y]).1);
    assert_eq!(
        peerset.state_of(&y),
        Some(PeerState::Opening { direction: Direction::Outbound(Reserved::No) })
    );

    let command = PeersetCommand::SetReservedOnly { reserved_only: true };
    assert!(close_peers(peerset.on_command(command)).is_empty());
    assert!(peerset.reserved_only());
    assert_eq!(
        peerset.state_of(&y),
        Some(PeerState::Canceled { direction: Direction::Outbound(Reserved::No) })
    );

    assert!(!peerset.report_substream_opened(y, traits::Direction::Outbound));
    assert_eq!(
        peerset.state_of(&y),
        Some(PeerState::Closing { direction: Direction::Outbound(Reserved::No) })
    );
    assert_eq!(peerset.num_out(), 1);
    peerset.report_substream_closed(y, 2_000);
    assert_eq!(peerset.num_out(), 0);
}

#[test]
fn reserved_only_closes_connected_non_reserved_peers() {
    let a = peer(1);
    let r = peer(2);
    let mut peerset = new_peerset(false, vec![r]);
    let opened = open_peers(step(&mut peerset, 1_000, None, &vec![a]).1);
    assert_eq!(opened, vec![r, a]);
    assert!(peerset.report_substream_opened(a, traits::Direction::Outbound));
    assert!(peerset.report_substream_opened(r, traits::Direction::Outbound));

    let command = PeersetCommand::SetReservedOnly { reserved_only: true };
    assert_eq!(close_peers(peerset.on_command(command)), vec![a]);
    assert_eq!(
        peerset.state_of(&a),
        Some(PeerState::Closing { direction: Direction::Outbound(Reserved::No) })
    );
    assert_eq!(
        peerset.state_of(&r),
        Some(PeerState::Connected { direction: Direction::Outbound(Reserved::Yes) })
    );

    // no new outbound slot is filled in reserved-only mode
    assert!(peerset.outbound_request().is_none());
    let command = PeersetCommand::SetReservedOnly { reserved_only: false };
    assert!(peerset.on_command(command).is_none());
    assert!(!peerset.reserved_only());
    assert!(peerset.outbound_request().is_some());
}

#[test]
fn add_then_remove_restores_reserved_set() {
    let initial = vec![peer(1)];
    let mut peerset = new_peerset(false, initial.clone());
    let added = vec![peer(2), peer(3)];
    peerset.on_command(PeersetCommand::AddReservedPeers { peers: added.clone() });
    assert_eq!(peerset.reserved_peers().len(), 3);
    peerset.on_command(PeersetCommand::RemoveReservedPeers { peers: added });
    assert_eq!(peerset.reserved_peers(), initial);
}

#[test]
fn open_then_close_restores_counters() {
    let a = peer(1);
    let mut peerset = new_peerset(false, Vec::new());
    assert_eq!(peerset.report_inbound_substream(a), ValidationResult::Accept);
    assert_eq!(peerset.num_in(), 1);
    assert!(peerset.report_substream_opened(a, traits::Direction::Inbound));
    assert_eq!(peerset.num_in(), 1);
    peerset.report_substream_closed(a, 0);
    assert_eq!(peerset.num_in(), 0);
    assert_eq!(peerset.num_out(), 0);
    assert_eq!(peerset.state_of(&a), Some(PeerState::Backoff));

    // a reserved peer holds no slot, so the counts never move
    let r = peer(2);
    let mut peerset = new_peerset(false, vec![r]);
    assert_eq!(peerset.report_inbound_substream(r), ValidationResult::Accept);
    assert_eq!(
        peerset.state_of(&r),
        Some(PeerState::Opening { direction: Direction::Inbound(Reserved::Yes) })
    );
    assert!(peerset.report_substream_opened(r, traits::Direction::Inbound));
    peerset.report_substream_closed(r, 0);
    assert_eq!(peerset.num_in(), 0);
    assert_eq!(peerset.state_of(&r), Some(PeerState::Backoff));
}

#[test]
fn disconnect_twice_is_disconnect_once() {
    let a = peer(1);
    let mut peerset = new_peerset(false, Vec::new());
    open_peers(step(&mut peerset, 1_000, None, &vec![a]).1);
    assert!(peerset.report_substream_opened(a, traits::Direction::Outbound));

    let first = close_peers(peerset.on_command(PeersetCommand::DisconnectPeer { peer: a }));
    assert_eq!(first, vec![a]);
    let after_once = peerset.peers();
    assert!(peerset.on_command(PeersetCommand::DisconnectPeer { peer: a }).is_none());
    assert_eq!(peerset.peers(), after_once);
    assert_eq!(
        peerset.state_of(&a),
        Some(PeerState::Closing { direction: Direction::Outbound(Reserved::No) })
    );
    assert_eq!(peerset.num_out(), 1);

    // an unknown peer is ignored
    assert!(peerset.on_command(PeersetCommand::DisconnectPeer { peer: peer(77) }).is_none());
    assert_eq!(peerset.state_of(&peer(77)), None);
}

#[test]
fn disconnect_opening_peer_cancels_it() {
    let a = peer(1);
    let mut peerset = new_peerset(false, Vec::new());
    open_peers(step(&mut peerset, 1_000, None, &vec![a]).1);
    assert!(peerset.on_command(PeersetCommand::DisconnectPeer { peer: a }).is_none());
    assert_eq!(
        peerset.state_of(&a),
        Some(PeerState::Canceled { direction: Direction::Outbound(Reserved::No) })
    );
    // an inbound substream for a canceled outbound peer gives back the slot
    assert_eq!(peerset.report_inbound_substream(a), ValidationResult::Reject);
    assert_eq!(peerset.state_of(&a), Some(PeerState::Disconnected));
    assert_eq!(peerset.num_out(), 0);
}

#[test]
fn inbound_rejected_when_slots_full() {
    let mut peerset = Peerset::new("/notif/1".to_string(), 25, 2, false, Vec::new(), 0);
    assert_eq!(peerset.report_inbound_substream(peer(1)), ValidationResult::Accept);
    assert_eq!(peerset.report_inbound_substream(peer(2)), ValidationResult::Accept);
    assert_eq!(peerset.num_in(), 2);
    assert_eq!(peerset.report_inbound_substream(peer(3)), ValidationResult::Reject);
    assert_eq!(peerset.num_in(), 2);
    assert_eq!(peerset.num_out(), 0);
    assert_eq!(peerset.state_of(&peer(3)), Some(PeerState::Disconnected));
}

#[test]
fn inbound_for_dialed_peer_rejected_when_inbound_full() {
    let a = peer(1);
    let mut peerset = Peerset::new("/notif/1".to_string(), 25, 0, false, Vec::new(), 0);
    open_peers(step(&mut peerset, 1_000, None, &vec![a]).1);
    assert_eq!(peerset.num_out(), 1);
    assert_eq!(peerset.report_inbound_substream(a), ValidationResult::Reject);
    assert_eq!(peerset.num_out(), 0);
    assert_eq!(peerset.num_in(), 0);
    assert_eq!(peerset.state_of(&a), Some(PeerState::Disconnected));
}

#[test]
fn full_outbound_slots_ask_for_no_candidates() {
    let mut peerset = Peerset::new("/notif/1".to_string(), 2, 25, false, Vec::new(), 0);
    assert_eq!(peerset.outbound_request().map(|(_, limit)| limit), Some(2));
    let opened = open_peers(step(&mut peerset, 1_000, None, &vec![peer(1), peer(2), peer(3)]).1);
    assert_eq!(opened, vec![peer(1), peer(2)]);
    assert_eq!(peerset.num_out(), 2);
    assert!(peerset.outbound_request().is_none());
    // offering more candidates anyway takes none
    assert!(peerset.dial_outbound(&vec![peer(3)]).is_empty());
    assert_eq!(peerset.num_out(), 2);
}

#[test]
fn empty_reserved_set_is_ignored() {
    let a = peer(1);
    let mut peerset = new_peerset(true, vec![a]);
    assert!(peerset.on_command(PeersetCommand::SetReservedPeers { peers: Vec::new() }).is_none());
    assert_eq!(peerset.reserved_peers(), vec![a]);
    assert_eq!(peerset.state_of(&a), Some(PeerState::Disconnected));
}

#[test]
fn set_reserved_peers_closes_those_left_out() {
    let (a, b, c) = (peer(1), peer(2), peer(3));
    let mut peerset = new_peerset(true, vec![a, b]);
    let closed = close_peers(peerset.on_command(PeersetCommand::SetReservedPeers { peers: vec![b, c] }));
    assert_eq!(closed, vec![a]);
    let mut reserved = peerset.reserved_peers();
    reserved.sort_by_key(|p| p.to_bytes());
    assert_eq!(reserved, vec![b, c]);
    // the new reserved peer is known and dialed at the next allocation
    assert_eq!(peerset.state_of(&c), Some(PeerState::Disconnected));
    let mut opened = open_peers(step(&mut peerset, 1_000, None, &Vec::new()).1);
    opened.sort_by_key(|p| p.to_bytes());
    assert_eq!(opened, vec![b, c]);
    // the same set again closes nothing
    assert!(peerset.on_command(PeersetCommand::SetReservedPeers { peers: vec![c, b] }).is_none());
}

#[test]
fn banned_reserved_peer_is_not_dialed() {
    let (a, b) = (peer(1), peer(2));
    let mut peerset = new_peerset(true, vec![a, b]);
    let candidates = peerset.reserved_dial_candidates();
    assert_eq!(candidates.len(), 2);
    let banned: Vec<bool> = candidates.iter().map(|p| *p == a).collect();
    let dialed = peerset.dial_reserved(&candidates, &banned);
    assert_eq!(dialed, vec![b]);
    assert_eq!(peerset.state_of(&a), Some(PeerState::Disconnected));
    assert_eq!(peerset.reserved_dial_candidates(), vec![a]);
}

#[test]
fn rejected_substream_releases_slot() {
    let (a, r) = (peer(1), peer(2));
    let mut peerset = new_peerset(false, vec![r]);
    assert_eq!(peerset.report_inbound_substream(a), ValidationResult::Accept);
    assert_eq!(peerset.num_in(), 1);
    peerset.report_substream_rejected(a);
    assert_eq!(peerset.num_in(), 0);
    assert_eq!(peerset.state_of(&a), Some(PeerState::Disconnected));

    assert_eq!(peerset.report_inbound_substream(r), ValidationResult::Accept);
    peerset.report_substream_rejected(r);
    assert_eq!(peerset.state_of(&r), Some(PeerState::Disconnected));

    // unknown peers and other states are left alone
    peerset.report_substream_rejected(peer(50));
    assert_eq!(peerset.state_of(&peer(50)), None);
}

#[test]
fn slot_allocation_runs_on_its_interval() {
    let mut peerset = new_peerset(false, Vec::new());
    assert!(!peerset.slot_allocation_due(999));
    assert!(peerset.slot_allocation_due(1_000));
    assert!(peerset.finish_slot_allocation(1_000, Vec::new(), Vec::new()).is_none());
    assert!(!peerset.slot_allocation_due(1_999));
    assert!(peerset.slot_allocation_due(2_000));
    assert_eq!(peerset.protocol(), "/notif/1");
}

#[test]
fn deadlines_saturate() {
    assert_eq!(peerset::peerset::deadline(5, 10), 15);
    assert_eq!(peerset::peerset::deadline(u64::MAX - 3, 10), u64::MAX);
    let mut peerset = Peerset::new("p".to_string(), 1, 1, false, Vec::new(), u64::MAX);
    assert!(!peerset.slot_allocation_due(u64::MAX - 1));
    assert!(peerset.slot_allocation_due(u64::MAX));
    assert!(peerset.poll_backoffs(u64::MAX).is_empty());
}

#[test]
fn peer_ids_and_conversions() {
    let mut bytes = [0u8; 32];
    bytes[17] = 3;
    let a = PeerId::from_bytes(bytes);
    assert_eq!(a.to_bytes(), bytes);
    assert_eq!(a, PeerId::from_bytes(bytes));
    bytes[31] = 1;
    assert_ne!(a, PeerId::from_bytes(bytes));

    assert_eq!(Reserved::from(true), Reserved::Yes);
    assert_eq!(Reserved::from(false), Reserved::No);
    assert!(bool::from(Reserved::Yes));
    assert!(!bool::from(Reserved::No));

    assert!(PeerState::Disconnected.is_available());
    assert!(!PeerState::Backoff.is_available());
    assert_eq!(
        PeerState::Closing { direction: Direction::Inbound(Reserved::No) }.direction(),
        Some(Direction::Inbound(Reserved::No))
    );
    assert_eq!(PeerState::Backoff.direction(), None);
}
