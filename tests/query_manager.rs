use iroh_bitswap::events::{BehaviourAction, BitswapEvent, QueryError, QueryResult, WantResult};
use iroh_bitswap::ids::{Block, Cid, PeerId};
use iroh_bitswap::message::{BlockPresence, WantType};
use iroh_bitswap::peer_set::PeerSet;
use iroh_bitswap::query::QueryManager;

fn random_peer() -> PeerId {
    let key = libp2p::identity::Keypair::generate_ed25519();
    PeerId::from_bytes(key.public().to_peer_id().to_bytes())
}

fn create_block(data: &[u8]) -> Block {
    let hash = cid::multihash::Multihash::<64>::wrap(0x00, data).unwrap();
    let cid = cid::Cid::new_v1(0x55, hash);
    Block::new(Cid::from_bytes(cid.to_bytes()), data.to_vec())
}

fn set_of(peers: &[&PeerId]) -> PeerSet {
    let v: Vec<PeerId> = peers.iter().map(|p| p.copy()).collect();
    PeerSet::from_peers(&v)
}

fn notified(action: Option<BehaviourAction>) -> (PeerId, iroh_bitswap::message::BitswapMessage) {
    match action {
        Some(BehaviourAction::NotifyHandler { peer_id, event }) => (peer_id, event),
        _ => panic!("invalid poll result"),
    }
}

#[test]
fn test_want_success() {
    let mut queries = QueryManager::default();

    let provider_id_1 = random_peer();
    let provider_id_2 = random_peer();

    assert!(queries.poll_peer(&provider_id_1).is_none());

    let Block { cid, data } = create_block(&b"hello world"[..]);
    let query_id = queries.want(cid.copy(), 100, set_of(&[&provider_id_1, &provider_id_2]));

    // sent wantlist
    let (peer_id, event) = notified(queries.poll_peer(&provider_id_1));
    assert_eq!(peer_id, provider_id_1);
    assert_eq!(event.wantlist().blocks(), vec![(cid.copy(), 100)]);

    // inject received block
    let (unused_providers, qid) = queries.process_block(&provider_id_1, &Block { cid, data });
    assert_eq!(unused_providers, vec![provider_id_2]);
    assert_eq!(qid, vec![query_id]);
}

#[test]
fn test_want_fail() {
    let mut queries = QueryManager::default();

    let provider_id_1 = random_peer();
    let provider_id_2 = random_peer();

    assert!(queries.poll_peer(&provider_id_1).is_none());

    let Block { cid, data: _ } = create_block(&b"hello world"[..]);
    let _query_id = queries.want(cid.copy(), 100, set_of(&[&provider_id_1, &provider_id_2]));

    // send wantlist
    let (peer_id, event) = notified(queries.poll_peer(&provider_id_1));
    assert_eq!(peer_id, provider_id_1);
    assert_eq!(event.wantlist().blocks(), vec![(cid.copy(), 100)]);

    let (peer_id, event) = notified(queries.poll_peer(&provider_id_2));
    assert_eq!(peer_id, provider_id_2);
    assert_eq!(event.wantlist().blocks(), vec![(cid.copy(), 100)]);

    // inject disconnects
    queries.disconnected(&provider_id_1);
    queries.disconnected(&provider_id_2);

    match queries.poll_all() {
        Some(BehaviourAction::GenerateEvent(BitswapEvent::OutboundQueryCompleted { .. })) => {}
        _ => panic!("invalid poll result"),
    }
}

#[test]
fn disconnect_timeout_reports_want_error_once() {
    let mut queries = QueryManager::new();
    let peer_a = random_peer();
    let peer_b = random_peer();
    let block = create_block(b"hello world");
    queries.want(block.cid.copy(), 7, set_of(&[&peer_a, &peer_b]));
    assert!(queries.poll_peer(&peer_a).is_some());
    assert!(queries.poll_peer(&peer_b).is_some());
    assert!(queries.poll_all().is_none());
    queries.disconnected(&peer_a);
    assert!(queries.poll_all().is_none());
    queries.dial_failure(&peer_b);
    match queries.poll_all() {
        Some(BehaviourAction::GenerateEvent(BitswapEvent::OutboundQueryCompleted {
            result: QueryResult::Want(WantResult::Failure { cid, error }),
        })) => {
            assert_eq!(cid, block.cid);
            assert_eq!(error, QueryError::Timeout);
        }
        _ => panic!("expected a timed out want"),
    }
    assert!(queries.poll_all().is_none());
    assert!(queries.is_empty());
}

#[test]
fn cancel_after_sent_creates_cancel_for_asked_peers() {
    let mut queries = QueryManager::new();
    let peer_a = random_peer();
    let peer_b = random_peer();
    let block = create_block(b"cancel me");
    let want_id = queries.want(block.cid.copy(), 1, set_of(&[&peer_a, &peer_b]));
    assert!(queries.poll_peer(&peer_a).is_some());
    assert!(queries.poll_peer(&peer_b).is_some());
    let cancel_id = queries.cancel(&block.cid).expect("a cancel query");
    assert_ne!(cancel_id, want_id);
    for p in [&peer_a, &peer_b] {
        let (peer, msg) = notified(queries.poll_peer(p));
        assert_eq!(&peer, p);
        assert_eq!(msg.wantlist().cancels(), vec![block.cid.copy()]);
        assert!(msg.wantlist().blocks().is_empty());
    }
}

#[test]
fn cancel_before_sent_creates_nothing() {
    let mut queries = QueryManager::new();
    let peer_a = random_peer();
    let block = create_block(b"never sent");
    queries.want(block.cid.copy(), 1, set_of(&[&peer_a]));
    assert_eq!(queries.cancel(&block.cid), None);
    assert!(queries.is_empty());
    assert!(queries.poll_peer(&peer_a).is_none());
}

#[test]
fn process_block_cancels_other_asked_peers_only() {
    let mut queries = QueryManager::new();
    let peer_a = random_peer();
    let peer_b = random_peer();
    let peer_c = random_peer();
    let block = create_block(b"payload");
    let id = queries.want(block.cid.copy(), 5, set_of(&[&peer_a, &peer_b, &peer_c]));
    assert!(queries.poll_peer(&peer_a).is_some());
    assert!(queries.poll_peer(&peer_b).is_some());
    let (unused, ids) = queries.process_block(&peer_a, &block);
    assert_eq!(unused, vec![peer_c.copy()]);
    assert_eq!(ids, vec![id]);
    // peer_b was asked: it gets a cancel; peer_a sent the block; peer_c was never asked.
    let (_, msg) = notified(queries.poll_peer(&peer_b));
    assert_eq!(msg.wantlist().cancels(), vec![block.cid.copy()]);
    assert!(queries.poll_peer(&peer_a).is_none());
    assert!(queries.poll_peer(&peer_c).is_none());
}

#[test]
fn satisfied_want_is_not_sent_late() {
    let mut queries = QueryManager::new();
    let peer_a = random_peer();
    let peer_b = random_peer();
    let block = create_block(b"late");
    queries.want(block.cid.copy(), 5, set_of(&[&peer_a, &peer_b]));
    assert!(queries.poll_peer(&peer_a).is_some());
    queries.process_block(&peer_a, &block);
    assert!(queries.poll_peer(&peer_b).is_none());
}

#[test]
fn find_providers_saturates_at_forty() {
    let mut queries = QueryManager::new();
    let peers: Vec<PeerId> = (0..45).map(|_| random_peer()).collect();
    let block = create_block(b"popular");
    let set = PeerSet::from_peers(&peers);
    let id = queries.find_providers(block.cid.copy(), 3, set);
    // four peers are left unasked, so the search stays open until it saturates
    for p in peers.iter().take(41) {
        let (_, msg) = notified(queries.poll_peer(p));
        assert_eq!(msg.wantlist().want_have_blocks(), vec![(block.cid.copy(), 3)]);
    }
    for (k, p) in peers.iter().enumerate().take(40) {
        let done = queries.process_block_presence(p.copy(), &BlockPresence::have(block.cid.copy()));
        if k < 39 {
            assert!(done.is_empty());
        } else {
            assert_eq!(done.len(), 1);
            assert_eq!(done[0].0, id);
            assert_eq!(done[0].1.len(), 40);
        }
    }
    let more = queries.process_block_presence(peers[40].copy(), &BlockPresence::have(block.cid.copy()));
    assert!(more.is_empty());
    assert!(queries.is_empty());
}

#[test]
fn dont_have_is_ignored() {
    let mut queries = QueryManager::new();
    let peer_a = random_peer();
    let block = create_block(b"absent");
    queries.find_providers(block.cid.copy(), 3, set_of(&[&peer_a]));
    assert!(queries.poll_peer(&peer_a).is_some());
    let done = queries.process_block_presence(peer_a.copy(), &BlockPresence::dont_have(block.cid.copy()));
    assert!(done.is_empty());
    assert!(!queries.is_empty());
}

#[test]
fn find_providers_ends_when_no_peer_is_left() {
    let mut queries = QueryManager::new();
    let peer_a = random_peer();
    let block = create_block(b"rare");
    let id = queries.find_providers(block.cid.copy(), 3, set_of(&[&peer_a]));
    assert!(queries.poll_peer(&peer_a).is_some());
    let done = queries.process_block_presence(peer_a.copy(), &BlockPresence::have(block.cid.copy()));
    assert_eq!(done.len(), 1);
    assert_eq!(done[0].0, id);
    assert!(done[0].1.contains(&peer_a));
}

#[test]
fn find_providers_without_peers_times_out() {
    let mut queries = QueryManager::new();
    let block = create_block(b"nobody");
    queries.find_providers(block.cid.copy(), 3, PeerSet::new());
    match queries.poll_all() {
        Some(BehaviourAction::GenerateEvent(BitswapEvent::OutboundQueryCompleted {
            result: QueryResult::FindProviders(iroh_bitswap::events::FindProvidersResult::Failure { cid, error }),
        })) => {
            assert_eq!(cid, block.cid);
            assert_eq!(error, QueryError::Timeout);
        }
        _ => panic!("expected a timed out search"),
    }
    assert!(queries.poll_all().is_none());
}

#[test]
fn send_and_send_have_go_out_once() {
    let mut queries = QueryManager::new();
    let peer_a = random_peer();
    let block = create_block(b"gift");
    queries.send(peer_a.copy(), block.cid.copy(), block.data.clone());
    queries.send_have(peer_a.copy(), block.cid.copy());
    let (_, msg) = notified(queries.poll_peer(&peer_a));
    assert_eq!(msg.blocks().len(), 1);
    assert_eq!(msg.blocks()[0].data, b"gift".to_vec());
    assert_eq!(msg.block_presences().len(), 1);
    assert!(msg.block_presences()[0].is_have());
    assert!(queries.poll_peer(&peer_a).is_none());
    assert!(queries.is_empty());
}

#[test]
fn query_ids_are_distinct() {
    let mut queries = QueryManager::new();
    let peer_a = random_peer();
    let block = create_block(b"ids");
    let a = queries.want(block.cid.copy(), 1, set_of(&[&peer_a]));
    let b = queries.send_have(peer_a.copy(), block.cid.copy());
    assert_ne!(a, b);
    assert_eq!(a.0 + 1, b.0);
}

#[test]
fn timeout_error_text() {
    assert_eq!(QueryError::Timeout.to_string(), "timeout");
}

#[test]
fn wantlist_kinds() {
    let block = create_block(b"kinds");
    let mut msg = iroh_bitswap::message::BitswapMessage::new();
    msg.wantlist_mut().want_block(&block.cid, 9);
    assert_eq!(msg.wantlist().of_type(WantType::Block).len(), 1);
    assert!(!msg.is_empty());
}

#[test]
fn process_block_cancels_each_sent_want_on_its_own() {
    let mut queries = QueryManager::new();
    let peer_a = random_peer();
    let peer_b = random_peer();
    let peer_c = random_peer();
    let block = create_block(b"twice wanted");
    let first = queries.want(block.cid.copy(), 1, set_of(&[&peer_a]));
    let second = queries.want(block.cid.copy(), 2, set_of(&[&peer_b]));
    assert!(queries.poll_peer(&peer_a).is_some());
    assert!(queries.poll_peer(&peer_b).is_some());
    let (unused, ids) = queries.process_block(&peer_c, &block);
    assert!(unused.is_empty());
    assert_eq!(ids, vec![first, second]);
    for p in [&peer_a, &peer_b] {
        let (_, msg) = notified(queries.poll_peer(p));
        assert_eq!(msg.wantlist().cancels(), vec![block.cid.copy()]);
    }
    // two cancel queries: each times out on its own
    queries.disconnected(&peer_a);
    match queries.poll_all() {
        Some(BehaviourAction::GenerateEvent(BitswapEvent::OutboundQueryCompleted {
            result: QueryResult::Cancel(iroh_bitswap::events::CancelResult::Failure { cid, .. }),
        })) => assert_eq!(cid, block.cid),
        _ => panic!("expected the first cancel to time out"),
    }
    assert!(queries.poll_all().is_none());
    queries.disconnected(&peer_b);
    assert!(queries.poll_all().is_some());
    assert!(queries.is_empty());
}
