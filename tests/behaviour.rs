use iroh_bitswap::events::{
    BehaviourAction, BitswapEvent, FindProvidersResult, HandlerEvent, InboundRequest, QueryResult,
    WantResult,
};
use iroh_bitswap::ids::{Block, Cid, PeerId};
use iroh_bitswap::message::BitswapMessage;
use iroh_bitswap::peer_set::PeerSet;
use iroh_bitswap::peer_table::{Bitswap, ConnState, DialFailure, PeerState};

fn random_peer() -> PeerId {
    let key = libp2p::identity::Keypair::generate_ed25519();
    PeerId::from_bytes(key.public().to_peer_id().to_bytes())
}

fn create_block(data: &[u8]) -> Block {
    let hash = cid::multihash::Multihash::<64>::wrap(0x00, data).unwrap();
    let cid = cid::Cid::new_v1(0x55, hash);
    Block::new(Cid::from_bytes(cid.to_bytes()), data.to_vec())
}

fn set_of(peers: &[&PeerId]) -> PeerSet {
    let v: Vec<PeerId> = peers.iter().map(|p| p.copy()).collect();
    PeerSet::from_peers(&v)
}

fn expect_notify(action: Option<BehaviourAction>) -> (PeerId, BitswapMessage) {
    match action {
        Some(BehaviourAction::NotifyHandler { peer_id, event }) => (peer_id, event),
        _ => panic!("expected a message to send"),
    }
}

fn expect_event(action: Option<BehaviourAction>) -> BitswapEvent {
    match action {
        Some(BehaviourAction::GenerateEvent(e)) => e,
        _ => panic!("expected an event"),
    }
}

fn expect_dial(action: Option<BehaviourAction>) -> PeerId {
    match action {
        Some(BehaviourAction::Dial { peer_id }) => peer_id,
        _ => panic!("expected a dial"),
    }
}

#[test]
fn test_bitswap_behaviour() {
    let a_id = random_peer();
    let b_id = random_peer();
    let mut a = Bitswap::default();
    let mut b = Bitswap::default();
    let Block { cid: cid_orig, data: data_orig } = create_block(&b"hello world"[..]);

    a.inject_connection_established(&b_id);
    b.inject_connection_established(&a_id);
    b.find_providers(cid_orig.copy(), 1000);

    let (to, msg) = expect_notify(b.poll());
    assert_eq!(to, a_id);
    assert_eq!(msg.wantlist().want_have_blocks(), vec![(cid_orig.copy(), 1000)]);

    a.inject_event(b_id.copy(), HandlerEvent::Bitswap(msg));
    match expect_event(a.poll()) {
        BitswapEvent::InboundRequest { request: InboundRequest::WantHave { sender, cid, priority } } => {
            assert_eq!(cid, cid_orig);
            assert_eq!(priority, 1000);
            a.send_have_block(&sender, cid);
        }
        _ => panic!("expected a want-have"),
    }
    let (to, msg) = expect_notify(a.poll());
    assert_eq!(to, b_id);

    b.inject_event(a_id.copy(), HandlerEvent::Bitswap(msg));
    match expect_event(b.poll()) {
        BitswapEvent::OutboundQueryCompleted {
            result: QueryResult::FindProviders(FindProvidersResult::Success { cid, provider }),
        } => {
            assert_eq!(cid, cid_orig);
            assert_eq!(provider, a_id);
            b.want_block(cid, 1000, set_of(&[&a_id]));
        }
        _ => panic!("expected a provider"),
    }

    let (to, msg) = expect_notify(b.poll());
    assert_eq!(to, a_id);
    assert_eq!(msg.wantlist().blocks(), vec![(cid_orig.copy(), 1000)]);

    a.inject_event(b_id.copy(), HandlerEvent::Bitswap(msg));
    match expect_event(a.poll()) {
        BitswapEvent::InboundRequest { request: InboundRequest::Want { sender, cid, .. } } => {
            assert_eq!(cid, cid_orig);
            a.send_block(&sender, cid, data_orig.clone());
        }
        _ => panic!("expected a want"),
    }
    let (to, msg) = expect_notify(a.poll());
    assert_eq!(to, b_id);

    b.inject_event(a_id.copy(), HandlerEvent::Bitswap(msg));
    match expect_event(b.poll()) {
        BitswapEvent::OutboundQueryCompleted {
            result: QueryResult::Want(WantResult::Success { sender, cid, data }),
        } => {
            assert_eq!(sender, a_id);
            assert_eq!(cid, cid_orig);
            assert_eq!(&data[..], b"hello world");
        }
        _ => panic!("expected the block"),
    }
}

#[test]
fn want_block_twice_keeps_one_entry() {
    let p = random_peer();
    let mut bs = Bitswap::new(Default::default());
    let block = create_block(b"twice");
    bs.inject_connection_established(&p);
    bs.want_block(block.cid.copy(), 1, set_of(&[&p]));
    bs.want_block(block.cid.copy(), 2, set_of(&[&p]));
    let (_, msg) = expect_notify(bs.poll());
    assert_eq!(msg.wantlist().blocks(), vec![(block.cid.copy(), 2)]);
    assert_eq!(msg.wantlist().len(), 1);
    // the pending message was taken: nothing is left to do
    assert!(bs.poll().is_none());
}

#[test]
fn cancel_block_supersedes_pending_wants() {
    let peer_a = random_peer();
    let peer_b = random_peer();
    let mut bs = Bitswap::default();
    let block = create_block(b"cancelled");
    bs.inject_connection_established(&peer_a);
    bs.inject_connection_established(&peer_b);
    bs.want_block(block.cid.copy(), 1, set_of(&[&peer_a, &peer_b]));
    bs.cancel_block(&block.cid);
    for _ in 0..2 {
        let (_, msg) = expect_notify(bs.poll());
        assert!(msg.wantlist().blocks().is_empty());
        assert!(msg.wantlist().want_have_blocks().is_empty());
        assert_eq!(msg.wantlist().cancels(), vec![block.cid.copy()]);
    }
    assert!(bs.poll().is_none());
}

#[test]
fn cancel_want_block_sends_nothing() {
    let peer_a = random_peer();
    let peer_b = random_peer();
    let mut bs = Bitswap::default();
    let block = create_block(b"side channel");
    bs.want_block(block.cid.copy(), 4, set_of(&[&peer_a, &peer_b]));
    bs.cancel_want_block(&block.cid);
    bs.inject_connection_established(&peer_a);
    bs.inject_connection_established(&peer_b);
    assert!(bs.poll().is_none());
}

#[test]
fn redial_after_connection_limit() {
    let p = random_peer();
    let mut bs = Bitswap::default();
    let block = create_block(b"redial");
    bs.want_block(block.cid.copy(), 4, set_of(&[&p]));
    assert_eq!(expect_dial(bs.poll()), p);
    // a dial is under way: no second dial
    assert!(bs.poll().is_none());
    bs.inject_dial_failure(Some(p.copy()), DialFailure::ConnectionLimit);
    assert_eq!(expect_dial(bs.poll()), p);
    bs.inject_connection_established(&p);
    let (to, msg) = expect_notify(bs.poll());
    assert_eq!(to, p);
    assert_eq!(msg.wantlist().blocks(), vec![(block.cid.copy(), 4)]);
}

#[test]
fn other_dial_failure_forgets_peer() {
    let p = random_peer();
    let mut bs = Bitswap::default();
    let block = create_block(b"gone");
    bs.want_block(block.cid.copy(), 4, set_of(&[&p]));
    assert_eq!(expect_dial(bs.poll()), p);
    bs.inject_dial_failure(Some(p.copy()), DialFailure::Other);
    assert!(bs.poll().is_none());
}

#[test]
fn closed_connection_keeps_message() {
    let p = random_peer();
    let mut bs = Bitswap::default();
    let block = create_block(b"kept");
    bs.inject_connection_established(&p);
    bs.inject_connection_closed(&p, 0);
    bs.send_block(&p, block.cid.copy(), block.data.clone());
    assert_eq!(expect_dial(bs.poll()), p);
    bs.inject_connection_established(&p);
    let (_, msg) = expect_notify(bs.poll());
    assert_eq!(msg.blocks().len(), 1);
    assert_eq!(msg.blocks()[0].data, b"kept".to_vec());
}

#[test]
fn find_providers_asks_at_most_ten_connected_peers() {
    let mut bs = Bitswap::default();
    let peers: Vec<PeerId> = (0..12).map(|_| random_peer()).collect();
    for p in peers.iter() {
        bs.inject_connection_established(p);
    }
    let idle = random_peer();
    bs.add_peer(idle.copy());
    let block = create_block(b"who has it");
    bs.find_providers(block.cid.copy(), 8);
    let mut sent = 0;
    while let Some(action) = bs.poll() {
        let (to, msg) = expect_notify(Some(action));
        assert_ne!(to, idle);
        assert_eq!(msg.wantlist().want_have_blocks(), vec![(block.cid.copy(), 8)]);
        sent += 1;
    }
    assert_eq!(sent, 10);
}

#[test]
fn find_providers_with_no_connected_peer_sends_nothing() {
    let mut bs = Bitswap::default();
    bs.add_peer(random_peer());
    let block = create_block(b"alone");
    bs.find_providers(block.cid.copy(), 8);
    assert!(bs.poll().is_none());
}

#[test]
fn inbound_message_event_order() {
    let sender = random_peer();
    let other = random_peer();
    let mut bs = Bitswap::default();
    let wanted = create_block(b"wanted");
    let asked = create_block(b"asked");
    bs.want_block(wanted.cid.copy(), 3, set_of(&[&sender, &other]));
    let mut msg = BitswapMessage::new();
    msg.add_block(wanted.copy());
    msg.add_block_presence(iroh_bitswap::message::BlockPresence::have(asked.cid.copy()));
    msg.wantlist_mut().want_block(&asked.cid, 6);
    bs.inject_event(sender.copy(), HandlerEvent::Bitswap(msg));
    match expect_event(bs.poll()) {
        BitswapEvent::OutboundQueryCompleted { result: QueryResult::Want(WantResult::Success { cid, .. }) } => {
            assert_eq!(cid, wanted.cid)
        }
        _ => panic!("expected the block first"),
    }
    match expect_event(bs.poll()) {
        BitswapEvent::OutboundQueryCompleted {
            result: QueryResult::FindProviders(FindProvidersResult::Success { provider, .. }),
        } => assert_eq!(provider, sender),
        _ => panic!("expected the provider second"),
    }
    match expect_event(bs.poll()) {
        BitswapEvent::InboundRequest { request: InboundRequest::Want { priority, .. } } => assert_eq!(priority, 6),
        _ => panic!("expected the want last"),
    }
    // the sender gets a cancel once connected; the other peer has nothing left
    bs.inject_connection_established(&sender);
    bs.inject_connection_established(&other);
    let (to, msg) = expect_notify(bs.poll());
    assert_eq!(to, sender);
    assert_eq!(msg.wantlist().cancels(), vec![wanted.cid.copy()]);
    assert!(bs.poll().is_none());
}

#[test]
fn upgrade_event_changes_nothing() {
    let mut bs = Bitswap::default();
    bs.inject_event(random_peer(), HandlerEvent::Upgrade);
    assert!(bs.poll().is_none());
}

#[test]
fn peer_state_basics() {
    let mut st = PeerState::new();
    assert!(!st.is_connected());
    assert!(st.is_empty());
    assert!(!st.needs_connection());
    let block = create_block(b"state");
    st.send_have_block(block.cid.copy());
    assert!(st.needs_connection());
    st.conn = ConnState::Connected;
    assert!(st.is_connected());
    let msg = st.send_message();
    assert!(!msg.is_empty());
    assert!(st.is_empty());
}

#[test]
fn handler_setup() {
    let bs = Bitswap::default();
    let h = bs.new_handler();
    assert_eq!(h.keep_alive_timeout_secs, 30);
    assert_eq!(h.outbound_substream_timeout_secs, 30);
    assert_eq!(h.max_dial_negotiated, 64);
}

#[test]
fn poll_serves_waiting_peers_in_turn() {
    let first = random_peer();
    let second = random_peer();
    let mut bs = Bitswap::default();
    bs.inject_connection_established(&first);
    bs.inject_connection_established(&second);
    let block = create_block(b"turns");
    bs.send_have_block(&first, block.cid.copy());
    bs.send_have_block(&second, block.cid.copy());
    let (to, _) = expect_notify(bs.poll());
    assert_eq!(to, first);
    // the first peer has something again, but the second has waited longer
    bs.send_have_block(&first, block.cid.copy());
    let (to, _) = expect_notify(bs.poll());
    assert_eq!(to, second);
    let (to, _) = expect_notify(bs.poll());
    assert_eq!(to, first);
    assert!(bs.poll().is_none());
}
