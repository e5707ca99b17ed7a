//! The peer table: for each known peer its connection state and the message
//! being assembled for it, and the events waiting for the host.
use vstd::prelude::*;
use std::collections::VecDeque;
use crate::events::{
    ActionView, BehaviourAction, BitswapConfig, BitswapEvent, EventView, FindProvidersResult,
    HandlerEvent, InboundRequest, QueryResult, WantResult,
};
use crate::ids::{copy_bytes, Block, Cid, PeerId, Priority};
use crate::message::{
    unique_cids, blocks_view, empty_message, entries_view, message_is_empty, pick_fn, presences_view,
    with_presence, BitswapMessage, BlockPresence, Entry, EntryView, MessageView, Pick,
    PresenceType, WantType,
};
use crate::peer_set::{lists_set, PeerSet};
use crate::query::set_entry;

verus! {

/// Number of connected peers that a search for providers asks.
pub const MAX_PROVIDERS: usize = 10;

#[derive(Clone, Copy, Debug, PartialEq, Eq, Structural)]
pub enum ConnState {
    Unknown,
    Connected,
    Disconnected,
    Dialing,
}

/// Why a dial failed, as far as the engine cares.
#[derive(Clone, Copy, Debug, PartialEq, Eq, Structural)]
pub enum DialFailure {
    /// A limit on connections was hit: the peer may be dialled again later.
    ConnectionLimit,
    Other,
}

/// A peer's state as a value: connection and pending message.
pub type PeerView = (ConnState, MessageView);

pub open spec fn default_peer() -> PeerView {
    (ConnState::Unknown, empty_message())
}

pub open spec fn msg_with_entry(m: MessageView, cid: Seq<u8>, t: WantType, priority: u32) -> MessageView {
    (set_entry(m.0, (cid, t, priority)), m.1, m.2)
}

pub open spec fn msg_filtered(m: MessageView, p: Pick, cid: Seq<u8>) -> MessageView {
    (m.0.filter(pick_fn(p, cid)), m.1, m.2)
}

pub open spec fn peer_needs_connection(v: PeerView) -> bool {
    !message_is_empty(v.1) && (v.0 == ConnState::Disconnected || v.0 == ConnState::Unknown)
}

pub struct PeerState {
    pub conn: ConnState,
    pub msg: BitswapMessage,
}

impl View for PeerState {
    type V = PeerView;

    open spec fn view(&self) -> PeerView {
        (self.conn, self.msg@)
    }
}

impl PeerState {
    pub open spec fn wf(&self) -> bool {
        self.msg.wf()
    }

    pub fn new() -> (r: PeerState)
        ensures
            r.wf(),
            r@ == default_peer(),
    {
        PeerState { conn: ConnState::Unknown, msg: BitswapMessage::new() }
    }

    pub fn is_connected(&self) -> (r: bool)
        ensures
            r == (self.conn == ConnState::Connected),
    {
        self.conn == ConnState::Connected
    }

    /// It has something to send and no connection, nor a dial under way.
    pub fn needs_connection(&self) -> (r: bool)
        ensures
            r == peer_needs_connection(self@),
    {
        !self.is_empty() && (self.conn == ConnState::Disconnected || self.conn == ConnState::Unknown)
    }

    pub fn is_empty(&self) -> (r: bool)
        ensures
            r == message_is_empty(self.msg@),
    {
        self.msg.is_empty()
    }

    /// Takes the pending message, leaving an empty one.
    pub fn send_message(&mut self) -> (r: BitswapMessage)
        requires
            old(self).wf(),
        ensures
            final(self).wf(),
            r.wf(),
            r@ == old(self).msg@,
            final(self)@ == (old(self).conn, empty_message()),
    {
        self.msg.take()
    }

    pub fn want_block(&mut self, cid: &Cid, priority: Priority)
        requires
            old(self).wf(),
        ensures
            final(self).wf(),
            final(self)@ == (old(self).conn, msg_with_entry(old(self).msg@, cid@, WantType::Block, priority)),
    {
        self.msg.wantlist_mut().want_block(cid, priority);
    }

    pub fn want_have_block(&mut self, cid: &Cid, priority: Priority)
        requires
            old(self).wf(),
        ensures
            final(self).wf(),
            final(self)@ == (old(self).conn, msg_with_entry(old(self).msg@, cid@, WantType::Have, priority)),
    {
        self.msg.wantlist_mut().want_have_block(cid, priority);
    }

    pub fn cancel_block(&mut self, cid: &Cid)
        requires
            old(self).wf(),
        ensures
            final(self).wf(),
            final(self)@ == (old(self).conn, msg_with_entry(old(self).msg@, cid@, WantType::Cancel, 0u32)),
    {
        self.msg.wantlist_mut().cancel_block(cid);
    }

    /// Drops the pending want-block and want-have entries of the block.
    pub fn remove_block(&mut self, cid: &Cid)
        requires
            old(self).wf(),
        ensures
            final(self).wf(),
            final(self)@ == (old(self).conn, msg_filtered(old(self).msg@, Pick::NoWantsOf, cid@)),
    {
        self.msg.wantlist_mut().remove_block(cid);
    }

    /// Drops the pending want-have entry of the block.
    pub fn remove_want_have_block(&mut self, cid: &Cid)
        requires
            old(self).wf(),
        ensures
            final(self).wf(),
            final(self)@ == (old(self).conn, msg_filtered(old(self).msg@, Pick::NoWantHaveOf, cid@)),
    {
        self.msg.wantlist_mut().remove_want_have_block(cid);
    }

    pub fn send_block(&mut self, cid: Cid, data: Vec<u8>)
        requires
            old(self).wf(),
        ensures
            final(self).wf(),
            final(self)@ == (old(self).conn, (old(self).msg@.0, old(self).msg@.1.push((cid@, data@)), old(self).msg@.2)),
    {
        self.msg.add_block(Block::new(cid, data));
    }

    pub fn send_have_block(&mut self, cid: Cid)
        requires
            old(self).wf(),
        ensures
            final(self).wf(),
            final(self)@ == (old(self).conn, with_presence(old(self).msg@, (cid@, PresenceType::Have))),
    {
        self.msg.add_block_presence(BlockPresence::have(cid));
    }
}

pub struct PeerEntry {
    pub id: PeerId,
    pub state: PeerState,
}

pub type TableView = Seq<(Seq<u8>, PeerView)>;

pub open spec fn table_view(v: Seq<PeerEntry>) -> TableView {
    v.map_values(|e: PeerEntry| (e.id@, e.state@))
}

pub open spec fn unique_ids(t: TableView) -> bool {
    forall|i: int, j: int| 0 <= i < t.len() && 0 <= j < t.len() && i != j ==> #[trigger] t[i].0 != #[trigger] t[j].0
}

pub open spec fn has_peer(t: TableView, p: Seq<u8>) -> bool {
    exists|i: int| 0 <= i < t.len() && #[trigger] t[i].0 == p
}

/// The state of the peer in the table, if it is known.
pub open spec fn lookup(t: TableView, p: Seq<u8>) -> Option<PeerView> {
    if has_peer(t, p) {
        Some(t[choose|i: int| 0 <= i < t.len() && #[trigger] t[i].0 == p].1)
    } else {
        None
    }
}

/// The state of the peer, or a fresh one.
pub open spec fn lookup_or_default(t: TableView, p: Seq<u8>) -> PeerView {
    match lookup(t, p) {
        Some(v) => v,
        None => default_peer(),
    }
}

pub proof fn lemma_lookup_index(t: TableView, i: int)
    requires
        unique_ids(t),
        0 <= i < t.len(),
    ensures
        lookup(t, t[i].0) == Some(t[i].1),
{
    assert(has_peer(t, t[i].0));
    let j = choose|j: int| 0 <= j < t.len() && #[trigger] t[j].0 == t[i].0;
    assert(j == i);
}

pub proof fn lemma_lookup_update(t: TableView, i: int, v: PeerView)
    requires
        unique_ids(t),
        0 <= i < t.len(),
    ensures
        unique_ids(t.update(i, (t[i].0, v))),
        forall|q: Seq<u8>| #[trigger] lookup(t.update(i, (t[i].0, v)), q) == if q == t[i].0 {
            Some(v)
        } else {
            lookup(t, q)
        },
{
    let u = t.update(i, (t[i].0, v));
    assert forall|q: Seq<u8>| #[trigger] lookup(u, q) == if q == t[i].0 {
        Some(v)
    } else {
        lookup(t, q)
    } by {
        if q == t[i].0 {
            lemma_lookup_index(u, i);
        } else {
            if has_peer(t, q) {
                let j = choose|j: int| 0 <= j < t.len() && #[trigger] t[j].0 == q;
                lemma_lookup_index(t, j);
                lemma_lookup_index(u, j);
            } else {
                assert(!has_peer(u, q));
            }
        }
    }
}

pub proof fn lemma_lookup_push(t: TableView, p: Seq<u8>, v: PeerView)
    requires
        unique_ids(t),
        !has_peer(t, p),
    ensures
        unique_ids(t.push((p, v))),
        forall|q: Seq<u8>| #[trigger] lookup(t.push((p, v)), q) == if q == p {
            Some(v)
        } else {
            lookup(t, q)
        },
{
    let u = t.push((p, v));
    assert(unique_ids(u));
    assert forall|q: Seq<u8>| #[trigger] lookup(u, q) == if q == p {
        Some(v)
    } else {
        lookup(t, q)
    } by {
        if q == p {
            lemma_lookup_index(u, t.len() as int);
        } else {
            if has_peer(t, q) {
                let j = choose|j: int| 0 <= j < t.len() && #[trigger] t[j].0 == q;
                lemma_lookup_index(t, j);
                lemma_lookup_index(u, j);
            } else {
                assert(!has_peer(u, q));
            }
        }
    }
}

pub proof fn lemma_lookup_remove(t: TableView, i: int)
    requires
        unique_ids(t),
        0 <= i < t.len(),
    ensures
        unique_ids(t.remove(i)),
        forall|q: Seq<u8>| #[trigger] lookup(t.remove(i), q) == if q == t[i].0 {
            None
        } else {
            lookup(t, q)
        },
{
    let u = t.remove(i);
    assert(unique_ids(u)) by {
        assert forall|a: int, b: int| 0 <= a < u.len() && 0 <= b < u.len() && a != b implies #[trigger] u[a].0 != #[trigger] u[b].0 by {
            let a2 = if a < i { a } else { a + 1 };
            let b2 = if b < i { b } else { b + 1 };
            assert(u[a] == t[a2]);
            assert(u[b] == t[b2]);
        }
    }
    assert forall|q: Seq<u8>| #[trigger] lookup(u, q) == if q == t[i].0 {
        None
    } else {
        lookup(t, q)
    } by {
        if has_peer(u, q) {
            let j = choose|j: int| 0 <= j < u.len() && #[trigger] u[j].0 == q;
            let j2 = if j < i { j } else { j + 1 };
            assert(u[j] == t[j2]);
            lemma_lookup_index(u, j);
            lemma_lookup_index(t, j2);
        } else {
            if q != t[i].0 && has_peer(t, q) {
                let j = choose|j: int| 0 <= j < t.len() && #[trigger] t[j].0 == q;
                let j2 = if j < i { j } else { j - 1 };
                assert(u[j2] == t[j]);
            }
        }
    }
}

/// The network behaviour that exchanges blocks with peers.
pub struct Bitswap {
    events: VecDeque<BitswapEvent>,
    config: BitswapConfig,
    known_peers: Vec<PeerEntry>,
}

impl Bitswap {
    /// Every known peer, with its state, each once.
    pub closed spec fn table(&self) -> TableView {
        table_view(self.known_peers@)
    }

    /// The events waiting for the host, oldest first.
    pub closed spec fn events(&self) -> Seq<EventView> {
        self.events@.map_values(|e: BitswapEvent| e@)
    }

    /// The state of the peer, if it is known.
    pub open spec fn peer(&self, p: Seq<u8>) -> Option<PeerView> {
        lookup(self.table(), p)
    }

    /// Each known peer appears once in the table, and each pending message
    /// is well formed.
    pub open spec fn wf(&self) -> bool {
        &&& unique_ids(self.table())
        &&& self.states_wf()
    }

    pub closed spec fn states_wf(&self) -> bool {
        forall|i: int| 0 <= i < self.known_peers@.len() ==> (#[trigger] self.known_peers@[i]).state.wf()
    }

    pub fn new(config: BitswapConfig) -> (r: Bitswap)
        ensures
            r.wf(),
            r.table().len() == 0,
            forall|q: Seq<u8>| r.peer(q) is None,
            r.events().len() == 0,
    {
        let r = Bitswap { events: VecDeque::new(), config, known_peers: Vec::new() };
        assert(r.events().len() == 0);
        r
    }

    /// The index of the peer in the table, which gets a fresh entry if the
    /// peer is new to it.
    fn entry(&mut self, peer_id: &PeerId) -> (i: usize)
        requires
            old(self).wf(),
        ensures
            final(self).wf(),
            final(self).events() == old(self).events(),
            0 <= i < final(self).table().len(),
            final(self).table()[i as int].0 == peer_id@,
            final(self).table()[i as int].1 == lookup_or_default(old(self).table(), peer_id@),
            forall|q: Seq<u8>| #[trigger] lookup(final(self).table(), q) == if q == peer_id@ {
                Some(lookup_or_default(old(self).table(), peer_id@))
            } else {
                lookup(old(self).table(), q)
            },
    {
        let mut i: usize = 0;
        while i < self.known_peers.len()
            invariant
                0 <= i <= self.known_peers@.len(),
                self.wf(),
                self.table() == old(self).table(),
                self.events() == old(self).events(),
                forall|j: int| 0 <= j < i ==> #[trigger] self.table()[j].0 != peer_id@,
            decreases self.known_peers@.len() - i,
        {
            assert(self.table()[i as int].0 == self.known_peers@[i as int].id@);
            if self.known_peers[i].id.same(peer_id) {
                proof {
                    lemma_lookup_index(self.table(), i as int);
                }
                return i;
            }
            i = i + 1;
        }
        let ghost t = self.table();
        assert(!has_peer(t, peer_id@));
        self.known_peers.push(PeerEntry { id: peer_id.copy(), state: PeerState::new() });
        proof {
            assert(self.table() =~= t.push((peer_id@, default_peer())));
            lemma_lookup_push(t, peer_id@, default_peer());
            assert forall|k: int| 0 <= k < self.known_peers@.len() implies (#[trigger] self.known_peers@[k]).state.wf() by {
                if k < i {
                    assert(self.known_peers@[k] == old(self).known_peers@[k]);
                }
            }
        }
        i
    }

    /// Makes the peer known, with a fresh state if it was not.
    pub fn add_peer(&mut self, peer: PeerId)
        requires
            old(self).wf(),
        ensures
            final(self).wf(),
            final(self).events() == old(self).events(),
            forall|q: Seq<u8>| #[trigger] final(self).peer(q) == if q == peer@ {
                Some(lookup_or_default(old(self).table(), peer@))
            } else {
                old(self).peer(q)
            },
    {
        self.entry(&peer);
    }

    /// Appends a block payload to the message for the peer.
    pub fn send_block(&mut self, peer_id: &PeerId, cid: Cid, data: Vec<u8>)
        requires
            old(self).wf(),
        ensures
            final(self).wf(),
            final(self).events() == old(self).events(),
            forall|q: Seq<u8>| #[trigger] final(self).peer(q) == if q == peer_id@ {
                Some(
                    {
                        let v = lookup_or_default(old(self).table(), peer_id@);
                        (v.0, (v.1.0, v.1.1.push((cid@, data@)), v.1.2))
                    },
                )
            } else {
                old(self).peer(q)
            },
    {
        let i = self.entry(peer_id);
        let ghost t1 = self.table();
        let ghost k0 = self.known_peers@;
        self.known_peers[i].state.send_block(cid, data);
        proof {
            self.lemma_after_update(k0, t1, i as int);
        }
    }

    /// The table after the state at `i` changed, in a well-formed way.
    proof fn lemma_after_update(&self, k0: Seq<PeerEntry>, t1: TableView, i: int)
        requires
            unique_ids(t1),
            t1 == table_view(k0),
            0 <= i < k0.len(),
            forall|k: int| 0 <= k < k0.len() ==> (#[trigger] k0[k]).state.wf(),
            self.known_peers@.len() == k0.len(),
            self.known_peers@[i].id@ == k0[i].id@,
            self.known_peers@[i].state.wf(),
            forall|k: int| 0 <= k < k0.len() && k != i ==> #[trigger] self.known_peers@[k] == k0[k],
        ensures
            self.table() == t1.update(i, (t1[i].0, self.known_peers@[i].state@)),
            unique_ids(self.table()),
            forall|k: int| 0 <= k < self.known_peers@.len() ==> (#[trigger] self.known_peers@[k]).state.wf(),
            forall|q: Seq<u8>| #[trigger] lookup(self.table(), q) == if q == t1[i].0 {
                Some(self.known_peers@[i].state@)
            } else {
                lookup(t1, q)
            },
    {
        assert(self.table() =~= t1.update(i, (t1[i].0, self.known_peers@[i].state@)));
        lemma_lookup_update(t1, i, self.known_peers@[i].state@);
        assert forall|k: int| 0 <= k < self.known_peers@.len() implies (#[trigger] self.known_peers@[k]).state.wf() by {
            if k != i {
                assert(self.known_peers@[k] == k0[k]);
            }
        }
    }

    /// Adds a have announcement to the message for the peer.
    pub fn send_have_block(&mut self, peer_id: &PeerId, cid: Cid)
        requires
            old(self).wf(),
        ensures
            final(self).wf(),
            final(self).events() == old(self).events(),
            forall|q: Seq<u8>| #[trigger] final(self).peer(q) == if q == peer_id@ {
                Some(
                    {
                        let v = lookup_or_default(old(self).table(), peer_id@);
                        (v.0, with_presence(v.1, (cid@, PresenceType::Have)))
                    },
                )
            } else {
                old(self).peer(q)
            },
    {
        let i = self.entry(peer_id);
        let ghost t1 = self.table();
        let ghost k0 = self.known_peers@;
        self.known_peers[i].state.send_have_block(cid);
        proof {
            self.lemma_after_update(k0, t1, i as int);
        }
    }

    /// A connection to the peer is up: what is pending for it can go.
    pub fn inject_connection_established(&mut self, peer_id: &PeerId)
        requires
            old(self).wf(),
        ensures
            final(self).wf(),
            final(self).events() == old(self).events(),
            forall|q: Seq<u8>| #[trigger] final(self).peer(q) == if q == peer_id@ {
                Some((ConnState::Connected, lookup_or_default(old(self).table(), peer_id@).1))
            } else {
                old(self).peer(q)
            },
    {
        let i = self.entry(peer_id);
        let ghost t1 = self.table();
        let ghost k0 = self.known_peers@;
        self.known_peers[i].state.conn = ConnState::Connected;
        proof {
            self.lemma_after_update(k0, t1, i as int);
        }
    }

    /// A connection to the peer closed; with none left, the peer counts as
    /// disconnected, and keeps its pending message.
    pub fn inject_connection_closed(&mut self, peer_id: &PeerId, remaining_established: usize)
        requires
            old(self).wf(),
        ensures
            final(self).wf(),
            final(self).events() == old(self).events(),
            forall|q: Seq<u8>| #[trigger] final(self).peer(q) == if q == peer_id@ && remaining_established == 0 {
                match old(self).peer(q) {
                    Some(v) => Some((ConnState::Disconnected, v.1)),
                    None => None,
                }
            } else {
                old(self).peer(q)
            },
    {
        if remaining_established == 0 {
            if let Some(i) = self.index_of(peer_id) {
                let ghost t1 = self.table();
                let ghost k0 = self.known_peers@;
                self.known_peers[i].state.conn = ConnState::Disconnected;
                proof {
                    lemma_lookup_index(t1, i as int);
                    self.lemma_after_update(k0, t1, i as int);
                }
            }
        }
    }

    /// The index of the peer in the table, if it is known.
    fn index_of(&self, peer_id: &PeerId) -> (r: Option<usize>)
        requires
            self.wf(),
        ensures
            match r {
                None => !has_peer(self.table(), peer_id@) && self.peer(peer_id@) is None,
                Some(i) => 0 <= i < self.table().len() && self.table()[i as int].0 == peer_id@,
            },
    {
        let mut i: usize = 0;
        while i < self.known_peers.len()
            invariant
                0 <= i <= self.known_peers@.len(),
                forall|j: int| 0 <= j < i ==> #[trigger] self.table()[j].0 != peer_id@,
            decreases self.known_peers@.len() - i,
        {
            assert(self.table()[i as int].0 == self.known_peers@[i as int].id@);
            if self.known_peers[i].id.same(peer_id) {
                return Some(i);
            }
            i = i + 1;
        }
        None
    }

    /// A dial of the peer failed. After a connection limit the peer stays,
    /// disconnected, with its message, to be dialled again; after any other
    /// failure it is forgotten.
    pub fn inject_dial_failure(&mut self, peer_id: Option<PeerId>, error: DialFailure)
        requires
            old(self).wf(),
        ensures
            final(self).wf(),
            final(self).events() == old(self).events(),
            peer_id is None ==> final(self).table() == old(self).table(),
            peer_id is Some ==> forall|q: Seq<u8>| #[trigger] final(self).peer(q) == if q != peer_id->Some_0@ {
                old(self).peer(q)
            } else if error == DialFailure::ConnectionLimit {
                Some((ConnState::Disconnected, lookup_or_default(old(self).table(), q).1))
            } else {
                None
            },
    {
        if let Some(peer_id) = peer_id {
            if error == DialFailure::ConnectionLimit {
                let i = self.entry(&peer_id);
                let ghost t1 = self.table();
                let ghost k0 = self.known_peers@;
                self.known_peers[i].state.conn = ConnState::Disconnected;
                proof {
                    self.lemma_after_update(k0, t1, i as int);
                }
            } else {
                if let Some(i) = self.index_of(&peer_id) {
                    let ghost t1 = self.table();
                    let ghost k0 = self.known_peers@;
                    self.known_peers.remove(i);
                    proof {
                        assert(self.table() =~= t1.remove(i as int));
                        lemma_lookup_remove(t1, i as int);
                        assert forall|k: int| 0 <= k < self.known_peers@.len() implies (#[trigger] self.known_peers@[k]).state.wf() by {
                            if k < i {
                                assert(self.known_peers@[k] == k0[k]);
                            } else {
                                assert(self.known_peers@[k] == k0[k + 1]);
                            }
                        }
                    }
                }
            }
        }
    }

    /// Applies the change to the message of every known peer.
    fn apply_all(&mut self, cid: &Cid, op: &TableOp)
        requires
            old(self).wf(),
        ensures
            final(self).wf(),
            final(self).events() == old(self).events(),
            final(self).table() == table_apply(old(self).table(), *op, cid@),
            forall|q: Seq<u8>| #[trigger] final(self).peer(q) == match old(self).peer(q) {
                Some(v) => Some(op_effect(*op, cid@, q, v)),
                None => None,
            },
    {
        let ghost t0 = self.table();
        let mut i: usize = 0;
        while i < self.known_peers.len()
            invariant
                0 <= i <= self.known_peers@.len(),
                self.wf(),
                self.events() == old(self).events(),
                t0 == old(self).table(),
                self.table().len() == t0.len(),
                forall|j: int| 0 <= j < i ==> #[trigger] self.table()[j] == (t0[j].0, op_effect(*op, cid@, t0[j].0, t0[j].1)),
                forall|j: int| i <= j < t0.len() ==> #[trigger] self.table()[j] == t0[j],
            decreases self.known_peers@.len() - i,
        {
            let ghost k0 = self.known_peers@;
            let ghost t1 = self.table();
            assert(k0[i as int].state.wf());
            let is_sender = match op {
                TableOp::BlockFrom(s) => self.known_peers[i].id.same(s),
                _ => false,
            };
            match op {
                TableOp::CancelAll => self.known_peers[i].state.cancel_block(cid),
                TableOp::DropWants => self.known_peers[i].state.remove_block(cid),
                TableOp::DropWantHaves => self.known_peers[i].state.remove_want_have_block(cid),
                TableOp::BlockFrom(_) => {
                    if is_sender {
                        self.known_peers[i].state.cancel_block(cid);
                    } else {
                        self.known_peers[i].state.remove_block(cid);
                    }
                },
            }
            proof {
                self.lemma_after_update(k0, t1, i as int);
            }
            i = i + 1;
        }
        assert(self.table() =~= table_apply(t0, *op, cid@));
        proof {
            lemma_lookup_apply(t0, *op, cid@);
        }
    }

    /// Withdraws every want of the block: each known peer is sent a cancel,
    /// which supersedes any pending want of it.
    pub fn cancel_block(&mut self, cid: &Cid)
        requires
            old(self).wf(),
        ensures
            final(self).wf(),
            final(self).events() == old(self).events(),
            final(self).table() == table_apply(old(self).table(), TableOp::CancelAll, cid@),
            forall|q: Seq<u8>| #[trigger] final(self).peer(q) == match old(self).peer(q) {
                Some(v) => Some(op_effect(TableOp::CancelAll, cid@, q, v)),
                None => None,
            },
    {
        self.apply_all(cid, &TableOp::CancelAll);
    }

    /// Drops the pending wants of the block, without a cancel on the wire.
    pub fn cancel_want_block(&mut self, cid: &Cid)
        requires
            old(self).wf(),
        ensures
            final(self).wf(),
            final(self).events() == old(self).events(),
            final(self).table() == table_apply(old(self).table(), TableOp::DropWants, cid@),
            forall|q: Seq<u8>| #[trigger] final(self).peer(q) == match old(self).peer(q) {
                Some(v) => Some(op_effect(TableOp::DropWants, cid@, q, v)),
                None => None,
            },
    {
        self.apply_all(cid, &TableOp::DropWants);
    }

    /// Asks each provider for the block.
    pub fn want_block(&mut self, cid: Cid, priority: Priority, providers: PeerSet)
        requires
            old(self).wf(),
        ensures
            final(self).wf(),
            final(self).events() == old(self).events(),
            forall|q: Seq<u8>| #[trigger] final(self).peer(q) == if providers@.contains(q) {
                Some(
                    {
                        let v = lookup_or_default(old(self).table(), q);
                        (v.0, msg_with_entry(v.1, cid@, WantType::Block, priority))
                    },
                )
            } else {
                old(self).peer(q)
            },
    {
        let items = providers.to_vec();
        let mut i: usize = 0;
        while i < items.len()
            invariant
                0 <= i <= items@.len(),
                self.wf(),
                self.events() == old(self).events(),
                lists_set(items@, providers@),
                forall|q: Seq<u8>| #[trigger] lookup(self.table(), q) == if exists|k: int| 0 <= k < i && #[trigger] items@[k]@ == q {
                    Some(
                        {
                            let v = lookup_or_default(old(self).table(), q);
                            (v.0, msg_with_entry(v.1, cid@, WantType::Block, priority))
                        },
                    )
                } else {
                    lookup(old(self).table(), q)
                },
            decreases items@.len() - i,
        {
            let ghost mid = self.table();
            let ghost p = items@[i as int]@;
            let j = self.entry(&items[i]);
            let ghost t1 = self.table();
            let ghost k0 = self.known_peers@;
            assert(k0[j as int].state.wf());
            self.known_peers[j].state.want_block(&cid, priority);
            proof {
                self.lemma_after_update(k0, t1, j as int);
                assert(!(exists|k: int| 0 <= k < i && #[trigger] items@[k]@ == p));
                assert forall|q: Seq<u8>| #[trigger] lookup(self.table(), q) == if exists|k: int| 0 <= k < i + 1 && #[trigger] items@[k]@ == q {
                    Some(
                        {
                            let v = lookup_or_default(old(self).table(), q);
                            (v.0, msg_with_entry(v.1, cid@, WantType::Block, priority))
                        },
                    )
                } else {
                    lookup(old(self).table(), q)
                } by {
                    if q == p {
                        assert(items@[i as int]@ == q);
                    } else {
                        assert(lookup(t1, q) == lookup(mid, q));
                        if exists|k: int| 0 <= k < i + 1 && #[trigger] items@[k]@ == q {
                            let k = choose|k: int| 0 <= k < i + 1 && #[trigger] items@[k]@ == q;
                            assert(k < i);
                        }
                    }
                }
            }
            i = i + 1;
        }
        assert forall|q: Seq<u8>| #[trigger] self.peer(q) == if providers@.contains(q) {
            Some(
                {
                    let v = lookup_or_default(old(self).table(), q);
                    (v.0, msg_with_entry(v.1, cid@, WantType::Block, priority))
                },
            )
        } else {
            old(self).peer(q)
        } by {
            if providers@.contains(q) {
                let k = choose|k: int| 0 <= k < items@.len() && #[trigger] items@[k]@ == q;
            }
        }
    }

    /// Asks up to `MAX_PROVIDERS` connected peers, the first in the table,
    /// whether they have the block.
    pub fn find_providers(&mut self, cid: Cid, priority: Priority)
        requires
            old(self).wf(),
        ensures
            final(self).wf(),
            final(self).events() == old(self).events(),
            final(self).table().len() == old(self).table().len(),
            forall|j: int| 0 <= j < old(self).table().len() ==> #[trigger] final(self).table()[j] == if chosen(old(self).table(), j) {
                let e = old(self).table()[j];
                (e.0, (e.1.0, msg_with_entry(e.1.1, cid@, WantType::Have, priority)))
            } else {
                old(self).table()[j]
            },
    {
        let ghost t0 = self.table();
        let mut count: usize = 0;
        let mut i: usize = 0;
        while i < self.known_peers.len()
            invariant
                0 <= i <= self.known_peers@.len(),
                self.wf(),
                self.events() == old(self).events(),
                t0 == old(self).table(),
                self.table().len() == t0.len(),
                count == connected_before(t0, i as int),
                count <= i,
                forall|j: int| 0 <= j < i ==> #[trigger] self.table()[j] == if chosen(t0, j) {
                    (t0[j].0, (t0[j].1.0, msg_with_entry(t0[j].1.1, cid@, WantType::Have, priority)))
                } else {
                    t0[j]
                },
                forall|j: int| i <= j < t0.len() ==> #[trigger] self.table()[j] == t0[j],
            decreases self.known_peers@.len() - i,
        {
            let ghost k0 = self.known_peers@;
            let ghost t1 = self.table();
            assert(k0[i as int].state.wf());
            assert(t1[i as int] == t0[i as int]);
            if self.known_peers[i].state.is_connected() {
                if count < MAX_PROVIDERS {
                    self.known_peers[i].state.want_have_block(&cid, priority);
                    proof {
                        self.lemma_after_update(k0, t1, i as int);
                    }
                }
                count = count + 1;
            }
            i = i + 1;
        }
    }

    /// Takes the entry at `i` out of the table.
    fn take_entry(&mut self, i: usize) -> (r: PeerEntry)
        requires
            old(self).wf(),
            i < old(self).table().len(),
        ensures
            r.state.wf(),
            (r.id@, r.state@) == old(self).table()[i as int],
            final(self).table() == old(self).table().remove(i as int),
            final(self).events() == old(self).events(),
            unique_ids(final(self).table()),
            !has_peer(final(self).table(), r.id@),
            forall|k: int| 0 <= k < final(self).known_peers@.len() ==> (#[trigger] final(self).known_peers@[k]).state.wf(),
    {
        let ghost t = self.table();
        let ghost k0 = self.known_peers@;
        let e = self.known_peers.remove(i);
        proof {
            assert(self.table() =~= t.remove(i as int));
            lemma_lookup_remove(t, i as int);
            assert(k0[i as int].state.wf());
            assert forall|k: int| 0 <= k < self.known_peers@.len() implies (#[trigger] self.known_peers@[k]).state.wf() by {
                if k < i {
                    assert(self.known_peers@[k] == k0[k]);
                } else {
                    assert(self.known_peers@[k] == k0[k + 1]);
                }
            }
            if has_peer(self.table(), e.id@) {
                let j = choose|j: int| 0 <= j < self.table().len() && #[trigger] self.table()[j].0 == e.id@;
                lemma_lookup_index(self.table(), j);
                lemma_lookup_index(t, i as int);
            }
        }
        e
    }

    /// Puts a taken entry back, last in the table.
    fn put_back(&mut self, e: PeerEntry, t0: Ghost<TableView>, i: Ghost<int>)
        requires
            e.state.wf(),
            unique_ids(t0@),
            0 <= i@ < t0@.len(),
            e.id@ == t0@[i@].0,
            old(self).table() == t0@.remove(i@),
            unique_ids(old(self).table()),
            !has_peer(old(self).table(), e.id@),
            forall|k: int| 0 <= k < old(self).known_peers@.len() ==> (#[trigger] old(self).known_peers@[k]).state.wf(),
        ensures
            final(self).wf(),
            final(self).events() == old(self).events(),
            final(self).table() == t0@.remove(i@).push((e.id@, e.state@)),
            forall|q: Seq<u8>| #[trigger] final(self).peer(q) == if q == e.id@ {
                Some(e.state@)
            } else {
                lookup(t0@, q)
            },
    {
        let ghost t = self.table();
        let ghost v = e.state@;
        let ghost id = e.id@;
        let ghost k0 = self.known_peers@;
        self.known_peers.push(e);
        proof {
            assert(self.table() =~= t.push((id, v)));
            lemma_lookup_push(t, id, v);
            lemma_lookup_remove(t0@, i@);
            assert forall|k: int| 0 <= k < self.known_peers@.len() implies (#[trigger] self.known_peers@[k]).state.wf() by {
                if k < k0.len() {
                    assert(self.known_peers@[k] == k0[k]);
                }
            }
        }
    }

    /// The next thing to do: hand over a waiting event; else send the
    /// pending message of a connected peer, which leaves that peer with an
    /// empty one; else dial a peer that has something to send and no
    /// connection. The peer served goes last in the table, so that every
    /// waiting peer comes first in its turn.
    pub fn poll(&mut self) -> (r: Option<BehaviourAction>)
        requires
            old(self).wf(),
        ensures
            final(self).wf(),
            old(self).events().len() > 0 ==> {
                &&& r matches Some(a)
                &&& a@ == ActionView::Event(old(self).events()[0])
                &&& final(self).events() == old(self).events().drop_first()
                &&& final(self).table() == old(self).table()
            },
            old(self).events().len() == 0 ==> final(self).events() == old(self).events(),
            old(self).events().len() == 0 && (exists|i: int| #[trigger] first_ready(old(self).table(), i)) ==> {
                &&& r matches Some(a)
                &&& exists|i: int| {
                    &&& #[trigger] first_ready(old(self).table(), i)
                    &&& a@ == ActionView::Notify(old(self).table()[i].0, old(self).table()[i].1.1)
                    &&& final(self).table() == old(self).table().remove(i).push(
                        (old(self).table()[i].0, (ConnState::Connected, empty_message())),
                    )
                }
            },
            old(self).events().len() == 0 && no_ready(old(self).table()) && (exists|i: int| #[trigger] first_to_dial(old(self).table(), i)) ==> {
                &&& r matches Some(a)
                &&& exists|i: int| {
                    &&& #[trigger] first_to_dial(old(self).table(), i)
                    &&& a@ == ActionView::Dial(old(self).table()[i].0)
                    &&& final(self).table() == old(self).table().remove(i).push(
                        (old(self).table()[i].0, (ConnState::Dialing, old(self).table()[i].1.1)),
                    )
                }
            },
            r matches Some(a) ==> (a@ is Notify ==> {
                &&& old(self).peer(a@->Notify_0) == Some((ConnState::Connected, a@->Notify_1))
                &&& final(self).peer(a@->Notify_0) == Some((ConnState::Connected, empty_message()))
                &&& forall|q: Seq<u8>| q != a@->Notify_0 ==> #[trigger] final(self).peer(q) == old(self).peer(q)
            }),
            r matches Some(a) ==> (a@ is Dial ==> {
                &&& old(self).peer(a@->Dial_0) is Some
                &&& peer_needs_connection(old(self).peer(a@->Dial_0)->Some_0)
                &&& final(self).peer(a@->Dial_0) == Some((ConnState::Dialing, old(self).peer(a@->Dial_0)->Some_0.1))
                &&& forall|q: Seq<u8>| q != a@->Dial_0 ==> #[trigger] final(self).peer(q) == old(self).peer(q)
            }),
            old(self).events().len() == 0 && no_ready(old(self).table()) && no_to_dial(old(self).table()) ==> {
                &&& r is None
                &&& final(self).table() == old(self).table()
            },
    {
        if let Some(event) = self.events.pop_front() {
            assert(self.events() =~= old(self).events().drop_first());
            return Some(BehaviourAction::GenerateEvent(event));
        }
        assert(self.events@.len() == 0);
        assert(old(self).events().len() == 0);
        let ghost t0 = self.table();
        let mut i: usize = 0;
        while i < self.known_peers.len()
            invariant
                0 <= i <= self.known_peers@.len(),
                self.wf(),
                self.table() == t0,
                self.events() == old(self).events(),
                t0 == old(self).table(),
                old(self).events().len() == 0,
                forall|j: int| 0 <= j < i ==> !#[trigger] peer_ready(t0[j].1),
            decreases self.known_peers@.len() - i,
        {
            assert(t0[i as int].1 == self.known_peers@[i as int].state@);
            if self.known_peers[i].state.is_connected() && !self.known_peers[i].state.is_empty() {
                let mut entry = self.take_entry(i);
                let msg = entry.state.send_message();
                let peer_id = entry.id.copy();
                self.put_back(entry, Ghost(t0), Ghost(i as int));
                proof {
                    assert(first_ready(t0, i as int));
                }
                return Some(BehaviourAction::NotifyHandler { peer_id, event: msg });
            }
            i = i + 1;
        }
        let mut i: usize = 0;
        while i < self.known_peers.len()
            invariant
                0 <= i <= self.known_peers@.len(),
                self.wf(),
                self.table() == t0,
                self.events() == old(self).events(),
                t0 == old(self).table(),
                no_ready(t0),
                old(self).events().len() == 0,
                forall|j: int| 0 <= j < i ==> !#[trigger] peer_needs_connection(t0[j].1),
            decreases self.known_peers@.len() - i,
        {
            assert(t0[i as int].1 == self.known_peers@[i as int].state@);
            if self.known_peers[i].state.needs_connection() {
                let mut entry = self.take_entry(i);
                entry.state.conn = ConnState::Dialing;
                let peer_id = entry.id.copy();
                self.put_back(entry, Ghost(t0), Ghost(i as int));
                proof {
                    assert(first_to_dial(t0, i as int));
                }
                return Some(BehaviourAction::Dial { peer_id });
            }
            i = i + 1;
        }
        None
    }

    /// Queues an inbound request event for each entry, in order.
    fn push_requests(&mut self, sender: &PeerId, entries: &Vec<Entry>)
        requires
            old(self).wf(),
        ensures
            final(self).wf(),
            final(self).table() == old(self).table(),
            final(self).events() == old(self).events() + request_events(sender@, entries_view(entries@)),
    {
        let mut i: usize = 0;
        while i < entries.len()
            invariant
                0 <= i <= entries@.len(),
                self.wf(),
                self.table() == old(self).table(),
                self.events() == old(self).events() + request_events(sender@, entries_view(entries@.subrange(0, i as int))),
            decreases entries@.len() - i,
        {
            let e = &entries[i];
            let ghost before = self.events();
            let request = match e.want_type {
                WantType::Block => InboundRequest::Want { sender: sender.copy(), cid: e.cid.copy(), priority: e.priority },
                WantType::Have => InboundRequest::WantHave { sender: sender.copy(), cid: e.cid.copy(), priority: e.priority },
                WantType::Cancel => InboundRequest::Cancel { sender: sender.copy(), cid: e.cid.copy() },
            };
            self.events.push_back(BitswapEvent::InboundRequest { request });
            proof {
                assert(entries_view(entries@.subrange(0, i as int + 1)) =~= entries_view(entries@.subrange(0, i as int)).push(e@));
                assert(request_events(sender@, entries_view(entries@.subrange(0, i as int + 1))) =~= request_events(sender@, entries_view(entries@.subrange(0, i as int))).push(request_event(sender@, e@)));
                assert(self.events() =~= before.push(request_event(sender@, e@)));
            }
            i = i + 1;
        }
        assert(entries@.subrange(0, entries@.len() as int) =~= entries@);
    }

    /// Handles what a connection handler hands back. A message from the
    /// peer is taken in this order: its blocks complete the wants of them,
    /// and withdraw those wants from every peer (the sender gets a cancel);
    /// its have announcements report the peer as a provider, and withdraw
    /// the want-haves of those blocks; then its wants, want-haves and
    /// cancels are reported as inbound requests.
    pub fn inject_event(&mut self, peer_id: PeerId, event: HandlerEvent)
        requires
            old(self).wf(),
        ensures
            final(self).wf(),
            event is Upgrade ==> final(self).table() == old(self).table() && final(self).events() == old(self).events(),
            event matches HandlerEvent::Bitswap(m) ==> {
                &&& final(self).events() == old(self).events() + inbound_events(peer_id@, m@)
                &&& final(self).table() == table_after_presences(
                    table_after_blocks(old(self).table(), TableOp::BlockFrom(peer_id), m@.1),
                    m@.2,
                )
            },
    {
        match event {
            HandlerEvent::Upgrade => {},
            HandlerEvent::Bitswap(message) => {
                self.process_message(peer_id, &message);
            },
        }
    }

    fn process_message(&mut self, peer_id: PeerId, message: &BitswapMessage)
        requires
            old(self).wf(),
        ensures
            final(self).wf(),
            final(self).events() == old(self).events() + inbound_events(peer_id@, message@),
            final(self).table() == table_after_presences(
                table_after_blocks(old(self).table(), TableOp::BlockFrom(peer_id), message@.1),
                message@.2,
            ),
    {
        let sender = peer_id.copy();
        let ghost pv = peer_id@;
        let op = TableOp::BlockFrom(peer_id);
        let ghost t0 = self.table();
        let ghost ev0 = self.events();
        let blocks = message.blocks();
        let ghost bs = message@.1;
        let mut i: usize = 0;
        while i < blocks.len()
            invariant
                0 <= i <= blocks@.len(),
                self.wf(),
                sender@ == pv,
                op == TableOp::BlockFrom(peer_id),
                bs == blocks_view(blocks@),
                self.table() == table_after_blocks(t0, op, bs.subrange(0, i as int)),
                self.events() == ev0 + block_events(pv, bs.subrange(0, i as int)),
            decreases blocks@.len() - i,
        {
            let b = &blocks[i];
            assert(b@ == bs[i as int]);
            self.apply_all(&b.cid, &op);
            let ghost before = self.events();
            let result = QueryResult::Want(WantResult::Success { sender: sender.copy(), cid: b.cid.copy(), data: copy_bytes(&b.data) });
            self.events.push_back(BitswapEvent::OutboundQueryCompleted { result });
            proof {
                assert(bs.subrange(0, i as int + 1).drop_last() =~= bs.subrange(0, i as int));
                assert(bs.subrange(0, i as int + 1) =~= bs.subrange(0, i as int).push(bs[i as int]));
                assert(block_events(pv, bs.subrange(0, i as int + 1)) =~= block_events(pv, bs.subrange(0, i as int)).push(
                    EventView::WantOk { sender: pv, cid: bs[i as int].0, data: bs[i as int].1 },
                ));
                assert(self.events() =~= before.push(EventView::WantOk { sender: pv, cid: bs[i as int].0, data: bs[i as int].1 }));
            }
            i = i + 1;
        }
        assert(bs.subrange(0, bs.len() as int) =~= bs);
        let ghost t1 = self.table();
        let ghost ev1 = self.events();
        let presences = message.block_presences();
        let ghost ps = message@.2;
        let ghost hf = is_have_fn();
        let mut i: usize = 0;
        while i < presences.len()
            invariant
                0 <= i <= presences@.len(),
                self.wf(),
                sender@ == pv,
                hf == is_have_fn(),
                ps == presences_view(presences@),
                self.table() == table_after_presences(t1, ps.subrange(0, i as int)),
                self.events() == ev1 + presence_events(pv, ps.subrange(0, i as int)),
            decreases presences@.len() - i,
        {
            let bp = &presences[i];
            assert(bp@ == ps[i as int]);
            let ghost before = self.events();
            proof {
                assert(ps.subrange(0, i as int + 1).drop_last() =~= ps.subrange(0, i as int));
                assert(ps.subrange(0, i as int + 1) =~= ps.subrange(0, i as int).push(ps[i as int]));
                ps.subrange(0, i as int).lemma_filter_push(ps[i as int], hf);
            }
            if bp.is_have() {
                self.apply_all(&bp.cid, &TableOp::DropWantHaves);
                let result = QueryResult::FindProviders(FindProvidersResult::Success { cid: bp.cid.copy(), provider: sender.copy() });
                self.events.push_back(BitswapEvent::OutboundQueryCompleted { result });
                proof {
                    assert(ps.subrange(0, i as int).filter(hf).push(ps[i as int]).map_values(|p: (Seq<u8>, PresenceType)| EventView::FindProvidersOk { cid: p.0, provider: pv })
                        =~= ps.subrange(0, i as int).filter(hf).map_values(|p: (Seq<u8>, PresenceType)| EventView::FindProvidersOk { cid: p.0, provider: pv }).push(
                        EventView::FindProvidersOk { cid: ps[i as int].0, provider: pv },
                    ));
                    assert(self.events() =~= before.push(EventView::FindProvidersOk { cid: ps[i as int].0, provider: pv }));
                }
            }
            i = i + 1;
        }
        assert(ps.subrange(0, ps.len() as int) =~= ps);
        let wl = message.wantlist();
        let wants = wl.of_type(WantType::Block);
        self.push_requests(&sender, &wants);
        let want_haves = wl.of_type(WantType::Have);
        self.push_requests(&sender, &want_haves);
        let cancels = wl.of_type(WantType::Cancel);
        self.push_requests(&sender, &cancels);
        proof {
            let w = message@.0;
            assert(self.events() =~= old(self).events() + inbound_events(pv, message@));
        }
    }
}

pub open spec fn is_have_fn() -> spec_fn((Seq<u8>, PresenceType)) -> bool {
    |p: (Seq<u8>, PresenceType)| p.1 == PresenceType::Have
}

/// The table once each of the blocks came in, in order.
pub open spec fn table_after_blocks(t: TableView, op: TableOp, bs: Seq<(Seq<u8>, Seq<u8>)>) -> TableView
    decreases bs.len(),
{
    if bs.len() == 0 {
        t
    } else {
        table_apply(table_after_blocks(t, op, bs.drop_last()), op, bs.last().0)
    }
}

/// The table once each have announcement came in, in order.
pub open spec fn table_after_presences(t: TableView, ps: Seq<(Seq<u8>, PresenceType)>) -> TableView
    decreases ps.len(),
{
    if ps.len() == 0 {
        t
    } else {
        let r = table_after_presences(t, ps.drop_last());
        if ps.last().1 == PresenceType::Have {
            table_apply(r, TableOp::DropWantHaves, ps.last().0)
        } else {
            r
        }
    }
}

pub open spec fn block_events(sender: Seq<u8>, bs: Seq<(Seq<u8>, Seq<u8>)>) -> Seq<EventView> {
    bs.map_values(|b: (Seq<u8>, Seq<u8>)| EventView::WantOk { sender, cid: b.0, data: b.1 })
}

pub open spec fn presence_events(sender: Seq<u8>, ps: Seq<(Seq<u8>, PresenceType)>) -> Seq<EventView> {
    ps.filter(is_have_fn()).map_values(|p: (Seq<u8>, PresenceType)| EventView::FindProvidersOk { cid: p.0, provider: sender })
}

pub open spec fn request_event(sender: Seq<u8>, e: EntryView) -> EventView {
    match e.1 {
        WantType::Block => EventView::InboundWant { sender, cid: e.0, priority: e.2 },
        WantType::Have => EventView::InboundWantHave { sender, cid: e.0, priority: e.2 },
        WantType::Cancel => EventView::InboundCancel { sender, cid: e.0 },
    }
}

pub open spec fn request_events(sender: Seq<u8>, es: Seq<EntryView>) -> Seq<EventView> {
    es.map_values(|e: EntryView| request_event(sender, e))
}

pub open spec fn of_type(w: Seq<EntryView>, t: WantType) -> Seq<EntryView> {
    w.filter(pick_fn(Pick::OfType(t), Seq::<u8>::empty()))
}

/// The events that a message from the sender gives, in order: a completed
/// want per block, a found provider per have announcement, then an
/// inbound request per want, want-have and cancel.
pub open spec fn inbound_events(sender: Seq<u8>, m: MessageView) -> Seq<EventView> {
    block_events(sender, m.1) + presence_events(sender, m.2) + request_events(sender, of_type(m.0, WantType::Block))
        + request_events(sender, of_type(m.0, WantType::Have)) + request_events(sender, of_type(m.0, WantType::Cancel))
}

/// The number of connected peers before index `i`.
pub open spec fn connected_before(t: TableView, i: int) -> nat
    decreases i,
{
    if i <= 0 {
        0
    } else {
        connected_before(t, i - 1) + if t[i - 1].1.0 == ConnState::Connected {
            1nat
        } else {
            0nat
        }
    }
}

/// The peer at `j` is among the first `MAX_PROVIDERS` connected ones.
pub open spec fn chosen(t: TableView, j: int) -> bool {
    t[j].1.0 == ConnState::Connected && connected_before(t, j) < MAX_PROVIDERS
}

/// Connected, with something to send.
pub open spec fn peer_ready(v: PeerView) -> bool {
    v.0 == ConnState::Connected && !message_is_empty(v.1)
}

pub open spec fn first_ready(t: TableView, i: int) -> bool {
    &&& 0 <= i < t.len()
    &&& peer_ready(t[i].1)
    &&& forall|j: int| 0 <= j < i ==> !#[trigger] peer_ready(t[j].1)
}

pub open spec fn no_ready(t: TableView) -> bool {
    forall|j: int| 0 <= j < t.len() ==> !#[trigger] peer_ready(t[j].1)
}

pub open spec fn first_to_dial(t: TableView, i: int) -> bool {
    &&& 0 <= i < t.len()
    &&& peer_needs_connection(t[i].1)
    &&& forall|j: int| 0 <= j < i ==> !#[trigger] peer_needs_connection(t[j].1)
}

pub open spec fn no_to_dial(t: TableView) -> bool {
    forall|j: int| 0 <= j < t.len() ==> !#[trigger] peer_needs_connection(t[j].1)
}

impl Bitswap {
    /// The message pending for any known peer holds at most one wantlist
    /// entry per block, and each presence announcement once.
    pub proof fn lemma_pending_message_unique(&self, p: Seq<u8>)
        requires
            self.wf(),
            self.peer(p) is Some,
        ensures
            unique_cids(self.peer(p)->Some_0.1.0),
            self.peer(p)->Some_0.1.2.no_duplicates(),
    {
        let t = self.table();
        let j = choose|j: int| 0 <= j < t.len() && #[trigger] t[j].0 == p;
        lemma_lookup_index(t, j);
        assert(self.known_peers@[j].state.wf());
    }
}

/// Once the table has cancelled a block, no peer's pending message wants
/// it: every entry of the block is the cancel.
pub proof fn lemma_cancel_leaves_no_want(t: TableView, c: Seq<u8>)
    ensures
        forall|i: int, k: int| 0 <= i < t.len() && 0 <= k < table_apply(t, TableOp::CancelAll, c)[i].1.1.0.len()
            && (#[trigger] table_apply(t, TableOp::CancelAll, c)[i].1.1.0[k]).0 == c
            ==> table_apply(t, TableOp::CancelAll, c)[i].1.1.0[k].1 == WantType::Cancel,
{
    assert forall|i: int, k: int| 0 <= i < t.len() && 0 <= k < table_apply(t, TableOp::CancelAll, c)[i].1.1.0.len()
        && (#[trigger] table_apply(t, TableOp::CancelAll, c)[i].1.1.0[k]).0 == c
        implies table_apply(t, TableOp::CancelAll, c)[i].1.1.0[k].1 == WantType::Cancel by {
        let w = t[i].1.1.0;
        let f = w.filter(pick_fn(Pick::OtherCids, c));
        if k < f.len() {
            w.lemma_filter_pred(pick_fn(Pick::OtherCids, c), k);
        }
    }
}

/// Once a block came in, no peer's pending message wants it any more: the
/// sender has a cancel of it, the others no entry that asks for it.
pub proof fn lemma_block_leaves_no_want(t: TableView, sender: PeerId, c: Seq<u8>)
    ensures
        forall|i: int, k: int| 0 <= i < t.len() && 0 <= k < table_apply(t, TableOp::BlockFrom(sender), c)[i].1.1.0.len()
            && (#[trigger] table_apply(t, TableOp::BlockFrom(sender), c)[i].1.1.0[k]).0 == c
            ==> table_apply(t, TableOp::BlockFrom(sender), c)[i].1.1.0[k].1 == WantType::Cancel,
{
    let op = TableOp::BlockFrom(sender);
    assert forall|i: int, k: int| 0 <= i < t.len() && 0 <= k < table_apply(t, op, c)[i].1.1.0.len()
        && (#[trigger] table_apply(t, op, c)[i].1.1.0[k]).0 == c
        implies table_apply(t, op, c)[i].1.1.0[k].1 == WantType::Cancel by {
        let w = t[i].1.1.0;
        if t[i].0 == sender@ {
            let f = w.filter(pick_fn(Pick::OtherCids, c));
            if k < f.len() {
                w.lemma_filter_pred(pick_fn(Pick::OtherCids, c), k);
            }
        } else {
            w.lemma_filter_pred(pick_fn(Pick::NoWantsOf, c), k);
        }
    }
}

/// A change made to every peer's message changes what a lookup finds in
/// the same way.
pub proof fn lemma_lookup_apply(t: TableView, op: TableOp, c: Seq<u8>)
    requires
        unique_ids(t),
    ensures
        unique_ids(table_apply(t, op, c)),
        forall|q: Seq<u8>| #[trigger] lookup(table_apply(t, op, c), q) == match lookup(t, q) {
            Some(v) => Some(op_effect(op, c, q, v)),
            None => None,
        },
{
    let u = table_apply(t, op, c);
    assert(unique_ids(u)) by {
        assert forall|a: int, b: int| 0 <= a < u.len() && 0 <= b < u.len() && a != b implies #[trigger] u[a].0 != #[trigger] u[b].0 by {
            assert(u[a].0 == t[a].0);
            assert(u[b].0 == t[b].0);
        }
    }
    assert forall|q: Seq<u8>| #[trigger] lookup(u, q) == match lookup(t, q) {
        Some(v) => Some(op_effect(op, c, q, v)),
        None => None,
    } by {
        if has_peer(t, q) {
            let j = choose|j: int| 0 <= j < t.len() && #[trigger] t[j].0 == q;
            lemma_lookup_index(t, j);
            assert(u[j].0 == q);
            lemma_lookup_index(u, j);
        } else {
            if has_peer(u, q) {
                let j = choose|j: int| 0 <= j < u.len() && #[trigger] u[j].0 == q;
                assert(t[j].0 == q);
            }
        }
    }
}

/// When a poll serves the peer at `i`, every peer behind it moves up one
/// place, and the served peer goes last: a peer that keeps waiting is
/// served after at most as many polls as there are peers before it.
pub proof fn lemma_waiting_peer_moves_up(t: TableView, i: int, j: int, served: (Seq<u8>, PeerView))
    requires
        0 <= i < j < t.len(),
    ensures
        t.remove(i).push(served)[j - 1] == t[j],
        t.remove(i).push(served)[t.len() - 1] == served,
{
}

impl Default for Bitswap {
    fn default() -> (r: Bitswap)
        ensures
            r.wf(),
            r.table().len() == 0,
            r.events().len() == 0,
    {
        Bitswap::new(BitswapConfig {})
    }
}

impl Default for PeerState {
    fn default() -> (r: PeerState)
        ensures
            r.wf(),
            r@ == default_peer(),
    {
        PeerState::new()
    }
}

/// Seconds that an idle substream is kept open.
pub const CONN_KEEPALIVE_SECS: u64 = 30;

/// Seconds that the negotiation of an outbound substream may take.
pub const OUTBOUND_SUBSTREAM_TIMEOUT_SECS: u64 = 30;

/// Outbound substreams that a connection negotiates at once, at most.
pub const MAX_DIAL_NEGOTIATED: u32 = 64;

/// How the connection handler of each peer is set up.
#[derive(Clone, Copy, Debug, PartialEq, Eq, Structural)]
pub struct HandlerConfig {
    pub keep_alive_timeout_secs: u64,
    pub outbound_substream_timeout_secs: u64,
    pub max_dial_negotiated: u32,
}

impl Bitswap {
    /// The setup of a new connection handler: one message per substream,
    /// idle substreams closed after the keep-alive time.
    pub fn new_handler(&self) -> (r: HandlerConfig)
        ensures
            r.keep_alive_timeout_secs == CONN_KEEPALIVE_SECS,
            r.outbound_substream_timeout_secs == OUTBOUND_SUBSTREAM_TIMEOUT_SECS,
            r.max_dial_negotiated == MAX_DIAL_NEGOTIATED,
    {
        HandlerConfig {
            keep_alive_timeout_secs: CONN_KEEPALIVE_SECS,
            outbound_substream_timeout_secs: OUTBOUND_SUBSTREAM_TIMEOUT_SECS,
            max_dial_negotiated: MAX_DIAL_NEGOTIATED,
        }
    }
}

/// A change made to the message of every known peer.
pub enum TableOp {
    /// Record a cancel of the block.
    CancelAll,
    /// Drop the want-block and want-have entries of the block.
    DropWants,
    /// Drop the want-have entries of the block.
    DropWantHaves,
    /// The block came from this peer: it is sent a cancel, and the others
    /// lose their wants of the block.
    BlockFrom(PeerId),
}

pub open spec fn op_effect(op: TableOp, cid: Seq<u8>, id: Seq<u8>, v: PeerView) -> PeerView {
    match op {
        TableOp::CancelAll => (v.0, msg_with_entry(v.1, cid, WantType::Cancel, 0u32)),
        TableOp::DropWants => (v.0, msg_filtered(v.1, Pick::NoWantsOf, cid)),
        TableOp::DropWantHaves => (v.0, msg_filtered(v.1, Pick::NoWantHaveOf, cid)),
        TableOp::BlockFrom(s) => if id == s@ {
            (v.0, msg_with_entry(v.1, cid, WantType::Cancel, 0u32))
        } else {
            (v.0, msg_filtered(v.1, Pick::NoWantsOf, cid))
        },
    }
}

/// The table with the change made to every peer's message.
pub open spec fn table_apply(t: TableView, op: TableOp, cid: Seq<u8>) -> TableView {
    t.map_values(|e: (Seq<u8>, PeerView)| (e.0, op_effect(op, cid, e.0, e.1)))
}

} // verus!
