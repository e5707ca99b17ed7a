//! The query manager: a registry of outstanding queries, spread over the
//! peers that they concern.
use vstd::prelude::*;
use std::collections::VecDeque;
use crate::events::{
    ActionView, BehaviourAction, BitswapEvent, CancelResult, EventView, FindProvidersResult, QueryError,
    QueryResult, SendHaveResult, SendResult, WantResult,
};
use crate::ids::{Block, Cid, PeerId, Priority};
use crate::message::{
    empty_message, message_is_empty, pick_fn, with_presence, BitswapMessage, BlockPresence,
    EntryView, MessageView, Pick, PresenceType, WantType,
};
use crate::peer_set::{lists_set, PeerSet};

verus! {

/// Number of providers at which a search for providers ends.
pub const FIND_PROVIDERS_SATURATION: usize = 40;

/// Names a query for as long as it is registered.
#[derive(Clone, Copy, Debug, PartialEq, Eq, Hash, Structural)]
pub struct QueryId(pub usize);

/// Whether a query was put in a message yet, and to which peers.
pub enum State {
    New,
    Sent(PeerSet),
}

impl View for State {
    type V = Option<Set<Seq<u8>>>;

    open spec fn view(&self) -> Option<Set<Seq<u8>>> {
        match self {
            State::New => None,
            State::Sent(s) => Some(s@),
        }
    }
}

impl State {
    pub open spec fn wf(&self) -> bool {
        match self {
            State::New => true,
            State::Sent(s) => s.wf(),
        }
    }

    /// Records that the query went to the peer.
    pub fn add(&mut self, p: &PeerId)
        requires
            old(self).wf(),
        ensures
            final(self).wf(),
            final(self)@ == add_sent(old(self)@, p@),
    {
        match self {
            State::New => {
                let mut s = PeerSet::new();
                s.insert(p.copy());
                *self = State::Sent(s);
            },
            State::Sent(s) => {
                s.insert(p.copy());
            },
        }
    }

    /// Forgets that the query went to the peer.
    pub fn forget(&mut self, p: &PeerId)
        requires
            old(self).wf(),
        ensures
            final(self).wf(),
            final(self)@ == forget_sent(old(self)@, p@),
    {
        match self {
            State::New => {},
            State::Sent(s) => {
                s.remove(p);
            },
        }
    }

    pub fn contains(&self, p: &PeerId) -> (r: bool)
        ensures
            r == contacted(self@).contains(p@),
    {
        match self {
            State::New => false,
            State::Sent(s) => s.contains(p),
        }
    }

    pub fn is_sent_to_none(&self) -> (r: bool)
        requires
            self.wf(),
        ensures
            r == (self@ == Some(Set::<Seq<u8>>::empty())),
    {
        match self {
            State::New => false,
            State::Sent(s) => s.is_empty(),
        }
    }

    pub fn is_new(&self) -> (r: bool)
        ensures
            r == (self@ is None),
    {
        match self {
            State::New => true,
            State::Sent(_) => false,
        }
    }
}

/// The peers that a query went to.
pub open spec fn contacted(sent: Option<Set<Seq<u8>>>) -> Set<Seq<u8>> {
    match sent {
        None => Set::empty(),
        Some(s) => s,
    }
}

pub open spec fn add_sent(sent: Option<Set<Seq<u8>>>, p: Seq<u8>) -> Option<Set<Seq<u8>>> {
    Some(contacted(sent).insert(p))
}

pub open spec fn forget_sent(sent: Option<Set<Seq<u8>>>, p: Seq<u8>) -> Option<Set<Seq<u8>>> {
    match sent {
        None => None,
        Some(s) => Some(s.remove(p)),
    }
}

/// A query as a value.
pub enum QueryView {
    Want { providers: Set<Seq<u8>>, cid: Seq<u8>, priority: u32, sent: Option<Set<Seq<u8>>> },
    FindProviders {
        cid: Seq<u8>,
        peers: Set<Seq<u8>>,
        providers: Set<Seq<u8>>,
        sent: Option<Set<Seq<u8>>>,
        priority: u32,
    },
    Cancel { providers: Set<Seq<u8>>, cid: Seq<u8>, sent: Option<Set<Seq<u8>>> },
    Send { receiver: Seq<u8>, block: (Seq<u8>, Seq<u8>), sent: Option<Set<Seq<u8>>> },
    SendHave { receiver: Seq<u8>, cid: Seq<u8>, sent: Option<Set<Seq<u8>>> },
}

pub open spec fn sent_of(q: QueryView) -> Option<Set<Seq<u8>>> {
    match q {
        QueryView::Want { sent, .. } => sent,
        QueryView::FindProviders { sent, .. } => sent,
        QueryView::Cancel { sent, .. } => sent,
        QueryView::Send { sent, .. } => sent,
        QueryView::SendHave { sent, .. } => sent,
    }
}

/// The peer is one that the query still has to go to.
pub open spec fn has_unused(q: QueryView, p: Seq<u8>) -> bool {
    match q {
        QueryView::Want { providers, .. } => providers.contains(p),
        QueryView::Cancel { providers, .. } => providers.contains(p),
        QueryView::FindProviders { peers, .. } => peers.contains(p),
        QueryView::Send { receiver, .. } => receiver == p,
        QueryView::SendHave { receiver, .. } => receiver == p,
    }
}

/// The peer is one that the query still has to go to, or went to.
pub open spec fn concerns(q: QueryView, p: Seq<u8>) -> bool {
    has_unused(q, p) || contacted(sent_of(q)).contains(p)
}

/// A send that already went out is dropped when its receiver is polled again.
pub open spec fn poll_drops(q: QueryView, p: Seq<u8>) -> bool {
    has_unused(q, p) && match q {
        QueryView::Send { sent, .. } => sent is Some,
        QueryView::SendHave { sent, .. } => sent is Some,
        _ => false,
    }
}

/// The query once it has been put in a message for the peer.
pub open spec fn attached(q: QueryView, p: Seq<u8>) -> QueryView {
    if !has_unused(q, p) {
        q
    } else {
        match q {
            QueryView::Want { providers, cid, priority, sent } => QueryView::Want {
                providers: providers.remove(p),
                cid,
                priority,
                sent: add_sent(sent, p),
            },
            QueryView::FindProviders { cid, peers, providers, sent, priority } => {
                QueryView::FindProviders {
                    cid,
                    peers: peers.remove(p),
                    providers,
                    sent: add_sent(sent, p),
                    priority,
                }
            },
            QueryView::Cancel { providers, cid, sent } => QueryView::Cancel {
                providers: providers.remove(p),
                cid,
                sent: add_sent(sent, p),
            },
            QueryView::Send { receiver, block, sent } => QueryView::Send {
                receiver,
                block,
                sent: add_sent(sent, p),
            },
            QueryView::SendHave { receiver, cid, sent } => QueryView::SendHave {
                receiver,
                cid,
                sent: add_sent(sent, p),
            },
        }
    }
}

/// Sets the wantlist entry of a block, in place of any earlier one.
pub open spec fn set_entry(s: Seq<EntryView>, e: EntryView) -> Seq<EntryView> {
    s.filter(pick_fn(Pick::OtherCids, e.0)).push(e)
}

/// What the query adds to the message being built for the peer.
pub open spec fn message_step(m: MessageView, q: QueryView, p: Seq<u8>) -> MessageView {
    if !has_unused(q, p) {
        m
    } else {
        match q {
            QueryView::Want { cid, priority, .. } => (
                set_entry(m.0, (cid, WantType::Block, priority)),
                m.1,
                m.2,
            ),
            QueryView::FindProviders { cid, priority, .. } => (
                set_entry(m.0, (cid, WantType::Have, priority)),
                m.1,
                m.2,
            ),
            QueryView::Cancel { cid, .. } => (set_entry(m.0, (cid, WantType::Cancel, 0u32)), m.1, m.2),
            QueryView::Send { block, sent, .. } => if sent is None {
                (m.0, m.1.push(block), m.2)
            } else {
                m
            },
            QueryView::SendHave { cid, sent, .. } => if sent is None {
                with_presence(m, (cid, PresenceType::Have))
            } else {
                m
            },
        }
    }
}

/// The query once the peer has gone away.
pub open spec fn detached(q: QueryView, p: Seq<u8>) -> QueryView {
    match q {
        QueryView::Want { providers, cid, priority, sent } => QueryView::Want {
            providers,
            cid,
            priority,
            sent: forget_sent(sent, p),
        },
        QueryView::FindProviders { cid, peers, providers, sent, priority } => {
            QueryView::FindProviders { cid, peers, providers, sent: forget_sent(sent, p), priority }
        },
        QueryView::Cancel { providers, cid, sent } => QueryView::Cancel {
            providers,
            cid,
            sent: forget_sent(sent, p),
        },
        QueryView::Send { receiver, block, sent } => QueryView::Send {
            receiver,
            block,
            sent: forget_sent(sent, p),
        },
        QueryView::SendHave { receiver, cid, sent } => QueryView::SendHave {
            receiver,
            cid,
            sent: forget_sent(sent, p),
        },
    }
}

/// No peer is left to ask, and none that was asked is still there.
pub open spec fn is_failed(q: QueryView) -> bool {
    match q {
        QueryView::Want { providers, sent, .. } => providers.is_empty() && contacted(sent).is_empty(),
        QueryView::FindProviders { peers, sent, .. } => peers.is_empty() && contacted(sent).is_empty(),
        QueryView::Cancel { providers, sent, .. } => providers.is_empty() && contacted(sent).is_empty(),
        QueryView::Send { sent, .. } => sent == Some(Set::<Seq<u8>>::empty()),
        QueryView::SendHave { sent, .. } => sent == Some(Set::<Seq<u8>>::empty()),
    }
}

/// The event that reports the query as timed out.
pub open spec fn timeout_event(q: QueryView) -> EventView {
    match q {
        QueryView::Want { cid, .. } => EventView::WantErr { cid },
        QueryView::FindProviders { cid, .. } => EventView::FindProvidersErr { cid },
        QueryView::Cancel { cid, .. } => EventView::CancelErr { cid },
        QueryView::Send { block, .. } => EventView::SendErr { cid: block.0 },
        QueryView::SendHave { cid, .. } => EventView::SendHaveErr { cid },
    }
}

pub enum Query {
    /// Fetch a single block.
    Want { providers: PeerSet, cid: Cid, priority: Priority, state: State },
    /// Ask peers whether they have a block.
    FindProviders { cid: Cid, peers: PeerSet, providers: PeerSet, state: State, priority: Priority },
    /// Tell peers that a block is no longer wanted.
    Cancel { providers: PeerSet, cid: Cid, state: State },
    /// Send a single block.
    Send { receiver: PeerId, block: Block, state: State },
    /// Tell a peer that we have a block.
    SendHave { receiver: PeerId, cid: Cid, state: State },
}

impl View for Query {
    type V = QueryView;

    open spec fn view(&self) -> QueryView {
        match self {
            Query::Want { providers, cid, priority, state } => QueryView::Want {
                providers: providers@,
                cid: cid@,
                priority: *priority,
                sent: state@,
            },
            Query::FindProviders { cid, peers, providers, state, priority } => {
                QueryView::FindProviders {
                    cid: cid@,
                    peers: peers@,
                    providers: providers@,
                    sent: state@,
                    priority: *priority,
                }
            },
            Query::Cancel { providers, cid, state } => QueryView::Cancel {
                providers: providers@,
                cid: cid@,
                sent: state@,
            },
            Query::Send { receiver, block, state } => QueryView::Send {
                receiver: receiver@,
                block: block@,
                sent: state@,
            },
            Query::SendHave { receiver, cid, state } => QueryView::SendHave {
                receiver: receiver@,
                cid: cid@,
                sent: state@,
            },
        }
    }
}

impl Query {
    /// Every set it holds is finite.
    pub open spec fn wf(&self) -> bool {
        match self {
            Query::Want { providers, state, .. } => providers.wf() && state.wf(),
            Query::FindProviders { peers, providers, state, .. } => peers.wf() && providers.wf()
                && state.wf(),
            Query::Cancel { providers, state, .. } => providers.wf() && state.wf(),
            Query::Send { state, .. } => state.wf(),
            Query::SendHave { state, .. } => state.wf(),
        }
    }

    pub fn contains_unused_provider(&self, peer_id: &PeerId) -> (r: bool)
        ensures
            r == has_unused(self@, peer_id@),
    {
        match self {
            Query::Want { providers, .. } => providers.contains(peer_id),
            Query::Cancel { providers, .. } => providers.contains(peer_id),
            Query::FindProviders { peers, .. } => peers.contains(peer_id),
            Query::Send { receiver, .. } => receiver.same(peer_id),
            Query::SendHave { receiver, .. } => receiver.same(peer_id),
        }
    }

    pub fn contains_provider(&self, peer_id: &PeerId) -> (r: bool)
        ensures
            r == concerns(self@, peer_id@),
    {
        if self.contains_unused_provider(peer_id) {
            return true;
        }
        match self {
            Query::Want { state, .. } => state.contains(peer_id),
            Query::Cancel { state, .. } => state.contains(peer_id),
            Query::FindProviders { state, .. } => state.contains(peer_id),
            Query::Send { state, .. } => state.contains(peer_id),
            Query::SendHave { state, .. } => state.contains(peer_id),
        }
    }

    /// Forgets that the query went to the peer.
    pub fn detach(&mut self, peer_id: &PeerId)
        requires
            old(self).wf(),
        ensures
            final(self).wf(),
            final(self)@ == detached(old(self)@, peer_id@),
    {
        match self {
            Query::Want { state, .. } => state.forget(peer_id),
            Query::Cancel { state, .. } => state.forget(peer_id),
            Query::FindProviders { state, .. } => state.forget(peer_id),
            Query::Send { state, .. } => state.forget(peer_id),
            Query::SendHave { state, .. } => state.forget(peer_id),
        }
    }

    pub fn is_failed(&self) -> (r: bool)
        requires
            self.wf(),
        ensures
            r == is_failed(self@),
    {
        match self {
            Query::Want { providers, state, .. } => providers.is_empty() && (state.is_new() || state.is_sent_to_none()),
            Query::FindProviders { peers, state, .. } => peers.is_empty() && (state.is_new() || state.is_sent_to_none()),
            Query::Cancel { providers, state, .. } => providers.is_empty() && (state.is_new() || state.is_sent_to_none()),
            Query::Send { state, .. } => state.is_sent_to_none(),
            Query::SendHave { state, .. } => state.is_sent_to_none(),
        }
    }

    /// Puts the query, which still has to go to the peer, in the message
    /// being built for it; tells whether the query is done with instead.
    pub fn attach(&mut self, peer_id: &PeerId, msg: &mut BitswapMessage) -> (dropped: bool)
        requires
            old(self).wf(),
            old(msg).wf(),
            has_unused(old(self)@, peer_id@),
        ensures
            final(self).wf(),
            final(msg).wf(),
            dropped == poll_drops(old(self)@, peer_id@),
            !dropped ==> final(self)@ == attached(old(self)@, peer_id@),
            final(msg)@ == message_step(old(msg)@, old(self)@, peer_id@),
    {
        match self {
            Query::Want { providers, cid, priority, state } => {
                msg.wantlist_mut().want_block(cid, *priority);
                providers.remove(peer_id);
                state.add(peer_id);
                false
            },
            Query::FindProviders { cid, peers, state, priority, .. } => {
                msg.wantlist_mut().want_have_block(cid, *priority);
                peers.remove(peer_id);
                state.add(peer_id);
                false
            },
            Query::Cancel { providers, cid, state } => {
                msg.wantlist_mut().cancel_block(cid);
                providers.remove(peer_id);
                state.add(peer_id);
                false
            },
            Query::Send { block, state, .. } => {
                if state.is_new() {
                    msg.add_block(block.copy());
                    state.add(peer_id);
                    false
                } else {
                    true
                }
            },
            Query::SendHave { cid, state, .. } => {
                if state.is_new() {
                    msg.add_block_presence(BlockPresence::have(cid.copy()));
                    state.add(peer_id);
                    false
                } else {
                    true
                }
            },
        }
    }

    /// The event that reports the query as timed out.
    pub fn into_timeout(self) -> (r: BitswapEvent)
        ensures
            r@ == timeout_event(self@),
    {
        let error = QueryError::Timeout;
        let result = match self {
            Query::Want { cid, .. } => QueryResult::Want(WantResult::Failure { cid, error }),
            Query::FindProviders { cid, .. } => QueryResult::FindProviders(FindProvidersResult::Failure { cid, error }),
            Query::Cancel { cid, .. } => QueryResult::Cancel(CancelResult::Failure { cid, error }),
            Query::Send { block, .. } => QueryResult::Send(SendResult::Failure { cid: block.cid, error }),
            Query::SendHave { cid, .. } => QueryResult::SendHave(SendHaveResult::Failure { cid, error }),
        };
        BitswapEvent::OutboundQueryCompleted { result }
    }
}

/// The registry once every query has been offered to the peer.
pub open spec fn poll_registry(s: Seq<(usize, QueryView)>, p: Seq<u8>) -> Seq<(usize, QueryView)>
    decreases s.len(),
{
    if s.len() == 0 {
        s
    } else {
        let r = poll_registry(s.drop_last(), p);
        let e = s.last();
        if poll_drops(e.1, p) {
            r
        } else {
            r.push((e.0, attached(e.1, p)))
        }
    }
}

/// The message that the queries of the registry make for the peer.
pub open spec fn poll_message(s: Seq<(usize, QueryView)>, p: Seq<u8>) -> MessageView
    decreases s.len(),
{
    if s.len() == 0 {
        empty_message()
    } else {
        message_step(poll_message(s.drop_last(), p), s.last().1, p)
    }
}

/// A registered query.
pub struct QueryEntry {
    pub id: QueryId,
    pub query: Query,
}

impl View for QueryEntry {
    type V = (usize, QueryView);

    open spec fn view(&self) -> (usize, QueryView) {
        (self.id.0, self.query@)
    }
}

pub open spec fn registry_view(s: Seq<QueryEntry>) -> Seq<(usize, QueryView)> {
    s.map_values(|e: QueryEntry| e@)
}

pub open spec fn all_wf(s: Seq<QueryEntry>) -> bool {
    forall|k: int| 0 <= k < s.len() ==> (#[trigger] s[k]).query.wf()
}

/// The outstanding queries, in the order they were made.
pub struct QueryManager {
    queries: VecDeque<QueryEntry>,
    next_id: usize,
}

impl View for QueryManager {
    type V = Seq<(usize, QueryView)>;

    closed spec fn view(&self) -> Seq<(usize, QueryView)> {
        registry_view(self.queries@)
    }
}

impl QueryManager {
    pub closed spec fn wf(&self) -> bool {
        all_wf(self.queries@)
    }

    /// The ids of the registered queries are distinct, and all below the id
    /// that the next query gets: no id is handed out twice until the counter
    /// wraps round.
    pub open spec fn ids_fresh(&self) -> bool {
        &&& ids_unique(self@)
        &&& forall|k: int| 0 <= k < self@.len() ==> (#[trigger] self@[k]).0 < self.next_id()
    }

    /// The id that the next query gets.
    pub closed spec fn next_id(&self) -> usize {
        self.next_id
    }

    pub fn new() -> (r: QueryManager)
        ensures
            r.wf(),
            r@ == Seq::<(usize, QueryView)>::empty(),
            r.next_id() == 0,
    {
        let r = QueryManager { queries: VecDeque::new(), next_id: 0 };
        assert(r@ =~= Seq::<(usize, QueryView)>::empty());
        r
    }

    fn new_query(&mut self, query: Query) -> (r: QueryId)
        requires
            old(self).wf(),
            query.wf(),
        ensures
            old(self).ids_fresh() && old(self).next_id() < usize::MAX ==> final(self).ids_fresh(),
            final(self).wf(),
            r.0 == old(self).next_id(),
            final(self)@ == old(self)@.push((r.0, query@)),
            final(self).next_id() == next_after(old(self).next_id()),
    {
        let id = QueryId(self.next_id);
        self.next_id = if self.next_id == usize::MAX { 0 } else { self.next_id + 1 };
        let ghost q = query@;
        self.queries.push_back(QueryEntry { id, query });
        assert(self@ =~= old(self)@.push((id.0, q)));
        id
    }

    pub fn is_empty(&self) -> (r: bool)
        ensures
            r == (self@.len() == 0),
    {
        self.queries.len() == 0
    }

    /// Registers a fetch of the block from the providers.
    pub fn want(&mut self, cid: Cid, priority: Priority, providers: PeerSet) -> (r: QueryId)
        requires
            old(self).wf(),
            providers.wf(),
        ensures
            old(self).ids_fresh() && old(self).next_id() < usize::MAX ==> final(self).ids_fresh(),
            final(self).wf(),
            r.0 == old(self).next_id(),
            final(self)@ == old(self)@.push(
                (r.0, QueryView::Want { providers: providers@, cid: cid@, priority, sent: None }),
            ),
            final(self).next_id() == next_after(old(self).next_id()),
    {
        self.new_query(Query::Want { providers, cid, priority, state: State::New })
    }

    /// Registers the sending of a block to the receiver.
    pub fn send(&mut self, receiver: PeerId, cid: Cid, data: Vec<u8>) -> (r: QueryId)
        requires
            old(self).wf(),
        ensures
            old(self).ids_fresh() && old(self).next_id() < usize::MAX ==> final(self).ids_fresh(),
            final(self).wf(),
            r.0 == old(self).next_id(),
            final(self)@ == old(self)@.push(
                (r.0, QueryView::Send { receiver: receiver@, block: (cid@, data@), sent: None }),
            ),
            final(self).next_id() == next_after(old(self).next_id()),
    {
        self.new_query(Query::Send { receiver, block: Block::new(cid, data), state: State::New })
    }

    /// Registers the announcement to the receiver that we have the block.
    pub fn send_have(&mut self, receiver: PeerId, cid: Cid) -> (r: QueryId)
        requires
            old(self).wf(),
        ensures
            old(self).ids_fresh() && old(self).next_id() < usize::MAX ==> final(self).ids_fresh(),
            final(self).wf(),
            r.0 == old(self).next_id(),
            final(self)@ == old(self)@.push(
                (r.0, QueryView::SendHave { receiver: receiver@, cid: cid@, sent: None }),
            ),
            final(self).next_id() == next_after(old(self).next_id()),
    {
        self.new_query(Query::SendHave { receiver, cid, state: State::New })
    }

    /// Registers a search for providers of the block among the peers.
    pub fn find_providers(&mut self, cid: Cid, priority: Priority, peers: PeerSet) -> (r: QueryId)
        requires
            old(self).wf(),
            peers.wf(),
        ensures
            old(self).ids_fresh() && old(self).next_id() < usize::MAX ==> final(self).ids_fresh(),
            final(self).wf(),
            r.0 == old(self).next_id(),
            final(self)@ == old(self)@.push(
                (
                    r.0,
                    QueryView::FindProviders {
                        cid: cid@,
                        peers: peers@,
                        providers: Set::empty(),
                        sent: None,
                        priority,
                    },
                ),
            ),
            final(self).next_id() == next_after(old(self).next_id()),
    {
        let providers = PeerSet::new();
        self.new_query(Query::FindProviders { cid, peers, providers, state: State::New, priority })
    }

    /// Forgets that any query went to the peer, which has gone away.
    pub fn disconnected(&mut self, peer_id: &PeerId)
        requires
            old(self).wf(),
        ensures
            old(self).ids_fresh() ==> final(self).ids_fresh(),
            final(self).wf(),
            final(self).next_id() == old(self).next_id(),
            final(self)@ == disconnect_registry(old(self)@, peer_id@),
    {
        let mut rest: VecDeque<QueryEntry> = VecDeque::new();
        std::mem::swap(&mut self.queries, &mut rest);
        let ghost old_q = registry_view(rest@);
        let ghost n = rest@.len();
        let ghost p = peer_id@;
        let ghost mut i: int = 0;
        proof {
            assert(registry_view(self.queries@) =~= disconnect_registry(old_q.subrange(0, 0), p));
        }
        while rest.len() > 0
            invariant
                old_q == old(self)@,
                n == old_q.len(),
                0 <= i <= n,
                i + rest@.len() == n,
                registry_view(rest@) == old_q.subrange(i, n as int),
                registry_view(self.queries@) == disconnect_registry(old_q.subrange(0, i), p),
                all_wf(rest@),
                all_wf(self.queries@),
                old(self).ids_fresh() ==> drawn_unique(registry_view(self.queries@), old_q, i),
                self.next_id == old(self).next_id,
                p == peer_id@,
            decreases rest@.len(),
        {
            let ghost r0 = rest@;
            let mut e = rest.pop_front().unwrap();
            proof {
                lemma_take_first(r0, rest@, old_q, i, n as int);
                assert(e.query.wf());
            }
            let ghost before = registry_view(self.queries@);
            if e.query.contains_provider(peer_id) {
                e.query.detach(peer_id);
            }
            self.queries.push_back(e);
            proof {
                assert(registry_view(self.queries@) =~= before.push(e@));
                if old(self).ids_fresh() {
                    lemma_push_drawn(before, old_q, i, e@);
                }
                assert(disconnect_registry(old_q.subrange(0, i + 1), p) =~= disconnect_registry(old_q.subrange(0, i), p).push(
                    (old_q[i].0, disconnect_view(old_q[i].1, p)),
                ));
                i = i + 1;
            }
        }
        assert(old_q.subrange(0, i) =~= old_q);
        proof {
            if old(self).ids_fresh() {
                lemma_drawn_fresh(self@, old_q, self.next_id);
            }
        }
    }

    /// A failed dial counts as a disconnection.
    pub fn dial_failure(&mut self, peer_id: &PeerId)
        requires
            old(self).wf(),
        ensures
            old(self).ids_fresh() ==> final(self).ids_fresh(),
            final(self).wf(),
            final(self).next_id() == old(self).next_id(),
            final(self)@ == disconnect_registry(old(self)@, peer_id@),
    {
        self.disconnected(peer_id)
    }

    /// Takes out the first query that has failed, if any.
    fn next_finished_query(&mut self) -> (r: Option<QueryEntry>)
        requires
            old(self).wf(),
        ensures
            old(self).ids_fresh() ==> final(self).ids_fresh(),
            final(self).wf(),
            final(self).next_id() == old(self).next_id(),
            match r {
                None => final(self)@ == old(self)@ && no_failed(old(self)@),
                Some(e) => e.query.wf() && exists|k: int| #[trigger] first_failed(old(self)@, k)
                    && e@ == old(self)@[k] && final(self)@ == old(self)@.remove(k)
                    && (old(self).ids_fresh() ==> forall|j: int| 0 <= j < final(self)@.len() ==> (#[trigger] final(self)@[j]).0 != old(self)@[k].0),
            },
    {
        let mut i: usize = 0;
        while i < self.queries.len()
            invariant
                0 <= i <= self.queries@.len(),
                self.wf(),
                self@ == old(self)@,
                self.next_id == old(self).next_id,
                forall|j: int| 0 <= j < i ==> !is_failed(#[trigger] self@[j].1),
            decreases self.queries@.len() - i,
        {
            assert(self.queries@[i as int].query.wf());
            assert(self@[i as int] == self.queries@[i as int]@);
            if self.queries[i].query.is_failed() {
                let ghost q0 = self.queries@;
                let e = self.queries.remove(i).unwrap();
                proof {
                    assert(first_failed(old(self)@, i as int));
                    if old(self).ids_fresh() {
                        lemma_failed_reported_once(old(self)@, i as int);
                    }
                    assert(registry_view(self.queries@) =~= old(self)@.remove(i as int));
                    assert forall|k: int| 0 <= k < self.queries@.len() implies (#[trigger] self.queries@[k]).query.wf() by {
                        if k < i {
                            assert(self.queries@[k] == q0[k]);
                        } else {
                            assert(self.queries@[k] == q0[k + 1]);
                        }
                    }
                }
                return Some(e);
            }
            i = i + 1;
        }
        None
    }

    /// Reports the first query that has failed as timed out, and forgets it.
    pub fn poll_all(&mut self) -> (r: Option<BehaviourAction>)
        requires
            old(self).wf(),
        ensures
            old(self).ids_fresh() ==> final(self).ids_fresh(),
            final(self).wf(),
            final(self).next_id() == old(self).next_id(),
            match r {
                None => final(self)@ == old(self)@ && no_failed(old(self)@),
                Some(a) => exists|k: int| #[trigger] first_failed(old(self)@, k)
                    && a@ == ActionView::Event(timeout_event(old(self)@[k].1))
                    && final(self)@ == old(self)@.remove(k)
                    && (old(self).ids_fresh() ==> forall|j: int| 0 <= j < final(self)@.len() ==> (#[trigger] final(self)@[j]).0 != old(self)@[k].0),
            },
    {
        match self.next_finished_query() {
            None => None,
            Some(e) => Some(BehaviourAction::GenerateEvent(e.query.into_timeout())),
        }
    }

    /// Takes every want of the block out of the registry.
    fn take_wants(&mut self, cid: &Cid) -> (r: TakenWants)
        requires
            old(self).wf(),
        ensures
            old(self).ids_fresh() ==> final(self).ids_fresh(),
            final(self).wf(),
            final(self).next_id() == old(self).next_id(),
            r.unused.wf(),
            r.sent.wf(),
            final(self)@ == old(self)@.filter(not_want_of(cid@)),
            ids_view(r.ids@) == wants_ids(old(self)@, cid@),
            r.unused@ == wants_unused(old(self)@, cid@),
            r.sent@ == wants_sent(old(self)@, cid@),
            r.any_sent == wants_any_sent(old(self)@, cid@),
            sets_view(r.sent_sets@) == wants_sent_sets(old(self)@, cid@),
            forall|k: int| 0 <= k < r.sent_sets@.len() ==> (#[trigger] r.sent_sets@[k]).wf(),
    {
        let mut taken = TakenWants { ids: Vec::new(), sent_sets: Vec::new(), unused: PeerSet::new(), sent: PeerSet::new(), any_sent: false };
        let mut rest: VecDeque<QueryEntry> = VecDeque::new();
        std::mem::swap(&mut self.queries, &mut rest);
        let ghost old_q = registry_view(rest@);
        let ghost n = rest@.len();
        let ghost c = cid@;
        let ghost f = not_want_of(c);
        let ghost mut i: int = 0;
        proof {
            assert(old_q.subrange(0, 0) =~= Seq::<(usize, QueryView)>::empty());
            assert(registry_view(self.queries@) =~= Seq::<(usize, QueryView)>::empty());
            assert(ids_view(taken.ids@) =~= Seq::<usize>::empty());
        }
        while rest.len() > 0
            invariant
                old_q == old(self)@,
                n == old_q.len(),
                0 <= i <= n,
                i + rest@.len() == n,
                c == cid@,
                f == not_want_of(c),
                registry_view(rest@) == old_q.subrange(i, n as int),
                registry_view(self.queries@) == old_q.subrange(0, i).filter(f),
                ids_view(taken.ids@) == wants_ids(old_q.subrange(0, i), c),
                taken.unused@ == wants_unused(old_q.subrange(0, i), c),
                taken.sent@ == wants_sent(old_q.subrange(0, i), c),
                taken.any_sent == wants_any_sent(old_q.subrange(0, i), c),
                sets_view(taken.sent_sets@) == wants_sent_sets(old_q.subrange(0, i), c),
                forall|k: int| 0 <= k < taken.sent_sets@.len() ==> (#[trigger] taken.sent_sets@[k]).wf(),
                taken.unused.wf(),
                taken.sent.wf(),
                all_wf(rest@),
                all_wf(self.queries@),
                old(self).ids_fresh() ==> drawn_unique(registry_view(self.queries@), old_q, i),
                self.next_id == old(self).next_id,
            decreases rest@.len(),
        {
            let ghost r0 = rest@;
            let e = rest.pop_front().unwrap();
            proof {
                lemma_take_first(r0, rest@, old_q, i, n as int);
                assert(e.query.wf());
                assert(old_q.subrange(0, i + 1) =~= old_q.subrange(0, i).push(old_q[i]));
                assert(old_q.subrange(0, i + 1).drop_last() =~= old_q.subrange(0, i));
                old_q.subrange(0, i).lemma_filter_push(old_q[i], f);
            }
            let ghost before = registry_view(self.queries@);
            let ghost ids_before = ids_view(taken.ids@);
            let ghost sets_before = sets_view(taken.sent_sets@);
            let is_match = match &e.query {
                Query::Want { cid: c2, .. } => c2.same(cid),
                _ => false,
            };
            if is_match {
                match &e.query {
                    Query::Want { providers, state, .. } => {
                        taken.unused.extend(providers);
                        match state {
                            State::Sent(s) => {
                                taken.sent.extend(s);
                                taken.any_sent = true;
                                taken.sent_sets.push(s.copy());
                                assert(sets_view(taken.sent_sets@) =~= sets_before.push(s@));
                            },
                            State::New => {},
                        }
                    },
                    _ => {},
                }
                taken.ids.push(e.id);
                proof {
                    assert(ids_view(taken.ids@) =~= ids_before.push(e.id.0));
                    assert(taken.sent@ =~= wants_sent(old_q.subrange(0, i + 1), c));
                }
            } else {
                self.queries.push_back(e);
                assert(registry_view(self.queries@) =~= before.push(e@));
                proof {
                    if old(self).ids_fresh() {
                        lemma_push_drawn(before, old_q, i, e@);
                    }
                }
            }
            proof {
                if old(self).ids_fresh() {
                    lemma_drawn_mono(registry_view(self.queries@), old_q, i);
                }
                i = i + 1;
            }
        }
        assert(old_q.subrange(0, i) =~= old_q);
        proof {
            if old(self).ids_fresh() {
                lemma_drawn_fresh(self@, old_q, self.next_id);
            }
        }
        taken
    }

    /// Drops every want of the block. Where one of them went out already, a
    /// cancel is registered for the peers that it went to.
    pub fn cancel(&mut self, cid: &Cid) -> (r: Option<QueryId>)
        requires
            old(self).wf(),
        ensures
            old(self).ids_fresh() && old(self).next_id() < usize::MAX ==> final(self).ids_fresh(),
            final(self).wf(),
            match r {
                None => !wants_any_sent(old(self)@, cid@)
                    && final(self)@ == old(self)@.filter(not_want_of(cid@))
                    && final(self).next_id() == old(self).next_id(),
                Some(id) => wants_any_sent(old(self)@, cid@)
                    && id.0 == old(self).next_id()
                    && final(self).next_id() == next_after(old(self).next_id())
                    && final(self)@ == old(self)@.filter(not_want_of(cid@)).push(
                        (id.0, QueryView::Cancel { providers: wants_sent(old(self)@, cid@), cid: cid@, sent: None }),
                    ),
            },
    {
        let taken = self.take_wants(cid);
        if taken.any_sent {
            let id = self.new_query(Query::Cancel { providers: taken.sent, cid: cid.copy(), state: State::New });
            Some(id)
        } else {
            None
        }
    }

    /// A block came in from `sender`: every want of it is done. Each want
    /// that went out gets a cancel of its own, for the peers that it went
    /// to but the sender, unless no such peer is left.
    /// Returns the providers that the wants had not reached yet, and the ids
    /// of the wants.
    pub fn process_block(&mut self, sender: &PeerId, block: &Block) -> (r: (Vec<PeerId>, Vec<QueryId>))
        requires
            old(self).wf(),
        ensures
            old(self).ids_fresh() && old(self).next_id() + old(self)@.len() < usize::MAX ==> final(self).ids_fresh(),
            final(self).wf(),
            ids_view(r.1@) == wants_ids(old(self)@, block.cid@),
            lists_set(r.0@, wants_unused(old(self)@, block.cid@)),
            final(self)@ == old(self)@.filter(not_want_of(block.cid@)) + follow_up_cancels(
                wants_sent_sets(old(self)@, block.cid@),
                sender@,
                block.cid@,
                old(self).next_id(),
            ),
            final(self).next_id() == id_after_cancels(
                wants_sent_sets(old(self)@, block.cid@),
                sender@,
                old(self).next_id(),
            ),
            old(self).ids_fresh() && old(self).next_id() + old(self)@.len() < usize::MAX ==> {
                &&& ids_view(r.1@).no_duplicates()
                &&& forall|j: int, k: int| 0 <= j < final(self)@.len() && 0 <= k < r.1@.len()
                    ==> (#[trigger] final(self)@[j]).0 != (#[trigger] r.1@[k]).0
            },
    {
        let taken = self.take_wants(&block.cid);
        let ghost base = self@;
        let ghost next0 = self.next_id;
        let ghost all = sets_view(taken.sent_sets@);
        let ghost fresh = old(self).ids_fresh() && old(self).next_id() + old(self)@.len() < usize::MAX;
        proof {
            lemma_sent_sets_len(old(self)@, block.cid@);
            assert(base + follow_up_cancels(all, sender@, block.cid@, next0) =~= self@ + follow_up_cancels(all, sender@, block.cid@, next0));
        }
        let mut sets = taken.sent_sets;
        while sets.len() > 0
            invariant
                self.wf(),
                forall|k: int| 0 <= k < sets@.len() ==> (#[trigger] sets@[k]).wf(),
                self@ + follow_up_cancels(sets_view(sets@), sender@, block.cid@, self.next_id)
                    == base + follow_up_cancels(all, sender@, block.cid@, next0),
                id_after_cancels(sets_view(sets@), sender@, self.next_id) == id_after_cancels(all, sender@, next0),
                fresh ==> self.ids_fresh(),
                fresh ==> self.next_id + sets@.len() <= next0 + all.len(),
                fresh ==> next0 + all.len() < usize::MAX,
            decreases sets@.len(),
        {
            let ghost sv = sets_view(sets@);
            let ghost prev = self@;
            let ghost id0 = self.next_id;
            let ghost s0 = sets@;
            let mut first = sets.remove(0);
            proof {
                assert(sets_view(sets@) =~= sv.drop_first());
                assert(first@ == sv[0]);
                assert(first.wf());
                assert forall|k: int| 0 <= k < sets@.len() implies (#[trigger] sets@[k]).wf() by {
                    assert(sets@[k] == s0[k + 1]);
                }
            }
            first.remove(sender);
            if !first.is_empty() {
                let ghost e = (id0, QueryView::Cancel { providers: first@, cid: block.cid@, sent: None });
                self.new_query(Query::Cancel { providers: first, cid: block.cid.copy(), state: State::New });
                proof {
                    assert(self@ + follow_up_cancels(sets_view(sets@), sender@, block.cid@, self.next_id)
                        =~= prev + follow_up_cancels(sv, sender@, block.cid@, id0));
                }
            }
        }
        assert(self@ + follow_up_cancels(sets_view(sets@), sender@, block.cid@, self.next_id) =~= self@);
        proof {
            if fresh {
                let o = old(self)@;
                let c = block.cid@;
                lemma_wants_ids(o, c);
                lemma_cancel_ids(all, sender@, c, next0);
                let flt = o.filter(not_want_of(c));
                let cs = follow_up_cancels(all, sender@, c, next0);
                assert(self@ == flt + cs);
                assert forall|j: int, k: int| 0 <= j < self@.len() && 0 <= k < taken.ids@.len()
                    implies (#[trigger] self@[j]).0 != (#[trigger] taken.ids@[k]).0 by {
                    let x = taken.ids@[k].0;
                    assert(ids_view(taken.ids@)[k] == x);
                    assert(want_id_in(o, c, x));
                    let kk = choose|kk: int| 0 <= kk < o.len() && o[kk].0 == x && is_want_of(o[kk].1, c);
                    if j < flt.len() {
                        assert(self@[j] == flt[j]);
                        assert(flt.contains(flt[j]));
                        o.lemma_filter_contains_rev(not_want_of(c), flt[j]);
                        o.lemma_filter_pred(not_want_of(c), j);
                        let m = choose|m: int| 0 <= m < o.len() && o[m] == flt[j];
                    } else {
                        assert(self@[j] == cs[j - flt.len()]);
                    }
                }
            }
        }
        (taken.unused.to_vec(), taken.ids)
    }

    /// A presence announcement came in from `peer`. A have of the block adds
    /// the peer to the providers of each search for the block; a search ends
    /// once no peer is left to ask or enough providers are known. Returns the
    /// ids and providers of the searches that ended.
    pub fn process_block_presence(&mut self, peer: PeerId, bp: &BlockPresence) -> (r: Vec<(QueryId, PeerSet)>)
        requires
            old(self).wf(),
        ensures
            old(self).ids_fresh() ==> final(self).ids_fresh(),
            final(self).wf(),
            final(self).next_id() == old(self).next_id(),
            final(self)@ == presence_registry(old(self)@, peer@, bp@),
            found_view(r@) == presence_results(old(self)@, peer@, bp@),
            old(self).ids_fresh() ==> {
                &&& forall|a: int, c: int| 0 <= a < c < r@.len() ==> (#[trigger] r@[a]).0 != (#[trigger] r@[c]).0
                &&& forall|j: int, k: int| 0 <= j < final(self)@.len() && 0 <= k < r@.len()
                    ==> (#[trigger] final(self)@[j]).0 != (#[trigger] r@[k]).0.0
            },
            forall|k: int| 0 <= k < r@.len() ==> (#[trigger] r@[k]).1.wf(),
    {
        let mut results: Vec<(QueryId, PeerSet)> = Vec::new();
        let mut rest: VecDeque<QueryEntry> = VecDeque::new();
        std::mem::swap(&mut self.queries, &mut rest);
        let ghost old_q = registry_view(rest@);
        let ghost n = rest@.len();
        let ghost p = peer@;
        let ghost b = bp@;
        let ghost mut i: int = 0;
        proof {
            assert(old_q.subrange(0, 0) =~= Seq::<(usize, QueryView)>::empty());
            assert(registry_view(self.queries@) =~= Seq::<(usize, QueryView)>::empty());
            assert(found_view(results@) =~= Seq::<(usize, Set<Seq<u8>>)>::empty());
        }
        let have = bp.is_have();
        while rest.len() > 0
            invariant
                old_q == old(self)@,
                n == old_q.len(),
                0 <= i <= n,
                i + rest@.len() == n,
                p == peer@,
                b == bp@,
                have == (b.1 == PresenceType::Have),
                registry_view(rest@) == old_q.subrange(i, n as int),
                registry_view(self.queries@) == presence_registry(old_q.subrange(0, i), p, b),
                found_view(results@) == presence_results(old_q.subrange(0, i), p, b),
                forall|k: int| 0 <= k < results@.len() ==> (#[trigger] results@[k]).1.wf(),
                all_wf(rest@),
                all_wf(self.queries@),
                old(self).ids_fresh() ==> drawn_unique(registry_view(self.queries@), old_q, i),
                self.next_id == old(self).next_id,
            decreases rest@.len(),
        {
            let ghost r0 = rest@;
            let mut e = rest.pop_front().unwrap();
            proof {
                lemma_take_first(r0, rest@, old_q, i, n as int);
                assert(e.query.wf());
                assert(old_q.subrange(0, i + 1).drop_last() =~= old_q.subrange(0, i));
                assert(old_q.subrange(0, i + 1).last() == old_q[i]);
            }
            let ghost before = registry_view(self.queries@);
            let ghost found_before = found_view(results@);
            let mut done = false;
            match &mut e.query {
                Query::FindProviders { cid, peers, providers, .. } => {
                    if have && cid.same(&bp.cid) {
                        providers.insert(peer.copy());
                        done = peers.is_empty() || providers.len() >= FIND_PROVIDERS_SATURATION;
                    }
                },
                _ => {},
            }
            proof {
                assert(e@.1 == presence_applied(old_q[i].1, p, b));
                assert(done == presence_done(e@.1, b));
            }
            if done {
                let id = e.id;
                match e.query {
                    Query::FindProviders { providers, .. } => {
                        results.push((id, providers));
                        assert(found_view(results@) =~= found_before.push((id.0, providers@)));
                    },
                    _ => {},
                }
            } else {
                self.queries.push_back(e);
                assert(registry_view(self.queries@) =~= before.push(e@));
                proof {
                    if old(self).ids_fresh() {
                        lemma_push_drawn(before, old_q, i, e@);
                    }
                }
            }
            proof {
                if old(self).ids_fresh() {
                    lemma_drawn_mono(registry_view(self.queries@), old_q, i);
                }
                i = i + 1;
            }
        }
        assert(old_q.subrange(0, i) =~= old_q);
        proof {
            if old(self).ids_fresh() {
                lemma_drawn_fresh(self@, old_q, self.next_id);
            }
        }
        proof {
            if old(self).ids_fresh() {
                let o = old(self)@;
                lemma_presence_ids(o, p, b);
                let rs = presence_results(o, p, b);
                assert forall|a: int, c: int| 0 <= a < c < results@.len() implies (#[trigger] results@[a]).0 != (#[trigger] results@[c]).0 by {
                    assert(found_view(results@)[a].0 == results@[a].0.0);
                    assert(found_view(results@)[c].0 == results@[c].0.0);
                }
                assert forall|j: int, k: int| 0 <= j < self@.len() && 0 <= k < results@.len()
                    implies (#[trigger] self@[j]).0 != (#[trigger] results@[k]).0.0 by {
                    assert(found_view(results@)[k].0 == results@[k].0.0);
                    assert(presence_id_in(o, p, b, rs[k].0, true));
                    assert(presence_id_in(o, p, b, self@[j].0, false));
                    let k1 = choose|k1: int| 0 <= k1 < o.len() && o[k1].0 == rs[k].0 && presence_done(presence_applied(o[k1].1, p, b), b) == true;
                    let k2 = choose|k2: int| 0 <= k2 < o.len() && o[k2].0 == self@[j].0 && presence_done(presence_applied(o[k2].1, p, b), b) == false;
                }
            }
        }
        results
    }

    /// Builds the message of every query that still has to go to the peer.
    pub fn poll_peer(&mut self, peer_id: &PeerId) -> (r: Option<BehaviourAction>)
        requires
            old(self).wf(),
        ensures
            old(self).ids_fresh() ==> final(self).ids_fresh(),
            final(self).wf(),
            final(self).next_id() == old(self).next_id(),
            final(self)@ == poll_registry(old(self)@, peer_id@),
            match r {
                None => message_is_empty(poll_message(old(self)@, peer_id@)),
                Some(a) => !message_is_empty(poll_message(old(self)@, peer_id@))
                    && a@ == ActionView::Notify(peer_id@, poll_message(old(self)@, peer_id@)),
            },
    {
        let mut msg = BitswapMessage::new();
        let mut rest: VecDeque<QueryEntry> = VecDeque::new();
        std::mem::swap(&mut self.queries, &mut rest);
        let ghost old_q = registry_view(rest@);
        let ghost n = rest@.len();
        let ghost p = peer_id@;
        let ghost mut i: int = 0;
        proof {
            assert(old_q.subrange(0, 0) =~= Seq::<(usize, QueryView)>::empty());
            assert(old_q.subrange(0, n as int) =~= old_q);
            assert(registry_view(self.queries@) =~= Seq::<(usize, QueryView)>::empty());
        }
        while rest.len() > 0
            invariant
                old_q == old(self)@,
                n == old_q.len(),
                0 <= i <= n,
                i + rest@.len() == n,
                registry_view(rest@) == old_q.subrange(i, n as int),
                registry_view(self.queries@) == poll_registry(old_q.subrange(0, i), p),
                msg.wf(),
                msg@ == poll_message(old_q.subrange(0, i), p),
                all_wf(rest@),
                all_wf(self.queries@),
                old(self).ids_fresh() ==> drawn_unique(registry_view(self.queries@), old_q, i),
                self.next_id == old(self).next_id,
                p == peer_id@,
            decreases rest@.len(),
        {
            let ghost r0 = rest@;
            let mut e = rest.pop_front().unwrap();
            proof {
                lemma_take_first(r0, rest@, old_q, i, n as int);
                assert(old_q.subrange(0, i + 1).drop_last() =~= old_q.subrange(0, i));
                assert(old_q.subrange(0, i + 1).last() == old_q[i]);
                assert(e.query.wf());
            }
            let ghost before = registry_view(self.queries@);
            if e.query.contains_unused_provider(peer_id) {
                let dropped = e.query.attach(peer_id, &mut msg);
                if !dropped {
                    self.queries.push_back(e);
                    assert(registry_view(self.queries@) =~= before.push(e@));
                    proof {
                        if old(self).ids_fresh() {
                            lemma_push_drawn(before, old_q, i, e@);
                        }
                    }
                }
            } else {
                self.queries.push_back(e);
                assert(registry_view(self.queries@) =~= before.push(e@));
                proof {
                    if old(self).ids_fresh() {
                        lemma_push_drawn(before, old_q, i, e@);
                    }
                }
            }
            proof {
                if old(self).ids_fresh() {
                    lemma_drawn_mono(registry_view(self.queries@), old_q, i);
                }
                i = i + 1;
            }
        }
        assert(old_q.subrange(0, i) =~= old_q);
        proof {
            if old(self).ids_fresh() {
                lemma_drawn_fresh(self@, old_q, self.next_id);
            }
        }
        if msg.is_empty() {
            None
        } else {
            Some(BehaviourAction::NotifyHandler { peer_id: peer_id.copy(), event: msg })
        }
    }
}

/// The query at `k` is the first of the registry that has failed.
pub open spec fn first_failed(s: Seq<(usize, QueryView)>, k: int) -> bool {
    &&& 0 <= k < s.len()
    &&& is_failed(s[k].1)
    &&& forall|j: int| 0 <= j < k ==> !is_failed(#[trigger] s[j].1)
}

pub open spec fn no_failed(s: Seq<(usize, QueryView)>) -> bool {
    forall|j: int| 0 <= j < s.len() ==> !is_failed(#[trigger] s[j].1)
}

/// The query once the peer has gone away, if it concerns the peer.
pub open spec fn disconnect_view(q: QueryView, p: Seq<u8>) -> QueryView {
    if concerns(q, p) {
        detached(q, p)
    } else {
        q
    }
}

pub open spec fn disconnect_registry(s: Seq<(usize, QueryView)>, p: Seq<u8>) -> Seq<(usize, QueryView)> {
    s.map_values(|e: (usize, QueryView)| (e.0, disconnect_view(e.1, p)))
}

/// What taking the wants of a block out of the registry yields.
struct TakenWants {
    ids: Vec<QueryId>,
    sent_sets: Vec<PeerSet>,
    unused: PeerSet,
    sent: PeerSet,
    any_sent: bool,
}

pub open spec fn ids_view(v: Seq<QueryId>) -> Seq<usize> {
    v.map_values(|id: QueryId| id.0)
}

pub open spec fn is_want_of(q: QueryView, c: Seq<u8>) -> bool {
    match q {
        QueryView::Want { cid, .. } => cid == c,
        _ => false,
    }
}

pub open spec fn not_want_of(c: Seq<u8>) -> spec_fn((usize, QueryView)) -> bool {
    |e: (usize, QueryView)| !is_want_of(e.1, c)
}

/// The ids of the wants of the block, in order.
pub open spec fn wants_ids(s: Seq<(usize, QueryView)>, c: Seq<u8>) -> Seq<usize>
    decreases s.len(),
{
    if s.len() == 0 {
        Seq::empty()
    } else if is_want_of(s.last().1, c) {
        wants_ids(s.drop_last(), c).push(s.last().0)
    } else {
        wants_ids(s.drop_last(), c)
    }
}

/// The providers that the wants of the block have still to go to.
pub open spec fn wants_unused(s: Seq<(usize, QueryView)>, c: Seq<u8>) -> Set<Seq<u8>>
    decreases s.len(),
{
    if s.len() == 0 {
        Set::empty()
    } else {
        let rest = wants_unused(s.drop_last(), c);
        match s.last().1 {
            QueryView::Want { providers, cid, .. } => if cid == c {
                rest.union(providers)
            } else {
                rest
            },
            _ => rest,
        }
    }
}

/// The peers that the wants of the block went to.
pub open spec fn wants_sent(s: Seq<(usize, QueryView)>, c: Seq<u8>) -> Set<Seq<u8>>
    decreases s.len(),
{
    if s.len() == 0 {
        Set::empty()
    } else {
        let rest = wants_sent(s.drop_last(), c);
        if is_want_of(s.last().1, c) {
            rest.union(contacted(sent_of(s.last().1)))
        } else {
            rest
        }
    }
}

/// Some want of the block went out already.
pub open spec fn wants_any_sent(s: Seq<(usize, QueryView)>, c: Seq<u8>) -> bool
    decreases s.len(),
{
    if s.len() == 0 {
        false
    } else {
        wants_any_sent(s.drop_last(), c) || (is_want_of(s.last().1, c) && sent_of(s.last().1) is Some)
    }
}

/// The query once a presence announcement came in from the peer.
pub open spec fn presence_applied(q: QueryView, p: Seq<u8>, b: (Seq<u8>, PresenceType)) -> QueryView {
    match q {
        QueryView::FindProviders { cid, peers, providers, sent, priority } => {
            if b.1 == PresenceType::Have && cid == b.0 {
                QueryView::FindProviders { cid, peers, providers: providers.insert(p), sent, priority }
            } else {
                q
            }
        },
        _ => q,
    }
}

/// The search for the announced block ends: no peer is left to ask, or
/// enough providers are known.
pub open spec fn presence_done(q: QueryView, b: (Seq<u8>, PresenceType)) -> bool {
    match q {
        QueryView::FindProviders { cid, peers, providers, .. } => b.1 == PresenceType::Have && cid == b.0
            && (peers.is_empty() || providers.len() >= FIND_PROVIDERS_SATURATION),
        _ => false,
    }
}

pub open spec fn presence_registry(s: Seq<(usize, QueryView)>, p: Seq<u8>, b: (Seq<u8>, PresenceType)) -> Seq<(usize, QueryView)>
    decreases s.len(),
{
    if s.len() == 0 {
        s
    } else {
        let r = presence_registry(s.drop_last(), p, b);
        let q = presence_applied(s.last().1, p, b);
        if presence_done(q, b) {
            r
        } else {
            r.push((s.last().0, q))
        }
    }
}

pub open spec fn providers_of(q: QueryView) -> Set<Seq<u8>> {
    match q {
        QueryView::FindProviders { providers, .. } => providers,
        _ => Set::empty(),
    }
}

/// The searches that the announcement ends, with their providers.
pub open spec fn presence_results(s: Seq<(usize, QueryView)>, p: Seq<u8>, b: (Seq<u8>, PresenceType)) -> Seq<(usize, Set<Seq<u8>>)>
    decreases s.len(),
{
    if s.len() == 0 {
        Seq::empty()
    } else {
        let r = presence_results(s.drop_last(), p, b);
        let q = presence_applied(s.last().1, p, b);
        if presence_done(q, b) {
            r.push((s.last().0, providers_of(q)))
        } else {
            r
        }
    }
}

pub open spec fn found_view(v: Seq<(QueryId, PeerSet)>) -> Seq<(usize, Set<Seq<u8>>)> {
    v.map_values(|e: (QueryId, PeerSet)| (e.0.0, e.1@))
}

/// Taking the wants of a block out of the registry leaves none of them.
pub proof fn lemma_no_want_left(s: Seq<(usize, QueryView)>, c: Seq<u8>)
    ensures
        forall|k: int| 0 <= k < s.filter(not_want_of(c)).len() ==> !is_want_of(#[trigger] s.filter(not_want_of(c))[k].1, c),
{
    assert forall|k: int| 0 <= k < s.filter(not_want_of(c)).len() implies !is_want_of(#[trigger] s.filter(not_want_of(c))[k].1, c) by {
        s.lemma_filter_pred(not_want_of(c), k);
    }
}

/// With no want of a block registered, the message built for any peer
/// holds no want-block entry of it: a want that a block satisfied is not
/// sent out late.
pub proof fn lemma_no_late_want(s: Seq<(usize, QueryView)>, p: Seq<u8>, c: Seq<u8>)
    requires
        forall|k: int| 0 <= k < s.len() ==> !is_want_of(#[trigger] s[k].1, c),
    ensures
        forall|k: int| 0 <= k < poll_message(s, p).0.len() ==> !((#[trigger] poll_message(s, p).0[k]).0 == c
            && poll_message(s, p).0[k].1 == WantType::Block),
    decreases s.len(),
{
    if s.len() > 0 {
        let d = s.drop_last();
        assert forall|k: int| 0 <= k < d.len() implies !is_want_of(#[trigger] d[k].1, c) by {
            assert(d[k] == s[k]);
        }
        lemma_no_late_want(d, p, c);
        let m = poll_message(d, p);
        let q = s.last().1;
        assert(!is_want_of(s[s.len() - 1].1, c));
        let w = poll_message(s, p).0;
        assert forall|k: int| 0 <= k < w.len() implies !((#[trigger] w[k]).0 == c && w[k].1 == WantType::Block) by {
            if has_unused(q, p) {
                match q {
                    QueryView::Want { cid, .. } => {
                        lemma_set_entry_from(m.0, (cid, WantType::Block, 0u32), k);
                    },
                    QueryView::FindProviders { cid, priority, .. } => {
                        lemma_set_entry_from(m.0, (cid, WantType::Have, priority), k);
                    },
                    QueryView::Cancel { cid, .. } => {
                        lemma_set_entry_from(m.0, (cid, WantType::Cancel, 0u32), k);
                    },
                    _ => {},
                }
            }
        }
    }
}

/// An entry of the wantlist with one entry set is that entry or was there
/// before.
pub proof fn lemma_set_entry_from(w: Seq<EntryView>, e: EntryView, k: int)
    requires
        0 <= k < set_entry(w, e).len(),
    ensures
        set_entry(w, e)[k] == e || w.contains(set_entry(w, e)[k]),
{
    let f = w.filter(pick_fn(Pick::OtherCids, e.0));
    if k < f.len() {
        assert(f.contains(f[k]));
        w.lemma_filter_contains_rev(pick_fn(Pick::OtherCids, e.0), f[k]);
    }
}

/// A search for providers that the announcement brings to the threshold,
/// or that has no peer left to ask, is reported with its providers, and no
/// search that is done stays in the registry, so that later announcements
/// find nothing to bring back.
pub proof fn lemma_presence_completes(s: Seq<(usize, QueryView)>, p: Seq<u8>, b: (Seq<u8>, PresenceType), k: int)
    requires
        0 <= k < s.len(),
        presence_done(presence_applied(s[k].1, p, b), b),
    ensures
        presence_results(s, p, b).contains((s[k].0, providers_of(presence_applied(s[k].1, p, b)))),
        forall|j: int| 0 <= j < presence_registry(s, p, b).len() ==> !presence_done(#[trigger] presence_registry(s, p, b)[j].1, b),
    decreases s.len(),
{
    lemma_presence_registry_not_done(s, p, b);
    let d = s.drop_last();
    if k == s.len() - 1 {
        assert(presence_results(s, p, b) == presence_results(d, p, b).push((s[k].0, providers_of(presence_applied(s[k].1, p, b)))));
        assert(presence_results(s, p, b).last() == (s[k].0, providers_of(presence_applied(s[k].1, p, b))));
    } else {
        assert(d[k] == s[k]);
        lemma_presence_completes(d, p, b, k);
        let e = (s[k].0, providers_of(presence_applied(s[k].1, p, b)));
        let r = presence_results(d, p, b);
        let j = choose|j: int| 0 <= j < r.len() && r[j] == e;
        let q = presence_applied(s.last().1, p, b);
        if presence_done(q, b) {
            assert(presence_results(s, p, b) == r.push((s.last().0, providers_of(q))));
            assert(presence_results(s, p, b)[j] == e);
        } else {
            assert(presence_results(s, p, b)[j] == e);
        }
    }
}

/// Some entry of `s` has the id, and the announcement ends it or not.
pub open spec fn presence_id_in(s: Seq<(usize, QueryView)>, p: Seq<u8>, b: (Seq<u8>, PresenceType), x: usize, done: bool) -> bool {
    exists|k: int| 0 <= k < s.len() && s[k].0 == x && presence_done(presence_applied(s[k].1, p, b), b) == done
}

proof fn lemma_presence_ids(s: Seq<(usize, QueryView)>, p: Seq<u8>, b: (Seq<u8>, PresenceType))
    ensures
        forall|j: int| 0 <= j < presence_results(s, p, b).len() ==> presence_id_in(s, p, b, (#[trigger] presence_results(s, p, b)[j]).0, true),
        forall|j: int| 0 <= j < presence_registry(s, p, b).len() ==> presence_id_in(s, p, b, (#[trigger] presence_registry(s, p, b)[j]).0, false),
        ids_unique(s) ==> forall|a: int, c: int| 0 <= a < c < presence_results(s, p, b).len()
            ==> (#[trigger] presence_results(s, p, b)[a]).0 != (#[trigger] presence_results(s, p, b)[c]).0,
    decreases s.len(),
{
    if s.len() > 0 {
        let d = s.drop_last();
        lemma_presence_ids(d, p, b);
        let rs = presence_results(s, p, b);
        let rd = presence_results(d, p, b);
        let gs = presence_registry(s, p, b);
        let gd = presence_registry(d, p, b);
        let last = s.len() - 1;
        assert forall|j: int| 0 <= j < rs.len() implies presence_id_in(s, p, b, (#[trigger] rs[j]).0, true) by {
            if j < rd.len() {
                assert(rs[j] == rd[j]);
                let k = choose|k: int| 0 <= k < d.len() && d[k].0 == rd[j].0 && presence_done(presence_applied(d[k].1, p, b), b) == true;
                assert(s[k] == d[k]);
            } else {
                assert(s[last].0 == rs[j].0);
            }
        }
        assert forall|j: int| 0 <= j < gs.len() implies presence_id_in(s, p, b, (#[trigger] gs[j]).0, false) by {
            if j < gd.len() {
                assert(gs[j] == gd[j]);
                let k = choose|k: int| 0 <= k < d.len() && d[k].0 == gd[j].0 && presence_done(presence_applied(d[k].1, p, b), b) == false;
                assert(s[k] == d[k]);
            } else {
                assert(s[last].0 == gs[j].0);
            }
        }
        if ids_unique(s) {
            assert(ids_unique(d)) by {
                assert forall|a: int, c: int| 0 <= a < d.len() && 0 <= c < d.len() && a != c implies #[trigger] d[a].0 != #[trigger] d[c].0 by {
                    assert(d[a] == s[a]);
                    assert(d[c] == s[c]);
                }
            }
            assert forall|a: int, c: int| 0 <= a < c < rs.len() implies (#[trigger] rs[a]).0 != (#[trigger] rs[c]).0 by {
                if c < rd.len() {
                    assert(rs[a] == rd[a] && rs[c] == rd[c]);
                } else {
                    assert(rs[a] == rd[a]);
                    let k = choose|k: int| 0 <= k < d.len() && d[k].0 == rd[a].0 && presence_done(presence_applied(d[k].1, p, b), b) == true;
                    assert(s[k] == d[k]);
                    assert(s[last].0 == rs[c].0);
                }
            }
        }
    }
}

proof fn lemma_presence_registry_not_done(s: Seq<(usize, QueryView)>, p: Seq<u8>, b: (Seq<u8>, PresenceType))
    ensures
        forall|j: int| 0 <= j < presence_registry(s, p, b).len() ==> !presence_done(#[trigger] presence_registry(s, p, b)[j].1, b),
    decreases s.len(),
{
    if s.len() > 0 {
        lemma_presence_registry_not_done(s.drop_last(), p, b);
        let r = presence_registry(s.drop_last(), p, b);
        let reg = presence_registry(s, p, b);
        assert forall|j: int| 0 <= j < reg.len() implies !presence_done(#[trigger] reg[j].1, b) by {
            if j < r.len() {
                assert(reg[j] == r[j]);
            }
        }
    }
}

/// A search for providers among no peers has failed from the start: the
/// next poll of the registry reports it as timed out.
pub proof fn lemma_search_without_peers_fails(cid: Seq<u8>, priority: u32)
    ensures
        is_failed(
            QueryView::FindProviders { cid, peers: Set::empty(), providers: Set::empty(), sent: None, priority },
        ),
{
}

/// Distinct queries of the registry have distinct ids.
pub open spec fn ids_unique(s: Seq<(usize, QueryView)>) -> bool {
    forall|i: int, j: int| 0 <= i < s.len() && 0 <= j < s.len() && i != j ==> #[trigger] s[i].0 != #[trigger] s[j].0
}

/// Where ids are distinct, the query that a poll reports as failed leaves
/// no query with its id behind, so it is not reported a second time.
pub proof fn lemma_failed_reported_once(s: Seq<(usize, QueryView)>, k: int)
    requires
        ids_unique(s),
        first_failed(s, k),
    ensures
        ids_unique(s.remove(k)),
        forall|j: int| 0 <= j < s.remove(k).len() ==> (#[trigger] s.remove(k)[j]).0 != s[k].0,
{
    let u = s.remove(k);
    assert forall|j: int| 0 <= j < u.len() implies (#[trigger] u[j]).0 != s[k].0 by {
        let j2 = if j < k { j } else { j + 1 };
        assert(u[j] == s[j2]);
    }
    assert forall|a: int, b: int| 0 <= a < u.len() && 0 <= b < u.len() && a != b implies #[trigger] u[a].0 != #[trigger] u[b].0 by {
        let a2 = if a < k { a } else { a + 1 };
        let b2 = if b < k { b } else { b + 1 };
        assert(u[a] == s[a2]);
        assert(u[b] == s[b2]);
    }
}

/// Taking the first entry off what is left of the registry walks it one
/// step on.
proof fn lemma_take_first(r0: Seq<QueryEntry>, rest: Seq<QueryEntry>, s: Seq<(usize, QueryView)>, i: int, n: int)
    requires
        0 <= i < n <= s.len(),
        r0.len() > 0,
        registry_view(r0) == s.subrange(i, n),
        rest == r0.subrange(1, r0.len() as int),
        all_wf(r0),
    ensures
        r0[0]@ == s[i],
        r0[0].query.wf(),
        registry_view(rest) == s.subrange(i + 1, n),
        all_wf(rest),
{
    assert(registry_view(r0)[0] == r0[0]@);
    assert(s.subrange(i, n)[0] == s[i]);
    assert(registry_view(r0).len() == r0.len());
    assert(r0.len() == n - i);
    assert(rest.len() == n - i - 1);
    assert forall|k: int| 0 <= k < rest.len() implies #[trigger] registry_view(rest)[k] == s.subrange(i + 1, n)[k] by {
        assert(rest[k] == r0[k + 1]);
        assert(registry_view(r0)[k + 1] == r0[k + 1]@);
        assert(registry_view(rest)[k] == rest[k]@);
        assert(s.subrange(i, n)[k + 1] == s[i + 1 + k]);
    }
    assert(registry_view(rest) =~= s.subrange(i + 1, n));
    assert forall|k: int| 0 <= k < rest.len() implies (#[trigger] rest[k]).query.wf() by {
        assert(rest[k] == r0[k + 1]);
    }
}

/// The first `i` entries of `s` supply the ids of `cur`, each once.
pub open spec fn drawn_unique(cur: Seq<(usize, QueryView)>, s: Seq<(usize, QueryView)>, i: int) -> bool {
    &&& ids_unique(cur)
    &&& forall|j: int| 0 <= j < cur.len() ==> id_among(s, i, (#[trigger] cur[j]).0)
}

/// One of the first `i` entries of `s` has the id.
pub open spec fn id_among(s: Seq<(usize, QueryView)>, i: int, id: usize) -> bool {
    exists|k: int| 0 <= k < i && s[k].0 == id
}

proof fn lemma_push_drawn(cur: Seq<(usize, QueryView)>, s: Seq<(usize, QueryView)>, i: int, e: (usize, QueryView))
    requires
        ids_unique(s),
        0 <= i < s.len(),
        e.0 == s[i].0,
        drawn_unique(cur, s, i),
    ensures
        drawn_unique(cur.push(e), s, i + 1),
{
    let u = cur.push(e);
    assert forall|j: int| 0 <= j < u.len() implies id_among(s, i + 1, (#[trigger] u[j]).0) by {
        if j == cur.len() {
            assert(s[i].0 == u[j].0);
        } else {
            assert(u[j] == cur[j]);
            assert(id_among(s, i, cur[j].0));
            let k = choose|k: int| 0 <= k < i && s[k].0 == cur[j].0;
            assert(s[k].0 == u[j].0);
        }
    }
    assert forall|a: int, b: int| 0 <= a < u.len() && 0 <= b < u.len() && a != b implies #[trigger] u[a].0 != #[trigger] u[b].0 by {
        if a == cur.len() {
            assert(u[b] == cur[b]);
            assert(id_among(s, i, cur[b].0));
            let k = choose|k: int| 0 <= k < i && s[k].0 == cur[b].0;
        } else if b == cur.len() {
            assert(u[a] == cur[a]);
            assert(id_among(s, i, cur[a].0));
            let k = choose|k: int| 0 <= k < i && s[k].0 == cur[a].0;
        } else {
            assert(u[a] == cur[a]);
            assert(u[b] == cur[b]);
        }
    }
}

proof fn lemma_drawn_mono(cur: Seq<(usize, QueryView)>, s: Seq<(usize, QueryView)>, i: int)
    requires
        drawn_unique(cur, s, i) || drawn_unique(cur, s, i + 1),
    ensures
        drawn_unique(cur, s, i + 1),
{
    if drawn_unique(cur, s, i) {
        assert forall|j: int| 0 <= j < cur.len() implies id_among(s, i + 1, (#[trigger] cur[j]).0) by {
            assert(id_among(s, i, cur[j].0));
            let k = choose|k: int| 0 <= k < i && s[k].0 == cur[j].0;
            assert(0 <= k < i + 1 && s[k].0 == cur[j].0);
        }
    }
}

proof fn lemma_drawn_fresh(cur: Seq<(usize, QueryView)>, s: Seq<(usize, QueryView)>, next: usize)
    requires
        drawn_unique(cur, s, s.len() as int),
        forall|k: int| 0 <= k < s.len() ==> (#[trigger] s[k]).0 < next,
    ensures
        ids_unique(cur),
        forall|j: int| 0 <= j < cur.len() ==> (#[trigger] cur[j]).0 < next,
{
    assert forall|j: int| 0 <= j < cur.len() implies (#[trigger] cur[j]).0 < next by {
        assert(id_among(s, s.len() as int, cur[j].0));
        let k = choose|k: int| 0 <= k < s.len() && s[k].0 == cur[j].0;
        assert(s[k].0 < next);
    }
}

impl QueryManager {
    /// A query that the registry reports as failed has an id below the one
    /// that the next query gets, and no query with its id is left: until the
    /// counter wraps round, that id is reported at most once.
    pub proof fn lemma_reported_id_retired(&self, k: int)
        requires
            self.ids_fresh(),
            first_failed(self@, k),
        ensures
            self@[k].0 < self.next_id(),
            forall|j: int| 0 <= j < self@.remove(k).len() ==> (#[trigger] self@.remove(k)[j]).0 != self@[k].0,
    {
        lemma_failed_reported_once(self@, k);
    }
}

impl Default for QueryManager {
    fn default() -> (r: QueryManager)
        ensures
            r.wf(),
            r@ == Seq::<(usize, QueryView)>::empty(),
            r.next_id() == 0,
    {
        QueryManager::new()
    }
}

/// The peers that each want of the block went to, for those that went out.
pub open spec fn wants_sent_sets(s: Seq<(usize, QueryView)>, c: Seq<u8>) -> Seq<Set<Seq<u8>>>
    decreases s.len(),
{
    if s.len() == 0 {
        Seq::empty()
    } else if is_want_of(s.last().1, c) && sent_of(s.last().1) is Some {
        wants_sent_sets(s.drop_last(), c).push(contacted(sent_of(s.last().1)))
    } else {
        wants_sent_sets(s.drop_last(), c)
    }
}

proof fn lemma_sent_sets_len(s: Seq<(usize, QueryView)>, c: Seq<u8>)
    ensures
        wants_sent_sets(s, c).len() <= s.len(),
    decreases s.len(),
{
    if s.len() > 0 {
        lemma_sent_sets_len(s.drop_last(), c);
    }
}

pub open spec fn sets_view(v: Seq<PeerSet>) -> Seq<Set<Seq<u8>>> {
    v.map_values(|p: PeerSet| p@)
}

/// The cancels registered after a block from `sender` came in: one for
/// each want that went out, to the peers it went to but the sender, with
/// ids handed out in turn from `id`.
pub open spec fn follow_up_cancels(sets: Seq<Set<Seq<u8>>>, sender: Seq<u8>, cid: Seq<u8>, id: usize) -> Seq<(usize, QueryView)>
    decreases sets.len(),
{
    if sets.len() == 0 {
        Seq::empty()
    } else if sets[0].remove(sender) == Set::<Seq<u8>>::empty() {
        follow_up_cancels(sets.drop_first(), sender, cid, id)
    } else {
        seq![(id, QueryView::Cancel { providers: sets[0].remove(sender), cid, sent: None })]
            + follow_up_cancels(sets.drop_first(), sender, cid, next_after(id))
    }
}

/// The entry at some index of `s` is a want of the block with the id.
pub open spec fn want_id_in(s: Seq<(usize, QueryView)>, c: Seq<u8>, x: usize) -> bool {
    exists|k: int| 0 <= k < s.len() && s[k].0 == x && is_want_of(s[k].1, c)
}

proof fn lemma_wants_ids(s: Seq<(usize, QueryView)>, c: Seq<u8>)
    ensures
        forall|j: int| 0 <= j < wants_ids(s, c).len() ==> want_id_in(s, c, #[trigger] wants_ids(s, c)[j]),
        ids_unique(s) ==> wants_ids(s, c).no_duplicates(),
    decreases s.len(),
{
    if s.len() > 0 {
        let d = s.drop_last();
        lemma_wants_ids(d, c);
        let w = wants_ids(s, c);
        let wd = wants_ids(d, c);
        assert forall|j: int| 0 <= j < w.len() implies want_id_in(s, c, #[trigger] w[j]) by {
            if j < wd.len() {
                assert(w[j] == wd[j]);
                assert(want_id_in(d, c, wd[j]));
                let k = choose|k: int| 0 <= k < d.len() && d[k].0 == wd[j] && is_want_of(d[k].1, c);
                assert(s[k] == d[k]);
            } else {
                assert(s[s.len() - 1].0 == w[j]);
            }
        }
        if ids_unique(s) {
            assert(ids_unique(d)) by {
                assert forall|a: int, b: int| 0 <= a < d.len() && 0 <= b < d.len() && a != b implies #[trigger] d[a].0 != #[trigger] d[b].0 by {
                    assert(d[a] == s[a]);
                    assert(d[b] == s[b]);
                }
            }
            if is_want_of(s.last().1, c) {
                assert forall|a: int, b: int| 0 <= a < w.len() && 0 <= b < w.len() && a != b implies w[a] != w[b] by {
                    if a < wd.len() && b < wd.len() {
                        assert(w[a] == wd[a] && w[b] == wd[b]);
                    } else if a < wd.len() {
                        assert(w[a] == wd[a]);
                        assert(want_id_in(d, c, wd[a]));
                        let k = choose|k: int| 0 <= k < d.len() && d[k].0 == wd[a] && is_want_of(d[k].1, c);
                        assert(s[k] == d[k]);
                        assert(s[s.len() - 1].0 == w[b]);
                    } else {
                        assert(w[b] == wd[b]);
                        assert(want_id_in(d, c, wd[b]));
                        let k = choose|k: int| 0 <= k < d.len() && d[k].0 == wd[b] && is_want_of(d[k].1, c);
                        assert(s[k] == d[k]);
                        assert(s[s.len() - 1].0 == w[a]);
                    }
                }
            }
        }
    }
}

proof fn lemma_cancel_ids(sets: Seq<Set<Seq<u8>>>, sender: Seq<u8>, cid: Seq<u8>, id: usize)
    requires
        id + sets.len() < usize::MAX,
    ensures
        forall|j: int| 0 <= j < follow_up_cancels(sets, sender, cid, id).len() ==> id <= (#[trigger] follow_up_cancels(sets, sender, cid, id)[j]).0,
    decreases sets.len(),
{
    if sets.len() > 0 {
        let r = sets.drop_first();
        if sets[0].remove(sender) == Set::<Seq<u8>>::empty() {
            lemma_cancel_ids(r, sender, cid, id);
            assert(follow_up_cancels(sets, sender, cid, id) == follow_up_cancels(r, sender, cid, id));
        } else {
            lemma_cancel_ids(r, sender, cid, next_after(id));
            let f = follow_up_cancels(r, sender, cid, next_after(id));
            let all = follow_up_cancels(sets, sender, cid, id);
            assert(next_after(id) == id + 1);
            assert(all =~= seq![(id, QueryView::Cancel { providers: sets[0].remove(sender), cid, sent: None })] + f);
            assert forall|j: int| 0 <= j < all.len() implies id <= (#[trigger] all[j]).0 by {
                if j > 0 {
                    assert(all[j] == f[j - 1]);
                } else {
                    assert(all[0].0 == id);
                }
            }
        }
    }
}

/// The id that the next query gets once those cancels are registered.
pub open spec fn id_after_cancels(sets: Seq<Set<Seq<u8>>>, sender: Seq<u8>, id: usize) -> usize
    decreases sets.len(),
{
    if sets.len() == 0 {
        id
    } else if sets[0].remove(sender) == Set::<Seq<u8>>::empty() {
        id_after_cancels(sets.drop_first(), sender, id)
    } else {
        id_after_cancels(sets.drop_first(), sender, next_after(id))
    }
}

/// The id after the given one, wrapping round at the largest.
pub open spec fn next_after(id: usize) -> usize {
    if id == usize::MAX {
        0
    } else {
        (id + 1) as usize
    }
}

} // verus!
