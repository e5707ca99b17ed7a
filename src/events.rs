//! What the engine reports to its host, and what it asks of the transport.
use vstd::prelude::*;
use crate::ids::{Cid, PeerId, Priority};
use crate::message::{BitswapMessage, MessageView};

verus! {

/// The one way a query fails.
#[derive(Clone, Copy, Debug, PartialEq, Eq, Structural)]
pub enum QueryError {
    Timeout,
}

impl QueryError {
    pub fn to_string(&self) -> (r: String)
        ensures
            r@ == "timeout"@,
    {
        match self {
            QueryError::Timeout => String::from_str("timeout"),
        }
    }
}

#[derive(Debug)]
pub enum WantResult {
    Success { sender: PeerId, cid: Cid, data: Vec<u8> },
    Failure { cid: Cid, error: QueryError },
}

#[derive(Debug)]
pub enum FindProvidersResult {
    Success { cid: Cid, provider: PeerId },
    Failure { cid: Cid, error: QueryError },
}

#[derive(Debug)]
pub enum SendHaveResult {
    Success(Cid),
    Failure { cid: Cid, error: QueryError },
}

#[derive(Debug)]
pub enum SendResult {
    Success(Cid),
    Failure { cid: Cid, error: QueryError },
}

#[derive(Debug)]
pub enum CancelResult {
    Success(Cid),
    Failure { cid: Cid, error: QueryError },
}

#[derive(Debug)]
pub enum QueryResult {
    Want(WantResult),
    FindProviders(FindProvidersResult),
    Send(SendResult),
    SendHave(SendHaveResult),
    Cancel(CancelResult),
}

/// A request that a remote peer made of us.
#[derive(Debug)]
pub enum InboundRequest {
    Want { sender: PeerId, cid: Cid, priority: Priority },
    WantHave { sender: PeerId, cid: Cid, priority: Priority },
    Cancel { sender: PeerId, cid: Cid },
}

#[derive(Debug)]
pub enum BitswapEvent {
    OutboundQueryCompleted { result: QueryResult },
    InboundRequest { request: InboundRequest },
}

/// An event as a value.
pub enum EventView {
    WantOk { sender: Seq<u8>, cid: Seq<u8>, data: Seq<u8> },
    WantErr { cid: Seq<u8> },
    FindProvidersOk { cid: Seq<u8>, provider: Seq<u8> },
    FindProvidersErr { cid: Seq<u8> },
    SendOk { cid: Seq<u8> },
    SendErr { cid: Seq<u8> },
    SendHaveOk { cid: Seq<u8> },
    SendHaveErr { cid: Seq<u8> },
    CancelOk { cid: Seq<u8> },
    CancelErr { cid: Seq<u8> },
    InboundWant { sender: Seq<u8>, cid: Seq<u8>, priority: u32 },
    InboundWantHave { sender: Seq<u8>, cid: Seq<u8>, priority: u32 },
    InboundCancel { sender: Seq<u8>, cid: Seq<u8> },
}

impl View for BitswapEvent {
    type V = EventView;

    open spec fn view(&self) -> EventView {
        match self {
            BitswapEvent::OutboundQueryCompleted { result } => match result {
                QueryResult::Want(WantResult::Success { sender, cid, data }) => EventView::WantOk {
                    sender: sender@,
                    cid: cid@,
                    data: data@,
                },
                QueryResult::Want(WantResult::Failure { cid, .. }) => EventView::WantErr { cid: cid@ },
                QueryResult::FindProviders(FindProvidersResult::Success { cid, provider }) => {
                    EventView::FindProvidersOk { cid: cid@, provider: provider@ }
                },
                QueryResult::FindProviders(FindProvidersResult::Failure { cid, .. }) => {
                    EventView::FindProvidersErr { cid: cid@ }
                },
                QueryResult::Send(SendResult::Success(cid)) => EventView::SendOk { cid: cid@ },
                QueryResult::Send(SendResult::Failure { cid, .. }) => EventView::SendErr { cid: cid@ },
                QueryResult::SendHave(SendHaveResult::Success(cid)) => EventView::SendHaveOk { cid: cid@ },
                QueryResult::SendHave(SendHaveResult::Failure { cid, .. }) => EventView::SendHaveErr {
                    cid: cid@,
                },
                QueryResult::Cancel(CancelResult::Success(cid)) => EventView::CancelOk { cid: cid@ },
                QueryResult::Cancel(CancelResult::Failure { cid, .. }) => EventView::CancelErr { cid: cid@ },
            },
            BitswapEvent::InboundRequest { request } => match request {
                InboundRequest::Want { sender, cid, priority } => EventView::InboundWant {
                    sender: sender@,
                    cid: cid@,
                    priority: *priority,
                },
                InboundRequest::WantHave { sender, cid, priority } => EventView::InboundWantHave {
                    sender: sender@,
                    cid: cid@,
                    priority: *priority,
                },
                InboundRequest::Cancel { sender, cid } => EventView::InboundCancel {
                    sender: sender@,
                    cid: cid@,
                },
            },
        }
    }
}

/// What the engine hands to the network layer.
pub enum BehaviourAction {
    /// Report an event to the host.
    GenerateEvent(BitswapEvent),
    /// Open a connection to the peer.
    Dial { peer_id: PeerId },
    /// Send the message to the peer, on any open substream.
    NotifyHandler { peer_id: PeerId, event: BitswapMessage },
}

/// An action as a value.
pub enum ActionView {
    Event(EventView),
    Dial(Seq<u8>),
    Notify(Seq<u8>, MessageView),
}

impl View for BehaviourAction {
    type V = ActionView;

    open spec fn view(&self) -> ActionView {
        match self {
            BehaviourAction::GenerateEvent(e) => ActionView::Event(e@),
            BehaviourAction::Dial { peer_id } => ActionView::Dial(peer_id@),
            BehaviourAction::NotifyHandler { peer_id, event } => ActionView::Notify(peer_id@, event@),
        }
    }
}

/// What a connection handler hands back to the engine.
pub enum HandlerEvent {
    /// An outbound substream was negotiated.
    Upgrade,
    /// A message came in.
    Bitswap(BitswapMessage),
}

/// Settings of the engine; it has none yet.
#[derive(Clone, Copy, Debug, Default, PartialEq, Eq, Structural)]
pub struct BitswapConfig {}

} // verus!
