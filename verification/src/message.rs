//! The wire format: everything one peer can say to another. Two families of
//! messages share it: HyParView membership control (build and repair the
//! overlay) and Plumtree broadcast (disseminate payloads).
use vstd::prelude::*;
use crate::{NodeId, Payload};

verus! {

/// A broadcast's sequence number at the node it started from; together with
/// that node's id it names the broadcast uniquely.
pub type MessageId = u64;

#[derive(Debug)]
pub enum Message<Id: NodeId, P: Payload> {
    /// A newcomer asks to be let into the overlay.
    Join { new_node: Id },
    /// Spreads word of a join along a random walk; `ttl` starts at the active
    /// random walk length and drops by one per hop.
    ForwardJoin { new_node: Id, sender: Id, ttl: u32 },
    /// The sender has dropped us from its active view (keeps links symmetric).
    Disconnect { sender: Id },
    /// Asks for a slot in the receiver's active view. `accepted` set means a
    /// high-priority request (the sender's active view is nearly empty), which
    /// the receiver cannot refuse.
    Neighbor { sender: Id, accepted: bool },
    /// Accepts or rejects a `Neighbor` request.
    NeighborReply { sender: Id, accepted: bool },
    /// Periodic passive-view refresh, walking `ttl` hops from `origin`.
    Shuffle { origin: Id, sender: Id, ttl: u32, peers: Vec<Id> },
    /// Answer to a `Shuffle`, carrying peers from the answering node's passive view.
    ShuffleReplay { peers: Vec<Id> },
    /// Eager push of a payload, with the hop count it has travelled.
    Broadcast { origin: Id, seq: MessageId, sender: Id, hop: u32, payload: P },
    /// Lazy push: the sender has the broadcast `(origin, seq)`.
    IHave { origin: Id, seq: MessageId, sender: Id },
    /// Asks the receiver for the payload of `(origin, seq)` and makes the link eager.
    Graft { origin: Id, seq: MessageId, sender: Id },
    /// The sender found our eager link redundant: demote it to lazy.
    Prune { sender: Id },
}

/// The mathematical content of a [`Message`]: peer lists become sequences.
pub enum MessageView<Id, P> {
    Join { new_node: Id },
    ForwardJoin { new_node: Id, sender: Id, ttl: u32 },
    Disconnect { sender: Id },
    Neighbor { sender: Id, accepted: bool },
    NeighborReply { sender: Id, accepted: bool },
    Shuffle { origin: Id, sender: Id, ttl: u32, peers: Seq<Id> },
    ShuffleReplay { peers: Seq<Id> },
    Broadcast { origin: Id, seq: MessageId, sender: Id, hop: u32, payload: P },
    IHave { origin: Id, seq: MessageId, sender: Id },
    Graft { origin: Id, seq: MessageId, sender: Id },
    Prune { sender: Id },
}

impl<Id: NodeId, P: Payload> View for Message<Id, P> {
    type V = MessageView<Id, P>;

    open spec fn view(&self) -> MessageView<Id, P> {
        match self {
            Message::Join { new_node } => MessageView::Join { new_node: *new_node },
            Message::ForwardJoin { new_node, sender, ttl } => MessageView::ForwardJoin {
                new_node: *new_node,
                sender: *sender,
                ttl: *ttl,
            },
            Message::Disconnect { sender } => MessageView::Disconnect { sender: *sender },
            Message::Neighbor { sender, accepted } => MessageView::Neighbor {
                sender: *sender,
                accepted: *accepted,
            },
            Message::NeighborReply { sender, accepted } => MessageView::NeighborReply {
                sender: *sender,
                accepted: *accepted,
            },
            Message::Shuffle { origin, sender, ttl, peers } => MessageView::Shuffle {
                origin: *origin,
                sender: *sender,
                ttl: *ttl,
                peers: peers@,
            },
            Message::ShuffleReplay { peers } => MessageView::ShuffleReplay { peers: peers@ },
            Message::Broadcast { origin, seq, sender, hop, payload } => MessageView::Broadcast {
                origin: *origin,
                seq: *seq,
                sender: *sender,
                hop: *hop,
                payload: *payload,
            },
            Message::IHave { origin, seq, sender } => MessageView::IHave {
                origin: *origin,
                seq: *seq,
                sender: *sender,
            },
            Message::Graft { origin, seq, sender } => MessageView::Graft {
                origin: *origin,
                seq: *seq,
                sender: *sender,
            },
            Message::Prune { sender } => MessageView::Prune { sender: *sender },
        }
    }
}

/// `actual` is `expected`, except that a carried payload may be a clone of the
/// expected one.
pub open spec fn message_agrees<Id, P: Clone>(
    actual: MessageView<Id, P>,
    expected: MessageView<Id, P>,
) -> bool {
    match expected {
        MessageView::Broadcast { origin, seq, sender, hop, payload } => {
            &&& actual is Broadcast
            &&& actual->Broadcast_origin == origin
            &&& actual->Broadcast_seq == seq
            &&& actual->Broadcast_sender == sender
            &&& actual->Broadcast_hop == hop
            &&& cloned(payload, actual->Broadcast_payload)
        },
        _ => actual == expected,
    }
}

} // verus!
