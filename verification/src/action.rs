//! What a node asks its host to do after handling an event.
use vstd::prelude::*;
use crate::{NodeId, Payload};
use crate::message::{Message, MessageView, message_agrees};

verus! {

#[derive(Debug)]
pub enum Action<Id: NodeId, P: Payload> {
    /// Send a message to a specific peer.
    Send { to: Id, msg: Message<Id, P> },
    /// Open a live connection to a new peer.
    Connect { peer: Id },
    /// Tear down the connection to a peer that was removed.
    Disconnect { peer: Id },
    /// Hand a received payload to the application.
    Deliver { payload: P },
}

/// The mathematical content of an [`Action`].
pub enum ActionView<Id, P> {
    Send { to: Id, msg: MessageView<Id, P> },
    Connect { peer: Id },
    Disconnect { peer: Id },
    Deliver { payload: P },
}

impl<Id: NodeId, P: Payload> View for Action<Id, P> {
    type V = ActionView<Id, P>;

    open spec fn view(&self) -> ActionView<Id, P> {
        match self {
            Action::Send { to, msg } => ActionView::Send { to: *to, msg: msg@ },
            Action::Connect { peer } => ActionView::Connect { peer: *peer },
            Action::Disconnect { peer } => ActionView::Disconnect { peer: *peer },
            Action::Deliver { payload } => ActionView::Deliver { payload: *payload },
        }
    }
}

/// The views of a list of actions.
pub open spec fn views<Id: NodeId, P: Payload>(acts: Seq<Action<Id, P>>) -> Seq<ActionView<Id, P>> {
    acts.map_values(|a: Action<Id, P>| a@)
}

/// `actual` is `expected`, except that a carried payload may be a clone of the
/// expected one.
pub open spec fn action_agrees<Id, P: Clone>(
    actual: ActionView<Id, P>,
    expected: ActionView<Id, P>,
) -> bool {
    match expected {
        ActionView::Send { to, msg } => {
            &&& actual is Send
            &&& actual->Send_to == to
            &&& message_agrees(actual->Send_msg, msg)
        },
        ActionView::Deliver { payload } => {
            &&& actual is Deliver
            &&& cloned(payload, actual->Deliver_payload)
        },
        _ => actual == expected,
    }
}

/// The two action lists agree position by position.
pub open spec fn actions_agree<Id, P: Clone>(
    actual: Seq<ActionView<Id, P>>,
    expected: Seq<ActionView<Id, P>>,
) -> bool {
    &&& actual.len() == expected.len()
    &&& forall|i: int| 0 <= i < actual.len() ==> action_agrees(#[trigger] actual[i], expected[i])
}

/// Appending the views of more actions extends the view list.
pub proof fn lemma_views_push<Id: NodeId, P: Payload>(acts: Seq<Action<Id, P>>, a: Action<Id, P>)
    ensures
        views(acts.push(a)) == views(acts).push(a@),
{
    assert(views(acts.push(a)) =~= views(acts).push(a@));
}

/// The views of a concatenation are the concatenation of the views.
pub proof fn lemma_views_add<Id: NodeId, P: Payload>(a: Seq<Action<Id, P>>, b: Seq<Action<Id, P>>)
    ensures
        views(a + b) == views(a) + views(b),
{
    assert(views(a + b) =~= views(a) + views(b));
}

/// Agreement is kept by concatenation.
pub proof fn lemma_agree_add<Id, P: Clone>(
    a1: Seq<ActionView<Id, P>>,
    e1: Seq<ActionView<Id, P>>,
    a2: Seq<ActionView<Id, P>>,
    e2: Seq<ActionView<Id, P>>,
)
    requires
        actions_agree(a1, e1),
        actions_agree(a2, e2),
    ensures
        actions_agree(a1 + a2, e1 + e2),
{
    assert forall|i: int| 0 <= i < (a1 + a2).len() implies action_agrees(
        #[trigger] (a1 + a2)[i],
        (e1 + e2)[i],
    ) by {
        if i < a1.len() {
            assert(action_agrees(a1[i], e1[i]));
        } else {
            assert(action_agrees(a2[i - a1.len()], e2[i - a1.len()]));
        }
    }
}

/// Every list agrees with itself.
pub proof fn lemma_agree_refl<Id, P: Clone>(a: Seq<ActionView<Id, P>>)
    ensures
        actions_agree(a, a),
{
    assert forall|i: int| 0 <= i < a.len() implies action_agrees(#[trigger] a[i], a[i]) by {
        match a[i] {
            ActionView::Send { to, msg } => {
                match msg {
                    MessageView::Broadcast { .. } => {},
                    _ => {},
                }
            },
            _ => {},
        }
    }
}

} // verus!
