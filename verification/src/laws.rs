//! Properties of the node that span calls, proved from the contracts of
//! `Node::handle` and `Node::broadcast` (`handle_post`, `broadcast_post`).
use vstd::prelude::*;
use crate::action::{ActionView, action_agrees, actions_agree};
use crate::broadcast::{eager_sends, lazy_sends, targets, lemma_targets_contains, lemma_targets_len, lemma_filter_split_len};
use crate::gossip::{NodeView, handle_post, broadcast_post};
use crate::listset::{lookup, without, lemma_put};
use crate::membership::{MembershipView, lemma_add_to_active, lemma_add_to_passive, lemma_drop_from_active, lemma_without};
use crate::message::MessageView;

verus! {

/// Some action hands a payload to the application.
pub open spec fn delivers<Id, P>(acts: Seq<ActionView<Id, P>>) -> bool {
    exists|i: int| 0 <= i < acts.len() && acts[i] is Deliver
}

/// The broadcast id a message carries, if it is a broadcast.
pub open spec fn broadcast_id<Id, P>(m: MessageView<Id, P>) -> Option<(Id, u64)> {
    match m {
        MessageView::Broadcast { origin, seq, .. } => Some((origin, seq)),
        _ => None,
    }
}

proof fn lemma_agree_keeps_kind<Id, P: Clone>(
    acts: Seq<ActionView<Id, P>>,
    exp: Seq<ActionView<Id, P>>,
)
    requires
        actions_agree(acts, exp),
    ensures
        delivers(acts) <==> delivers(exp),
        forall|i: int| 0 <= i < acts.len() ==> (#[trigger] acts[i] is Send <==> exp[i] is Send),
{
    assert forall|i: int| 0 <= i < acts.len() implies (#[trigger] acts[i] is Send <==> exp[i] is Send)
        && (acts[i] is Deliver <==> exp[i] is Deliver) by {
        assert(action_agrees(acts[i], exp[i]));
    }
    if delivers(acts) {
        let i = choose|i: int| 0 <= i < acts.len() && acts[i] is Deliver;
        assert(exp[i] is Deliver);
    }
    if delivers(exp) {
        let i = choose|i: int| 0 <= i < exp.len() && exp[i] is Deliver;
        assert(acts[i] is Deliver);
    }
}

proof fn lemma_sends_only<Id, P>(me: Id, peers: Seq<Id>, ex: Option<Id>, o: Id, q: u64, h: u32, p: P)
    ensures
        !delivers(eager_sends(me, peers, ex, o, q, h, p)),
        !delivers(lazy_sends::<Id, P>(me, peers, ex, o, q)),
{
}

/// The membership layer delivers only broadcasts.
proof fn lemma_membership_no_deliver<Id, P>(s: MembershipView<Id>, m: MessageView<Id, P>)
    requires
        !(m is Broadcast),
    ensures
        !delivers(s.step(m).1),
{
    let acts = s.step(m).1;
    match m {
        MessageView::Neighbor { sender, accepted } => {
            if accepted || !s.is_full() {
                let a = s.adopt::<P>(sender).1;
                assert(forall|i: int| 0 <= i < a.len() ==> !(a[i] is Deliver));
                assert forall|i: int| 0 <= i < acts.len() implies !(#[trigger] acts[i] is Deliver) by {
                    if i > 0 {
                        assert(acts[i] == a[i - 1]);
                    }
                }
            }
        },
        _ => {},
    }
}

/// A node delivers a payload only for a broadcast it had not seen before, and
/// has seen it afterwards.
pub proof fn law_deliver_only_new<Id, P: Clone>(
    s: NodeView<Id, P>,
    t: NodeView<Id, P>,
    m: MessageView<Id, P>,
    acts: Seq<ActionView<Id, P>>,
)
    requires
        handle_post(s, t, m, acts),
        delivers(acts),
    ensures
        broadcast_id(m) is Some,
        !s.seen.contains(broadcast_id(m)->0),
        t.seen.contains(broadcast_id(m)->0),
{
    match m {
        MessageView::Broadcast { origin, seq, sender, hop, payload } => {
            let id = (origin, seq);
            if s.seen.contains(id) {
                assert(!delivers(acts));
            } else {
                assert(t.seen[s.seen.len() as int] == id);
            }
        },
        MessageView::IHave { .. } => {},
        MessageView::Prune { .. } => {},
        MessageView::Graft { origin, seq, sender } => {
            let exp = match lookup(s.cache, (origin, seq)) {
                Some(p) => seq![
                    ActionView::<Id, P>::Send {
                        to: sender,
                        msg: MessageView::Broadcast { origin, seq, sender: s.config.me, hop: 0, payload: p },
                    },
                ],
                None => Seq::empty(),
            };
            lemma_agree_keeps_kind(acts, exp);
        },
        _ => {
            lemma_membership_no_deliver(s.membership, m);
        },
    }
}

/// A broadcast the node has already seen is never delivered again: the
/// duplicate only prunes the link it came over.
pub proof fn law_duplicate_not_delivered<Id, P: Clone>(
    s: NodeView<Id, P>,
    t: NodeView<Id, P>,
    m: MessageView<Id, P>,
    acts: Seq<ActionView<Id, P>>,
)
    requires
        handle_post(s, t, m, acts),
        broadcast_id(m) is Some,
        s.seen.contains(broadcast_id(m)->0),
    ensures
        !delivers(acts),
        acts == seq![
            ActionView::<Id, P>::Send {
                to: m->Broadcast_sender,
                msg: MessageView::Prune { sender: s.config.me },
            },
        ],
{
}

/// Once seen, a broadcast stays seen, whatever message is handled.
pub proof fn law_seen_only_grows<Id, P: Clone>(
    s: NodeView<Id, P>,
    t: NodeView<Id, P>,
    m: MessageView<Id, P>,
    acts: Seq<ActionView<Id, P>>,
)
    requires
        handle_post(s, t, m, acts),
    ensures
        forall|k: (Id, u64)| s.seen.contains(k) ==> #[trigger] t.seen.contains(k),
        t.next_seq == s.next_seq,
        t.config == s.config,
{
    match m {
        MessageView::Broadcast { origin, seq, .. } => {
            if !s.seen.contains((origin, seq)) {
                assert forall|k: (Id, u64)| s.seen.contains(k) implies #[trigger] t.seen.contains(k) by {
                    let i = choose|i: int| 0 <= i < s.seen.len() && s.seen[i] == k;
                    assert(t.seen[i] == k);
                }
            }
        },
        _ => {},
    }
}

/// Starting a broadcast marks its id as seen, keeps every earlier id seen, and
/// advances the sequence counter, so the next broadcast gets a fresh id.
pub proof fn law_broadcast_marks_seen<Id, P: Clone>(
    s: NodeView<Id, P>,
    t: NodeView<Id, P>,
    payload: P,
    acts: Seq<ActionView<Id, P>>,
)
    requires
        broadcast_post(s, t, payload, acts),
        s.seen.no_duplicates(),
        s.next_seq < u64::MAX,
    ensures
        t.seen.contains((s.config.me, s.next_seq)),
        forall|k: (Id, u64)| s.seen.contains(k) ==> #[trigger] t.seen.contains(k),
        t.next_seq == s.next_seq + 1,
        !delivers(acts),
{
    crate::listset::lemma_with(s.seen, (s.config.me, s.next_seq));
    let me = s.config.me;
    let exp = eager_sends(me, s.eager_peers(), None, me, s.next_seq, 0, payload) + lazy_sends(
        me,
        s.lazy_peers(),
        None,
        me,
        s.next_seq,
    );
    lemma_agree_keeps_kind(acts, exp);
    lemma_sends_only(me, s.eager_peers(), None, me, s.next_seq, 0u32, payload);
    lemma_sends_only(me, s.lazy_peers(), None, me, s.next_seq, 0u32, payload);
    if delivers(exp) {
        let i = choose|i: int| 0 <= i < exp.len() && exp[i] is Deliver;
        let e = eager_sends(me, s.eager_peers(), None, me, s.next_seq, 0, payload);
        if i < e.len() {
            assert(delivers(e));
        } else {
            let l = lazy_sends::<Id, P>(me, s.lazy_peers(), None, me, s.next_seq);
            assert(l[i - e.len()] is Deliver);
            assert(delivers(l));
        }
    }
}

/// Two broadcasts started by one node, the second after the first, carry
/// different ids.
pub proof fn law_broadcast_ids_distinct<Id, P: Clone>(
    s1: NodeView<Id, P>,
    t1: NodeView<Id, P>,
    p1: P,
    a1: Seq<ActionView<Id, P>>,
    s2: NodeView<Id, P>,
    t2: NodeView<Id, P>,
    p2: P,
    a2: Seq<ActionView<Id, P>>,
)
    requires
        broadcast_post(s1, t1, p1, a1),
        broadcast_post(s2, t2, p2, a2),
        s1.next_seq < u64::MAX,
        t1.next_seq <= s2.next_seq,
    ensures
        (s1.config.me, s1.next_seq) != (s2.config.me, s2.next_seq),
{
}

/// A node delivers each broadcast at most once: after a delivery, the same
/// broadcast arriving again (over any link) is not delivered.
pub proof fn law_delivered_at_most_once<Id, P: Clone>(
    s: NodeView<Id, P>,
    t: NodeView<Id, P>,
    u: NodeView<Id, P>,
    m1: MessageView<Id, P>,
    m2: MessageView<Id, P>,
    a1: Seq<ActionView<Id, P>>,
    a2: Seq<ActionView<Id, P>>,
)
    requires
        handle_post(s, t, m1, a1),
        handle_post(t, u, m2, a2),
        delivers(a1),
        broadcast_id(m2) == broadcast_id(m1),
    ensures
        !delivers(a2),
{
    law_deliver_only_new(s, t, m1, a1);
    law_duplicate_not_delivered(t, u, m2, a2);
}

/// Handling a broadcast never sends it, nor an announcement of it, back to the
/// peer it came from; only a PRUNE of a redundant link goes back.
pub proof fn law_no_echo<Id, P: Clone>(
    s: NodeView<Id, P>,
    t: NodeView<Id, P>,
    m: MessageView<Id, P>,
    acts: Seq<ActionView<Id, P>>,
)
    requires
        handle_post(s, t, m, acts),
        m is Broadcast,
    ensures
        forall|i: int|
            0 <= i < acts.len() && #[trigger] acts[i] is Send && acts[i]->Send_to == m->Broadcast_sender
                ==> acts[i]->Send_msg is Prune,
{
    match m {
        MessageView::Broadcast { origin, seq, sender, hop, payload } => {
            let id = (origin, seq);
            if !s.seen.contains(id) {
                let me = s.config.me;
                let u = NodeView { lazy: without(s.lazy, sender), seen: s.seen.push(id), ..s };
                let d = seq![ActionView::Deliver { payload }];
                let e = eager_sends(me, u.eager_peers(), Some(sender), origin, seq, hop, payload);
                let l = lazy_sends::<Id, P>(me, u.lazy_peers(), Some(sender), origin, seq);
                let rest = if hop >= s.config.max_rounds { Seq::empty() } else { e + l };
                let exp = d + rest;
                let te = targets(u.eager_peers(), Some(sender));
                let tl = targets(u.lazy_peers(), Some(sender));
                assert forall|k: int| 0 <= k < te.len() implies #[trigger] te[k] != sender by {
                    u.eager_peers().lemma_filter_pred(|p: Id| Some(sender) != Some(p), k);
                }
                assert forall|k: int| 0 <= k < tl.len() implies #[trigger] tl[k] != sender by {
                    u.lazy_peers().lemma_filter_pred(|p: Id| Some(sender) != Some(p), k);
                }
                assert forall|i: int|
                    0 <= i < acts.len() && #[trigger] acts[i] is Send && acts[i]->Send_to == sender
                        implies acts[i]->Send_msg is Prune by {
                    assert(action_agrees(acts[i], exp[i]));
                    if i == 0 {
                    } else if hop >= s.config.max_rounds {
                    } else if i - 1 < e.len() {
                        assert(exp[i] == e[i - 1]);
                        assert(e[i - 1]->Send_to == te[i - 1]);
                    } else {
                        assert(exp[i] == l[i - 1 - e.len()]);
                        assert(l[i - 1 - e.len()]->Send_to == tl[i - 1 - e.len()]);
                    }
                }
            }
        },
        _ => {},
    }
}

/// Every broadcast a node sends on has travelled at most `max_rounds` hops, and
/// a broadcast that arrives at the hop limit is delivered but pushed no further.
pub proof fn law_hop_limit<Id, P: Clone>(
    s: NodeView<Id, P>,
    t: NodeView<Id, P>,
    m: MessageView<Id, P>,
    acts: Seq<ActionView<Id, P>>,
)
    requires
        handle_post(s, t, m, acts),
    ensures
        forall|i: int|
            0 <= i < acts.len() && #[trigger] acts[i] is Send && acts[i]->Send_msg is Broadcast
                ==> acts[i]->Send_msg->Broadcast_hop <= s.config.max_rounds,
        m is Broadcast && m->Broadcast_hop >= s.config.max_rounds ==> acts.len() <= 1,
{
    match m {
        MessageView::Broadcast { origin, seq, sender, hop, payload } => {
            let id = (origin, seq);
            if !s.seen.contains(id) {
                let me = s.config.me;
                let u = NodeView { lazy: without(s.lazy, sender), seen: s.seen.push(id), ..s };
                let d = seq![ActionView::Deliver { payload }];
                let e = eager_sends(me, u.eager_peers(), Some(sender), origin, seq, hop, payload);
                let l = lazy_sends::<Id, P>(me, u.lazy_peers(), Some(sender), origin, seq);
                let rest = if hop >= s.config.max_rounds { Seq::empty() } else { e + l };
                let exp = d + rest;
                assert forall|i: int|
                    0 <= i < acts.len() && #[trigger] acts[i] is Send && acts[i]->Send_msg is Broadcast
                        implies acts[i]->Send_msg->Broadcast_hop <= s.config.max_rounds by {
                    assert(action_agrees(acts[i], exp[i]));
                    if i == 0 {
                    } else if hop >= s.config.max_rounds {
                    } else if i - 1 < e.len() {
                        assert(exp[i] == e[i - 1]);
                    } else {
                        assert(exp[i] == l[i - 1 - e.len()]);
                    }
                }
            }
        },
        MessageView::Graft { origin, seq, sender } => {
            let exp = match lookup(s.cache, (origin, seq)) {
                Some(p) => seq![
                    ActionView::<Id, P>::Send {
                        to: sender,
                        msg: MessageView::Broadcast { origin, seq, sender: s.config.me, hop: 0, payload: p },
                    },
                ],
                None => Seq::empty(),
            };
            assert forall|i: int|
                0 <= i < acts.len() && #[trigger] acts[i] is Send && acts[i]->Send_msg is Broadcast
                    implies acts[i]->Send_msg->Broadcast_hop <= s.config.max_rounds by {
                assert(action_agrees(acts[i], exp[i]));
            }
        },
        MessageView::IHave { .. } => {},
        MessageView::Prune { .. } => {},
        _ => {
            let acts2 = s.membership.step(m).1;
            assert forall|i: int|
                0 <= i < acts.len() && #[trigger] acts[i] is Send implies !(acts[i]->Send_msg is Broadcast) by {
                match m {
                    MessageView::Neighbor { sender, accepted } => {
                        if accepted || !s.membership.is_full() {
                            let a = s.membership.adopt::<P>(sender).1;
                            if i > 0 {
                                assert(acts2[i] == a[i - 1]);
                            }
                        }
                    },
                    _ => {},
                }
            }
        },
    }
}

/// What a GRAFT reads back is what a delivery stored: after a node delivers a
/// new broadcast, a GRAFT for it is answered with a copy of that payload.
pub proof fn law_graft_returns_delivered_payload<Id, P: Clone>(
    s: NodeView<Id, P>,
    t: NodeView<Id, P>,
    u: NodeView<Id, P>,
    origin: Id,
    seq: u64,
    sender: Id,
    hop: u32,
    payload: P,
    asker: Id,
    a1: Seq<ActionView<Id, P>>,
    a2: Seq<ActionView<Id, P>>,
)
    requires
        s.wf(),
        handle_post(s, t, MessageView::Broadcast { origin, seq, sender, hop, payload }, a1),
        !s.seen.contains((origin, seq)),
        handle_post(t, u, MessageView::Graft { origin, seq, sender: asker }, a2),
    ensures
        a2.len() == 1,
        a2[0] is Send,
        a2[0]->Send_to == asker,
        a2[0]->Send_msg is Broadcast,
        a2[0]->Send_msg->Broadcast_origin == origin,
        a2[0]->Send_msg->Broadcast_seq == seq,
        a2[0]->Send_msg->Broadcast_hop == 0,
        exists|stored: P|
            cloned(payload, stored) && cloned(stored, #[trigger] a2[0]->Send_msg->Broadcast_payload),
{
    let id = (origin, seq);
    let stored = lookup(t.cache, id)->0;
    lemma_put(s.cache, id, stored);
    assert(lookup(t.cache, id) == Some(stored));
    assert(action_agrees(
        a2[0],
        ActionView::<Id, P>::Send {
            to: asker,
            msg: MessageView::Broadcast { origin, seq, sender: t.config.me, hop: 0, payload: stored },
        },
    ));
}

/// Each active peer is pushed to in exactly one way: eagerly unless it has
/// been pruned to lazy.
pub proof fn law_eager_lazy_partition<Id, P>(s: NodeView<Id, P>)
    ensures
        forall|p: Id| #[trigger] s.eager_peers().contains(p) <==> (s.membership.active.contains(p) && !s.lazy.contains(p)),
        forall|p: Id| #[trigger] s.lazy_peers().contains(p) <==> (s.membership.active.contains(p) && s.lazy.contains(p)),
{
    let a = s.membership.active;
    let fe = |p: Id| !s.lazy.contains(p);
    let fl = |p: Id| s.lazy.contains(p);
    assert forall|p: Id| #[trigger] s.eager_peers().contains(p) <==> (a.contains(p) && !s.lazy.contains(p)) by {
        if s.eager_peers().contains(p) {
            let k = choose|k: int| 0 <= k < a.filter(fe).len() && a.filter(fe)[k] == p;
            a.lemma_filter_pred(fe, k);
            a.lemma_filter_contains_rev(fe, p);
        }
        if a.contains(p) && !s.lazy.contains(p) {
            let k = choose|k: int| 0 <= k < a.len() && a[k] == p;
            a.lemma_filter_contains(fe, k);
        }
    }
    assert forall|p: Id| #[trigger] s.lazy_peers().contains(p) <==> (a.contains(p) && s.lazy.contains(p)) by {
        if s.lazy_peers().contains(p) {
            let k = choose|k: int| 0 <= k < a.filter(fl).len() && a.filter(fl)[k] == p;
            a.lemma_filter_pred(fl, k);
            a.lemma_filter_contains_rev(fl, p);
        }
        if a.contains(p) && s.lazy.contains(p) {
            let k = choose|k: int| 0 <= k < a.len() && a[k] == p;
            a.lemma_filter_contains(fl, k);
        }
    }
}

/// A joining peer is taken into the active view and connected to, bumping
/// the oldest active peer to the passive view when the view is full.
pub proof fn law_join_adopts<Id, P>(s: MembershipView<Id>, peer: Id)
    requires
        s.wf(),
        peer != s.me,
    ensures
        ({
            let (t, acts) = s.step(MessageView::<Id, P>::Join { new_node: peer });
            &&& t.active.contains(peer)
            &&& !t.passive.contains(peer)
            &&& t.active.len() <= s.active_capacity
            &&& acts[0] == ActionView::<Id, P>::Connect { peer }
        }),
{
    lemma_add_to_active(s, peer);
}

/// A peer that disconnects from us leaves the active view and is kept as a
/// backup in the passive view.
pub proof fn law_disconnect_keeps_backup<Id, P>(s: MembershipView<Id>, peer: Id)
    requires
        s.wf(),
        peer != s.me,
    ensures
        ({
            let (t, acts) = s.step(MessageView::<Id, P>::Disconnect { sender: peer });
            &&& !t.active.contains(peer)
            &&& t.passive.contains(peer)
        }),
{
    lemma_drop_from_active(s, peer);
    lemma_add_to_passive(s.drop_from_active(peer), peer);
}

/// A high-priority NEIGHBOR request is never refused: it is accepted and the
/// requester joins the active view, however full that view is.
pub proof fn law_priority_neighbor_accepted<Id, P>(s: MembershipView<Id>, peer: Id)
    requires
        s.wf(),
        peer != s.me,
    ensures
        ({
            let (t, acts) = s.step(MessageView::<Id, P>::Neighbor { sender: peer, accepted: true });
            &&& t.active.contains(peer)
            &&& acts[0] == ActionView::<Id, P>::Send {
                to: peer,
                msg: MessageView::NeighborReply { sender: s.me, accepted: true },
            }
        }),
{
    lemma_add_to_active(s, peer);
}

/// An ordinary NEIGHBOR request is accepted exactly when the active view has room.
pub proof fn law_neighbor_accepted_iff_room<Id, P>(s: MembershipView<Id>, peer: Id)
    requires
        s.wf(),
    ensures
        ({
            let (t, acts) = s.step(MessageView::<Id, P>::Neighbor { sender: peer, accepted: false });
            &&& acts[0] == ActionView::<Id, P>::Send {
                to: peer,
                msg: MessageView::NeighborReply { sender: s.me, accepted: !s.is_full() },
            }
            &&& s.is_full() ==> t == s && acts.len() == 1
            &&& (!s.is_full() && peer != s.me) ==> t.active.contains(peer) && acts[1] == (ActionView::<
                Id,
                P,
            >::Connect { peer })
        }),
{
    lemma_add_to_active(s, peer);
}

/// A FORWARDJOIN walk either ends here, with the newcomer adopted into the
/// active view, or goes on one hop shorter to an active peer other than the one
/// it came from and the newcomer itself.
pub proof fn law_forward_join_walk<Id, P>(s: MembershipView<Id>, new_node: Id, sender: Id, ttl: u32)
    requires
        s.wf(),
        new_node != s.me,
    ensures
        ({
            let (t, acts) = s.step(MessageView::<Id, P>::ForwardJoin { new_node, sender, ttl });
            if ttl == 0 || !crate::membership::has_relay(s.active, sender, new_node) {
                &&& t.active.contains(new_node)
                &&& acts[0] == ActionView::<Id, P>::Connect { peer: new_node }
            } else {
                &&& t.active == s.active
                &&& acts.len() == 1
                &&& acts[0] is Send
                &&& s.active.contains(acts[0]->Send_to)
                &&& acts[0]->Send_to != sender
                &&& acts[0]->Send_to != new_node
                &&& acts[0]->Send_msg == MessageView::<Id, P>::ForwardJoin {
                    new_node,
                    sender: s.me,
                    ttl: (ttl - 1) as u32,
                }
            }
        }),
{
    lemma_add_to_active(s, new_node);
    lemma_add_to_passive(s, new_node);
    if !(ttl == 0 || !crate::membership::has_relay(s.active, sender, new_node)) {
        let a = s.active;
        let k = choose|k: int|
            0 <= k < a.len() && a[k] != sender && a[k] != new_node && forall|j: int|
                0 <= j < k ==> (a[j] == sender || a[j] == new_node);
        let w = choose|i: int| 0 <= i < a.len() && a[i] != sender && a[i] != new_node;
        assert(exists|k: int|
            0 <= k < a.len() && a[k] != sender && a[k] != new_node && forall|j: int|
                0 <= j < k ==> (a[j] == sender || a[j] == new_node)) by {
            lemma_first_relay(a, sender, new_node, w);
        }
        assert(a.contains(a[k]));
    }
}

proof fn lemma_first_relay<Id>(a: Seq<Id>, x: Id, y: Id, w: int)
    requires
        0 <= w < a.len(),
        a[w] != x,
        a[w] != y,
    ensures
        exists|k: int|
            0 <= k < a.len() && a[k] != x && a[k] != y && forall|j: int|
                0 <= j < k ==> (a[j] == x || a[j] == y),
    decreases w,
{
    if forall|j: int| 0 <= j < w ==> (a[j] == x || a[j] == y) {
    } else {
        let j = choose|j: int| 0 <= j < w && !(a[j] == x || a[j] == y);
        lemma_first_relay(a, x, y, j);
    }
}

/// When a SHUFFLE walk ends here, the reply goes to the node that started it
/// and carries only peers from our passive view, no more than it sent us.
pub proof fn law_shuffle_reply_from_passive<Id, P>(
    s: MembershipView<Id>,
    origin: Id,
    sender: Id,
    ttl: u32,
    peers: Seq<Id>,
)
    requires
        s.wf(),
        ttl == 0 || !crate::membership::has_relay(s.active, sender, origin),
    ensures
        ({
            let (t, acts) = s.step(MessageView::<Id, P>::Shuffle { origin, sender, ttl, peers });
            &&& acts.len() == 1
            &&& acts[0] is Send
            &&& acts[0]->Send_to == origin
            &&& acts[0]->Send_msg is ShuffleReplay
            &&& acts[0]->Send_msg->ShuffleReplay_peers.len() <= peers.len()
            &&& forall|p: Id| #[trigger] acts[0]->Send_msg->ShuffleReplay_peers.contains(p) ==> s.passive.contains(p)
            &&& t.active == s.active
        }),
{
    crate::membership::lemma_add_all_to_passive(s, peers);
    let n = if peers.len() < s.passive.len() { peers.len() } else { s.passive.len() };
    let r = s.passive.take(n as int);
    assert forall|p: Id| #[trigger] r.contains(p) implies s.passive.contains(p) by {
        let i = choose|i: int| 0 <= i < r.len() && r[i] == p;
        assert(s.passive[i] == p);
    }
}

/// Relaying a new broadcast below the hop limit reaches every active peer but
/// the sender: each eager one gets the payload one hop further on, each lazy
/// one an `IHave` naming it; the link to the sender becomes eager.
pub proof fn law_new_broadcast_reaches_every_peer<Id, P: Clone>(
    s: NodeView<Id, P>,
    t: NodeView<Id, P>,
    origin: Id,
    seq: u64,
    sender: Id,
    hop: u32,
    payload: P,
    acts: Seq<ActionView<Id, P>>,
)
    requires
        s.wf(),
        handle_post(s, t, MessageView::Broadcast { origin, seq, sender, hop, payload }, acts),
        !s.seen.contains((origin, seq)),
        hop < s.config.max_rounds,
    ensures
        !t.lazy.contains(sender),
        (forall|p: Id|
            #![trigger s.membership.active.contains(p), s.lazy.contains(p)]
            s.membership.active.contains(p) && s.lazy.contains(p) && p != sender ==> exists|i: int|
                0 <= i < acts.len() && #[trigger] acts[i] == (ActionView::<Id, P>::Send {
                    to: p,
                    msg: MessageView::IHave { origin, seq, sender: s.config.me },
                })),
        (forall|p: Id|
            #![trigger s.membership.active.contains(p), s.lazy.contains(p)]
            s.membership.active.contains(p) && !s.lazy.contains(p) && p != sender ==> exists|i: int|
                0 <= i < acts.len() && #[trigger] acts[i] is Send && acts[i]->Send_to == p
                    && acts[i]->Send_msg is Broadcast
                    && acts[i]->Send_msg->Broadcast_origin == origin
                    && acts[i]->Send_msg->Broadcast_seq == seq
                    && acts[i]->Send_msg->Broadcast_sender == s.config.me
                    && acts[i]->Send_msg->Broadcast_hop == hop + 1
                    && cloned(payload, acts[i]->Send_msg->Broadcast_payload)),
{
    let me = s.config.me;
    let id = (origin, seq);
    lemma_without(s.lazy, sender);
    let u = NodeView { lazy: without(s.lazy, sender), seen: s.seen.push(id), ..s };
    let d = seq![ActionView::Deliver { payload }];
    let e = eager_sends(me, u.eager_peers(), Some(sender), origin, seq, hop, payload);
    let l = lazy_sends::<Id, P>(me, u.lazy_peers(), Some(sender), origin, seq);
    let exp = d + (e + l);
    let a = s.membership.active;
    let fe = |q: Id| !u.lazy.contains(q);
    let fl = |q: Id| u.lazy.contains(q);
    let fx = |q: Id| Some(sender) != Some(q);
    assert(u.eager_peers() == a.filter(fe));
    assert(u.lazy_peers() == a.filter(fl));
    assert forall|p: Id|
        #![trigger s.membership.active.contains(p), s.lazy.contains(p)]
        s.membership.active.contains(p) && s.lazy.contains(p) && p != sender implies exists|i: int|
            0 <= i < acts.len() && #[trigger] acts[i] == ActionView::<Id, P>::Send {
                to: p,
                msg: MessageView::IHave { origin, seq, sender: me },
            } by {
        let k = choose|k: int| 0 <= k < a.len() && a[k] == p;
        a.lemma_filter_contains(fl, k);
        let lp = a.filter(fl);
        let j = choose|j: int| 0 <= j < lp.len() && lp[j] == p;
        lp.lemma_filter_contains(fx, j);
        let tl = lp.filter(fx);
        let j2 = choose|j2: int| 0 <= j2 < tl.len() && tl[j2] == p;
        let idx = 1 + e.len() + j2;
        assert(l[j2] == ActionView::<Id, P>::Send { to: p, msg: MessageView::IHave { origin, seq, sender: me } });
        assert(exp[idx] == l[j2]);
        assert(action_agrees(acts[idx], exp[idx]));
    }
    assert forall|p: Id|
        #![trigger s.membership.active.contains(p), s.lazy.contains(p)]
        s.membership.active.contains(p) && !s.lazy.contains(p) && p != sender implies exists|i: int|
            0 <= i < acts.len() && #[trigger] acts[i] is Send && acts[i]->Send_to == p
                && acts[i]->Send_msg is Broadcast
                && acts[i]->Send_msg->Broadcast_origin == origin
                && acts[i]->Send_msg->Broadcast_seq == seq
                && acts[i]->Send_msg->Broadcast_sender == me
                && acts[i]->Send_msg->Broadcast_hop == hop + 1
                && cloned(payload, acts[i]->Send_msg->Broadcast_payload) by {
        let k = choose|k: int| 0 <= k < a.len() && a[k] == p;
        a.lemma_filter_contains(fe, k);
        let ep = a.filter(fe);
        let j = choose|j: int| 0 <= j < ep.len() && ep[j] == p;
        ep.lemma_filter_contains(fx, j);
        let te = ep.filter(fx);
        let j2 = choose|j2: int| 0 <= j2 < te.len() && te[j2] == p;
        let idx = 1 + j2;
        assert(exp[idx] == e[j2]);
        assert(action_agrees(acts[idx], exp[idx]));
    }
}

/// A duplicate broadcast demotes the link it came over: afterwards the sender
/// is lazy, every other peer's standing is unchanged, and so are the views.
pub proof fn law_duplicate_demotes_sender<Id, P: Clone>(
    s: NodeView<Id, P>,
    t: NodeView<Id, P>,
    origin: Id,
    seq: u64,
    sender: Id,
    hop: u32,
    payload: P,
    acts: Seq<ActionView<Id, P>>,
)
    requires
        s.wf(),
        handle_post(s, t, MessageView::Broadcast { origin, seq, sender, hop, payload }, acts),
        s.seen.contains((origin, seq)),
    ensures
        t.lazy.contains(sender),
        forall|p: Id| p != sender ==> (#[trigger] t.lazy.contains(p) <==> s.lazy.contains(p)),
        t.membership == s.membership,
        t.seen == s.seen,
{
    lemma_without(s.lazy, sender);
    crate::listset::lemma_with(without(s.lazy, sender), sender);
}

/// A relayed FORWARDJOIN leaves the active view alone and records the newcomer
/// as a backup only at the passive walk length hop; at any other hop the
/// passive view is unchanged.
pub proof fn law_forward_join_relay_records_backup_once<Id, P>(
    s: MembershipView<Id>,
    new_node: Id,
    sender: Id,
    ttl: u32,
)
    requires
        s.wf(),
        ttl > 0,
        (exists|i: int| 0 <= i < s.active.len() && s.active[i] != sender && s.active[i] != new_node),
    ensures
        ({
            let (t, acts) = s.step(MessageView::<Id, P>::ForwardJoin { new_node, sender, ttl });
            &&& t.active == s.active
            &&& ttl != s.passive_walk_length ==> t.passive == s.passive
            &&& ttl == s.passive_walk_length ==> {
                &&& forall|p: Id| #[trigger] t.passive.contains(p) ==> (s.passive.contains(p) || p == new_node)
                &&& (new_node != s.me && !s.active.contains(new_node)) ==> t.passive.contains(new_node)
            }
        }),
{
    lemma_add_to_passive(s, new_node);
}

/// At the end of a SHUFFLE walk the reply carries the oldest backups, as many
/// as were offered or as the passive view holds, whichever is fewer.
pub proof fn law_shuffle_reply_size<Id, P>(
    s: MembershipView<Id>,
    origin: Id,
    sender: Id,
    ttl: u32,
    peers: Seq<Id>,
)
    requires
        s.wf(),
        ttl == 0 || (forall|i: int| 0 <= i < s.active.len() ==> (s.active[i] == sender || s.active[i] == origin)),
    ensures
        ({
            let (t, acts) = s.step(MessageView::<Id, P>::Shuffle { origin, sender, ttl, peers });
            let reply = acts[0]->Send_msg->ShuffleReplay_peers;
            &&& acts.len() == 1
            &&& acts[0] is Send
            &&& acts[0]->Send_to == origin
            &&& acts[0]->Send_msg is ShuffleReplay
            &&& reply.len() == if peers.len() < s.passive.len() { peers.len() } else { s.passive.len() }
            &&& forall|i: int| 0 <= i < reply.len() ==> #[trigger] reply[i] == s.passive[i]
        }),
{
}

/// Dropping a peer from the active view removes exactly that peer: every
/// other active peer stays, in order, and the passive view is untouched.
pub proof fn law_drop_from_active_removes_only_peer<Id>(s: MembershipView<Id>, peer: Id)
    requires
        s.wf(),
    ensures
        forall|p: Id| #[trigger] s.drop_from_active(peer).active.contains(p) <==> (s.active.contains(p) && p != peer),
        s.drop_from_active(peer).active.len() == if s.active.contains(peer) {
            s.active.len() - 1
        } else {
            s.active.len() as int
        },
        s.drop_from_active(peer).passive == s.passive,
{
    lemma_without(s.active, peer);
}

/// A DISCONNECT removes exactly the sender from the active view, keeping every
/// other active peer, and keeps the sender as a backup.
pub proof fn law_disconnect_removes_only_sender<Id, P>(s: MembershipView<Id>, peer: Id)
    requires
        s.wf(),
    ensures
        ({
            let (t, acts) = s.step(MessageView::<Id, P>::Disconnect { sender: peer });
            &&& forall|p: Id| #[trigger] t.active.contains(p) <==> (s.active.contains(p) && p != peer)
            &&& peer != s.me ==> t.passive.contains(peer)
            &&& acts == seq![ActionView::<Id, P>::Disconnect { peer }]
        }),
{
    lemma_without(s.active, peer);
    lemma_drop_from_active(s, peer);
    lemma_add_to_passive(s.drop_from_active(peer), peer);
}

/// An eager push (`forward`) sends the payload, one hop further on, to each
/// given peer except the excluded one, once each and to no one else.
pub proof fn law_forward_sends_to_all_but_excluded<Id, P: Clone>(
    acts: Seq<ActionView<Id, P>>,
    me: Id,
    peers: Seq<Id>,
    exclude: Option<Id>,
    origin: Id,
    seq: u64,
    hop: u32,
    payload: P,
)
    requires
        actions_agree(acts, eager_sends(me, peers, exclude, origin, seq, hop, payload)),
        hop < u32::MAX,
    ensures
        forall|i: int|
            0 <= i < acts.len() ==> {
                &&& #[trigger] acts[i] is Send
                &&& peers.contains(acts[i]->Send_to)
                &&& exclude != Some(acts[i]->Send_to)
                &&& acts[i]->Send_msg is Broadcast
                &&& acts[i]->Send_msg->Broadcast_origin == origin
                &&& acts[i]->Send_msg->Broadcast_seq == seq
                &&& acts[i]->Send_msg->Broadcast_sender == me
                &&& acts[i]->Send_msg->Broadcast_hop == hop + 1
                &&& cloned(payload, acts[i]->Send_msg->Broadcast_payload)
            },
        forall|p: Id|
            #[trigger] peers.contains(p) && exclude != Some(p) ==> exists|i: int|
                0 <= i < acts.len() && #[trigger] acts[i] is Send && acts[i]->Send_to == p,
        forall|i: int, j: int|
            0 <= i < j < acts.len() && peers.no_duplicates() ==> #[trigger] acts[i]->Send_to
                != #[trigger] acts[j]->Send_to,
        (exclude matches Some(x) && peers.no_duplicates()) ==> acts.len() == peers.len() - if peers.contains(
            exclude->0,
        ) {
            1int
        } else {
            0int
        },
        exclude is None ==> acts.len() == peers.len(),
{
    let e = eager_sends(me, peers, exclude, origin, seq, hop, payload);
    let tt = targets(peers, exclude);
    lemma_targets_contains(peers, exclude);
    assert forall|i: int| 0 <= i < acts.len() implies {
        &&& #[trigger] acts[i] is Send
        &&& peers.contains(acts[i]->Send_to)
        &&& exclude != Some(acts[i]->Send_to)
        &&& acts[i]->Send_msg is Broadcast
        &&& acts[i]->Send_msg->Broadcast_origin == origin
        &&& acts[i]->Send_msg->Broadcast_seq == seq
        &&& acts[i]->Send_msg->Broadcast_sender == me
        &&& acts[i]->Send_msg->Broadcast_hop == hop + 1
        &&& cloned(payload, acts[i]->Send_msg->Broadcast_payload)
    } by {
        assert(action_agrees(acts[i], e[i]));
        assert(tt.contains(tt[i]));
    }
    assert forall|p: Id| #[trigger] peers.contains(p) && exclude != Some(p) implies exists|i: int|
        0 <= i < acts.len() && #[trigger] acts[i] is Send && acts[i]->Send_to == p by {
        assert(tt.contains(p));
        let j = choose|j: int| 0 <= j < tt.len() && tt[j] == p;
        assert(action_agrees(acts[j], e[j]));
    }
    if peers.no_duplicates() {
        crate::listset::lemma_filter_no_dups(peers, |q: Id| exclude != Some(q));
        assert forall|i: int, j: int| 0 <= i < j < acts.len() implies #[trigger] acts[i]->Send_to
            != #[trigger] acts[j]->Send_to by {
            assert(action_agrees(acts[i], e[i]));
            assert(action_agrees(acts[j], e[j]));
        }
        if exclude is Some {
            lemma_targets_len(peers, exclude->0);
        }
    }
    if exclude is None {
        assert(tt =~= peers) by {
            reveal_with_fuel(Seq::filter, 1);
            lemma_filter_all(peers, |q: Id| exclude != Some(q));
        }
    }
}

proof fn lemma_filter_all<A>(a: Seq<A>, f: spec_fn(A) -> bool)
    requires
        forall|q: A| #[trigger] f(q),
    ensures
        a.filter(f) == a,
    decreases a.len(),
{
    reveal(Seq::filter);
    if a.len() > 0 {
        lemma_filter_all(a.drop_last(), f);
        assert(a.drop_last().push(a.last()) =~= a);
    }
}

/// A lazy push announces the broadcast with an `IHave` to each given peer
/// except the excluded one, and sends nothing else.
pub proof fn law_lazy_push_announces_to_all_but_excluded<Id, P>(
    acts: Seq<ActionView<Id, P>>,
    me: Id,
    peers: Seq<Id>,
    exclude: Option<Id>,
    origin: Id,
    seq: u64,
)
    requires
        acts == lazy_sends::<Id, P>(me, peers, exclude, origin, seq),
    ensures
        forall|i: int|
            0 <= i < acts.len() ==> #[trigger] acts[i] == (ActionView::<Id, P>::Send {
                to: acts[i]->Send_to,
                msg: MessageView::IHave { origin, seq, sender: me },
            }) && peers.contains(acts[i]->Send_to) && exclude != Some(acts[i]->Send_to),
        forall|p: Id|
            #[trigger] peers.contains(p) && exclude != Some(p) ==> exists|i: int|
                0 <= i < acts.len() && #[trigger] acts[i] == (ActionView::<Id, P>::Send {
                    to: p,
                    msg: MessageView::IHave { origin, seq, sender: me },
                }),
        (exclude matches Some(x) && peers.no_duplicates()) ==> acts.len() == peers.len() - if peers.contains(
            exclude->0,
        ) {
            1int
        } else {
            0int
        },
{
    let tt = targets(peers, exclude);
    lemma_targets_contains(peers, exclude);
    assert forall|i: int| 0 <= i < acts.len() implies #[trigger] acts[i] == (ActionView::<Id, P>::Send {
        to: acts[i]->Send_to,
        msg: MessageView::IHave { origin, seq, sender: me },
    }) && peers.contains(acts[i]->Send_to) && exclude != Some(acts[i]->Send_to) by {
        assert(tt.contains(tt[i]));
    }
    assert forall|p: Id| #[trigger] peers.contains(p) && exclude != Some(p) implies exists|i: int|
        0 <= i < acts.len() && #[trigger] acts[i] == (ActionView::<Id, P>::Send {
            to: p,
            msg: MessageView::IHave { origin, seq, sender: me },
        }) by {
        assert(tt.contains(p));
        let j = choose|j: int| 0 <= j < tt.len() && tt[j] == p;
        assert(acts[j] == (ActionView::<Id, P>::Send { to: p, msg: MessageView::IHave { origin, seq, sender: me } }));
    }
    if peers.no_duplicates() && exclude is Some {
        lemma_targets_len(peers, exclude->0);
    }
}

/// Relaying a new broadcast below the hop limit produces exactly one delivery
/// followed by one push per active peer other than the sender, and nothing
/// goes to anyone outside the active view.
pub proof fn law_new_broadcast_action_count<Id, P: Clone>(
    s: NodeView<Id, P>,
    t: NodeView<Id, P>,
    origin: Id,
    seq: u64,
    sender: Id,
    hop: u32,
    payload: P,
    acts: Seq<ActionView<Id, P>>,
)
    requires
        s.wf(),
        handle_post(s, t, MessageView::Broadcast { origin, seq, sender, hop, payload }, acts),
        !s.seen.contains((origin, seq)),
        hop < s.config.max_rounds,
    ensures
        acts.len() == 1 + s.membership.active.len() - if s.membership.active.contains(sender) {
            1int
        } else {
            0int
        },
        acts[0] is Deliver,
        cloned(payload, acts[0]->Deliver_payload),
        forall|i: int|
            1 <= i < acts.len() ==> {
                &&& #[trigger] acts[i] is Send
                &&& s.membership.active.contains(acts[i]->Send_to)
                &&& acts[i]->Send_to != sender
                &&& (acts[i]->Send_msg is Broadcast || acts[i]->Send_msg is IHave)
            },
{
    let me = s.config.me;
    let id = (origin, seq);
    lemma_without(s.lazy, sender);
    let u = NodeView { lazy: without(s.lazy, sender), seen: s.seen.push(id), ..s };
    let d = seq![ActionView::Deliver { payload }];
    let e = eager_sends(me, u.eager_peers(), Some(sender), origin, seq, hop, payload);
    let l = lazy_sends::<Id, P>(me, u.lazy_peers(), Some(sender), origin, seq);
    let exp = d + (e + l);
    let a = s.membership.active;
    let fe = |q: Id| !u.lazy.contains(q);
    let fl = |q: Id| u.lazy.contains(q);
    let fx = |q: Id| Some(sender) != Some(q);
    assert(u.eager_peers() == a.filter(fe));
    assert(u.lazy_peers() == a.filter(fl));
    lemma_filter_split_len(a, fe, fl, fx);
    lemma_targets_len(a, sender);
    lemma_targets_contains(a.filter(fe), Some(sender));
    lemma_targets_contains(a.filter(fl), Some(sender));
    assert(action_agrees(acts[0], exp[0]));
    assert forall|i: int| 1 <= i < acts.len() implies {
        &&& #[trigger] acts[i] is Send
        &&& s.membership.active.contains(acts[i]->Send_to)
        &&& acts[i]->Send_to != sender
        &&& (acts[i]->Send_msg is Broadcast || acts[i]->Send_msg is IHave)
    } by {
        assert(action_agrees(acts[i], exp[i]));
        if i - 1 < e.len() {
            let te = targets(a.filter(fe), Some(sender));
            assert(exp[i] == e[i - 1]);
            assert(te.contains(te[i - 1]));
            a.lemma_filter_contains_rev(fe, te[i - 1]);
        } else {
            let tl = targets(a.filter(fl), Some(sender));
            let j = i - 1 - e.len();
            assert(exp[i] == l[j]);
            assert(tl.contains(tl[j]));
            a.lemma_filter_contains_rev(fl, tl[j]);
        }
    }
}

/// Starting a broadcast pushes it to every active peer, once each: the
/// payload (at hop 1) to eager peers, an `IHave` to lazy ones, and nothing else.
pub proof fn law_broadcast_reaches_every_peer<Id, P: Clone>(
    s: NodeView<Id, P>,
    t: NodeView<Id, P>,
    payload: P,
    acts: Seq<ActionView<Id, P>>,
)
    requires
        s.wf(),
        broadcast_post(s, t, payload, acts),
    ensures
        acts.len() == s.membership.active.len(),
        forall|p: Id|
            #![trigger s.membership.active.contains(p), s.lazy.contains(p)]
            s.membership.active.contains(p) && s.lazy.contains(p) ==> exists|i: int|
                0 <= i < acts.len() && #[trigger] acts[i] == (ActionView::<Id, P>::Send {
                    to: p,
                    msg: MessageView::IHave { origin: s.config.me, seq: s.next_seq, sender: s.config.me },
                }),
        forall|p: Id|
            #![trigger s.membership.active.contains(p), s.lazy.contains(p)]
            s.membership.active.contains(p) && !s.lazy.contains(p) ==> exists|i: int|
                0 <= i < acts.len() && #[trigger] acts[i] is Send && acts[i]->Send_to == p
                    && acts[i]->Send_msg is Broadcast && acts[i]->Send_msg->Broadcast_hop == 1
                    && acts[i]->Send_msg->Broadcast_origin == s.config.me
                    && acts[i]->Send_msg->Broadcast_seq == s.next_seq
                    && cloned(payload, acts[i]->Send_msg->Broadcast_payload),
        forall|i: int|
            0 <= i < acts.len() ==> #[trigger] acts[i] is Send && s.membership.active.contains(
                acts[i]->Send_to,
            ),
{
    let me = s.config.me;
    let q = s.next_seq;
    let e = eager_sends(me, s.eager_peers(), None, me, q, 0, payload);
    let l = lazy_sends::<Id, P>(me, s.lazy_peers(), None, me, q);
    let exp = e + l;
    let a = s.membership.active;
    let fe = |x: Id| !s.lazy.contains(x);
    let fl = |x: Id| s.lazy.contains(x);
    let fx = |x: Id| None::<Id> != Some(x);
    assert(s.eager_peers() == a.filter(fe));
    assert(s.lazy_peers() == a.filter(fl));
    lemma_filter_split_len(a, fe, fl, fx);
    lemma_filter_all(a, fx);
    lemma_filter_all(a.filter(fe), fx);
    lemma_filter_all(a.filter(fl), fx);
    assert forall|p: Id|
        #![trigger s.membership.active.contains(p), s.lazy.contains(p)]
        s.membership.active.contains(p) && s.lazy.contains(p) implies exists|i: int|
            0 <= i < acts.len() && #[trigger] acts[i] == (ActionView::<Id, P>::Send {
                to: p,
                msg: MessageView::IHave { origin: me, seq: q, sender: me },
            }) by {
        let k = choose|k: int| 0 <= k < a.len() && a[k] == p;
        a.lemma_filter_contains(fl, k);
        let tl = a.filter(fl);
        let j = choose|j: int| 0 <= j < tl.len() && tl[j] == p;
        let idx = e.len() + j;
        assert(exp[idx] == l[j]);
        assert(action_agrees(acts[idx], exp[idx]));
    }
    assert forall|p: Id|
        #![trigger s.membership.active.contains(p), s.lazy.contains(p)]
        s.membership.active.contains(p) && !s.lazy.contains(p) implies exists|i: int|
            0 <= i < acts.len() && #[trigger] acts[i] is Send && acts[i]->Send_to == p
                && acts[i]->Send_msg is Broadcast && acts[i]->Send_msg->Broadcast_hop == 1
                && acts[i]->Send_msg->Broadcast_origin == me
                && acts[i]->Send_msg->Broadcast_seq == q
                && cloned(payload, acts[i]->Send_msg->Broadcast_payload) by {
        let k = choose|k: int| 0 <= k < a.len() && a[k] == p;
        a.lemma_filter_contains(fe, k);
        let te = a.filter(fe);
        let j = choose|j: int| 0 <= j < te.len() && te[j] == p;
        assert(exp[j] == e[j]);
        assert(action_agrees(acts[j], exp[j]));
    }
    assert forall|i: int| 0 <= i < acts.len() implies #[trigger] acts[i] is Send && s.membership.active.contains(
        acts[i]->Send_to,
    ) by {
        assert(action_agrees(acts[i], exp[i]));
        if i < e.len() {
            let te = a.filter(fe);
            assert(te.contains(te[i]));
            a.lemma_filter_contains_rev(fe, te[i]);
        } else {
            let tl = a.filter(fl);
            let j = i - e.len();
            assert(exp[i] == l[j]);
            assert(tl.contains(tl[j]));
            a.lemma_filter_contains_rev(fl, tl[j]);
        }
    }
}

/// An `IHave` for a broadcast already seen changes nothing and sends nothing;
/// for a missing one it grafts the announcer: a single GRAFT goes back to it and
/// its link becomes eager, every other peer keeping its standing.
pub proof fn law_ihave_grafts_only_missing<Id, P: Clone>(
    s: NodeView<Id, P>,
    t: NodeView<Id, P>,
    origin: Id,
    seq: u64,
    sender: Id,
    acts: Seq<ActionView<Id, P>>,
)
    requires
        s.wf(),
        handle_post(s, t, MessageView::IHave { origin, seq, sender }, acts),
    ensures
        s.seen.contains((origin, seq)) ==> t == s && acts.len() == 0,
        !s.seen.contains((origin, seq)) ==> {
            &&& acts.len() == 1
            &&& acts[0] == (ActionView::<Id, P>::Send {
                to: sender,
                msg: MessageView::Graft { origin, seq, sender: s.config.me },
            })
            &&& !t.lazy.contains(sender)
            &&& forall|p: Id| p != sender ==> (#[trigger] t.lazy.contains(p) <==> s.lazy.contains(p))
            &&& t.seen == s.seen && t.cache == s.cache && t.membership == s.membership
        },
{
    lemma_without(s.lazy, sender);
}

/// A GRAFT makes the asker's link eager and is answered, at hop 0, with the
/// cached payload of the broadcast it names exactly when that payload is
/// cached; otherwise nothing is sent.
pub proof fn law_graft_answers_from_cache<Id, P: Clone>(
    s: NodeView<Id, P>,
    t: NodeView<Id, P>,
    origin: Id,
    seq: u64,
    sender: Id,
    acts: Seq<ActionView<Id, P>>,
)
    requires
        s.wf(),
        handle_post(s, t, MessageView::Graft { origin, seq, sender }, acts),
    ensures
        !t.lazy.contains(sender),
        forall|p: Id| p != sender ==> (#[trigger] t.lazy.contains(p) <==> s.lazy.contains(p)),
        t.seen == s.seen && t.cache == s.cache && t.membership == s.membership,
        !s.seen.contains((origin, seq)) ==> acts.len() == 0,
        s.seen.contains((origin, seq)) ==> {
            &&& acts.len() == 1
            &&& acts[0] is Send
            &&& acts[0]->Send_to == sender
            &&& acts[0]->Send_msg is Broadcast
            &&& acts[0]->Send_msg->Broadcast_origin == origin
            &&& acts[0]->Send_msg->Broadcast_seq == seq
            &&& acts[0]->Send_msg->Broadcast_sender == s.config.me
            &&& acts[0]->Send_msg->Broadcast_hop == 0
            &&& exists|i: int|
                0 <= i < s.cache.len() && s.cache[i].0 == (origin, seq) && cloned(
                    #[trigger] s.cache[i].1,
                    acts[0]->Send_msg->Broadcast_payload,
                )
        },
{
    lemma_without(s.lazy, sender);
    let id = (origin, seq);
    assert(s.seen.contains(id) <==> crate::listset::has_key(s.cache, id));
    if s.seen.contains(id) {
        let i = crate::listset::key_index(s.cache, id);
        let exp = seq![
            ActionView::<Id, P>::Send {
                to: sender,
                msg: MessageView::Broadcast { origin, seq, sender: s.config.me, hop: 0, payload: s.cache[i].1 },
            },
        ];
        assert(action_agrees(acts[0], exp[0]));
    }
}

/// A PRUNE demotes exactly the pruning peer's link to lazy and sends nothing.
pub proof fn law_prune_demotes_sender<Id, P: Clone>(
    s: NodeView<Id, P>,
    t: NodeView<Id, P>,
    sender: Id,
    acts: Seq<ActionView<Id, P>>,
)
    requires
        s.wf(),
        handle_post(s, t, MessageView::Prune { sender }, acts),
    ensures
        t.lazy.contains(sender),
        forall|p: Id| p != sender ==> (#[trigger] t.lazy.contains(p) <==> s.lazy.contains(p)),
        t.seen == s.seen && t.cache == s.cache && t.membership == s.membership,
        acts.len() == 0,
{
    crate::listset::lemma_with(s.lazy, sender);
}

/// Promoting a peer into the active view: a new peer (not ourselves) always
/// joins; every other active peer stays, except that a full view gives up its
/// oldest peer, which is returned and kept as a backup; nothing is evicted
/// when there was room.
pub proof fn law_add_to_active_evicts_oldest<Id>(s: MembershipView<Id>, peer: Id)
    requires
        s.wf(),
    ensures
        ({
            let (t, evicted) = s.add_to_active(peer);
            &&& (peer == s.me || s.active.contains(peer)) ==> t == s && evicted is None
            &&& (peer != s.me && !s.active.contains(peer)) ==> {
                &&& t.active.contains(peer)
                &&& !t.passive.contains(peer)
                &&& (evicted is Some <==> s.is_full())
                &&& s.is_full() ==> evicted == Some(s.active[0]) && t.passive.contains(s.active[0])
                &&& t.active.len() == if s.is_full() { s.active.len() } else { s.active.len() + 1 }
                &&& forall|p: Id|
                    #[trigger] t.active.contains(p) <==> (p == peer || (s.active.contains(p) && evicted != Some(p)))
            }
        }),
{
    lemma_add_to_active(s, peer);
    if peer != s.me && !s.active.contains(peer) {
        let s1 = MembershipView { passive: without(s.passive, peer), ..s };
        let (t, evicted) = s.add_to_active(peer);
        if s.is_full() {
            assert(s.active.len() > 0);
            crate::membership::lemma_drop_first(s.active);
            let s2 = MembershipView { active: s1.active.drop_first(), ..s1 };
            let s3 = s2.add_to_passive(s.active[0]);
            assert(s3.active == s2.active);
            assert forall|p: Id| #[trigger] t.active.contains(p) <==> (p == peer || (s.active.contains(p) && evicted != Some(p))) by {
                if t.active.contains(p) {
                    let i = choose|i: int| 0 <= i < t.active.len() && t.active[i] == p;
                    if i < s2.active.len() {
                        assert(s2.active.contains(p));
                    }
                }
                if s2.active.contains(p) {
                    let i = choose|i: int| 0 <= i < s2.active.len() && s2.active[i] == p;
                    assert(t.active[i] == p);
                }
                if p == peer {
                    assert(t.active[t.active.len() - 1] == p);
                }
            }
        } else {
            assert forall|p: Id| #[trigger] t.active.contains(p) <==> (p == peer || (s.active.contains(p) && evicted != Some(p))) by {
                if t.active.contains(p) {
                    let i = choose|i: int| 0 <= i < t.active.len() && t.active[i] == p;
                    if i < s.active.len() {
                        assert(s.active[i] == p);
                    }
                }
                if s.active.contains(p) {
                    let i = choose|i: int| 0 <= i < s.active.len() && s.active[i] == p;
                    assert(t.active[i] == p);
                }
                if p == peer {
                    assert(t.active[t.active.len() - 1] == p);
                }
            }
        }
    }
}

/// A JOIN connects to the newcomer and, when that bumped the oldest active
/// peer, tells that peer and drops its link; nothing else is sent.
pub proof fn law_join_actions<Id, P>(s: MembershipView<Id>, peer: Id)
    requires
        s.wf(),
    ensures
        ({
            let (t, acts) = s.step(MessageView::<Id, P>::Join { new_node: peer });
            if peer != s.me && !s.active.contains(peer) && s.is_full() {
                acts == seq![
                    ActionView::<Id, P>::Connect { peer },
                    ActionView::Send { to: s.active[0], msg: MessageView::Disconnect { sender: s.me } },
                    ActionView::Disconnect { peer: s.active[0] },
                ]
            } else {
                acts == seq![ActionView::<Id, P>::Connect { peer }]
            }
        }),
{
    law_add_to_active_evicts_oldest(s, peer);
}

/// A NEIGHBORREPLY that accepts takes the replier into the active view; one
/// that declines changes nothing and sends nothing.
pub proof fn law_neighbor_reply<Id, P>(s: MembershipView<Id>, peer: Id, accepted: bool)
    requires
        s.wf(),
    ensures
        ({
            let (t, acts) = s.step(MessageView::<Id, P>::NeighborReply { sender: peer, accepted });
            &&& !accepted ==> t == s && acts.len() == 0
            &&& (accepted && peer != s.me) ==> t.active.contains(peer) && acts[0] == (ActionView::<
                Id,
                P,
            >::Connect { peer })
        }),
{
    lemma_add_to_active(s, peer);
}

/// A SHUFFLE whose walk goes on is passed, one hop shorter and otherwise
/// unchanged, to an active peer that is neither its sender nor its origin, and
/// leaves the views alone.
pub proof fn law_shuffle_walks_on<Id, P>(
    s: MembershipView<Id>,
    origin: Id,
    sender: Id,
    ttl: u32,
    peers: Seq<Id>,
)
    requires
        s.wf(),
        ttl > 0,
        (exists|i: int| 0 <= i < s.active.len() && s.active[i] != sender && s.active[i] != origin),
    ensures
        ({
            let (t, acts) = s.step(MessageView::<Id, P>::Shuffle { origin, sender, ttl, peers });
            &&& t == s
            &&& acts.len() == 1
            &&& acts[0] is Send
            &&& s.active.contains(acts[0]->Send_to)
            &&& acts[0]->Send_to != sender
            &&& acts[0]->Send_to != origin
            &&& acts[0]->Send_msg == (MessageView::<Id, P>::Shuffle {
                origin,
                sender: s.me,
                ttl: (ttl - 1) as u32,
                peers,
            })
        }),
{
    let a = s.active;
    let w = choose|i: int| 0 <= i < a.len() && a[i] != sender && a[i] != origin;
    lemma_first_relay(a, sender, origin, w);
    let k = choose|k: int|
        0 <= k < a.len() && a[k] != sender && a[k] != origin && forall|j: int|
            0 <= j < k ==> (a[j] == sender || a[j] == origin);
    assert(a.contains(a[k]));
}

/// Backups received in a SHUFFLEREPLY leave the active view alone; afterwards
/// every backup was a backup before or was received, and the last received
/// peer, unless it is ourselves or active, is a backup.
pub proof fn law_shuffle_replay_records_backups<Id, P>(s: MembershipView<Id>, peers: Seq<Id>)
    requires
        s.wf(),
    ensures
        ({
            let (t, acts) = s.step(MessageView::<Id, P>::ShuffleReplay { peers });
            &&& acts.len() == 0
            &&& t.active == s.active
            &&& forall|p: Id| #[trigger] t.passive.contains(p) ==> (s.passive.contains(p) || peers.contains(p))
            &&& (peers.len() > 0 && peers.last() != s.me && !s.active.contains(peers.last())) ==> t.passive.contains(
                peers.last(),
            )
        }),
{
    lemma_add_all_from(s, peers);
    crate::membership::lemma_add_all_to_passive(s, peers);
    if peers.len() > 0 {
        crate::membership::lemma_add_all_to_passive(s, peers.drop_last());
        lemma_add_to_passive(s.add_all_to_passive(peers.drop_last()), peers.last());
    }
}

proof fn lemma_add_all_from<Id>(s: MembershipView<Id>, peers: Seq<Id>)
    requires
        s.wf(),
    ensures
        forall|p: Id| #[trigger] s.add_all_to_passive(peers).passive.contains(p) ==> (s.passive.contains(p) || peers.contains(p)),
    decreases peers.len(),
{
    if peers.len() > 0 {
        let r = peers.drop_last();
        lemma_add_all_from(s, r);
        crate::membership::lemma_add_all_to_passive(s, r);
        lemma_add_to_passive(s.add_all_to_passive(r), peers.last());
        assert forall|p: Id| #[trigger] s.add_all_to_passive(peers).passive.contains(p) implies (s.passive.contains(p)
            || peers.contains(p)) by {
            if r.contains(p) {
                let i = choose|i: int| 0 <= i < r.len() && r[i] == p;
                assert(peers[i] == p);
            }
            if p == peers.last() {
                assert(peers[peers.len() - 1] == p);
            }
        }
    }
}

/// Recording a backup: a peer we do not know (and that is not ourselves)
/// becomes a backup; while there is room every backup stays, and when the
/// passive view is full exactly its oldest backup makes way. Known peers and
/// ourselves change nothing.
pub proof fn law_add_to_passive_evicts_oldest<Id>(s: MembershipView<Id>, peer: Id)
    requires
        s.wf(),
    ensures
        ({
            let t = s.add_to_passive(peer);
            &&& t.active == s.active
            &&& (peer == s.me || s.knows(peer)) ==> t == s
            &&& (peer != s.me && !s.knows(peer)) ==> {
                &&& t.passive.contains(peer)
                &&& (s.passive.len() < s.passive_capacity || s.passive.len() == 0) ==> {
                    &&& t.passive.len() == s.passive.len() + 1
                    &&& forall|p: Id| #[trigger] t.passive.contains(p) <==> (s.passive.contains(p) || p == peer)
                }
                &&& (s.passive.len() >= s.passive_capacity && s.passive.len() > 0) ==> {
                    &&& t.passive.len() == s.passive.len()
                    &&& forall|p: Id|
                        #[trigger] t.passive.contains(p) <==> ((s.passive.contains(p) && p != s.passive[0]) || p == peer)
                }
            }
        }),
{
    lemma_add_to_passive(s, peer);
    let t = s.add_to_passive(peer);
    if peer != s.me && !s.knows(peer) {
        if s.passive.len() >= s.passive_capacity && s.passive.len() > 0 {
            crate::membership::lemma_drop_first(s.passive);
            let d = s.passive.drop_first();
            assert forall|p: Id| #[trigger] t.passive.contains(p) <==> ((s.passive.contains(p) && p != s.passive[0]) || p == peer) by {
                if t.passive.contains(p) {
                    let i = choose|i: int| 0 <= i < t.passive.len() && t.passive[i] == p;
                    if i < d.len() {
                        assert(d[i] == p);
                    }
                }
                if d.contains(p) {
                    let i = choose|i: int| 0 <= i < d.len() && d[i] == p;
                    assert(t.passive[i] == p);
                }
                if p == peer {
                    assert(t.passive[d.len() as int] == p);
                }
            }
        } else {
            assert forall|p: Id| #[trigger] t.passive.contains(p) <==> (s.passive.contains(p) || p == peer) by {
                if t.passive.contains(p) {
                    let i = choose|i: int| 0 <= i < t.passive.len() && t.passive[i] == p;
                    if i < s.passive.len() {
                        assert(s.passive[i] == p);
                    }
                }
                if s.passive.contains(p) {
                    let i = choose|i: int| 0 <= i < s.passive.len() && s.passive[i] == p;
                    assert(t.passive[i] == p);
                }
                if p == peer {
                    assert(t.passive[s.passive.len() as int] == p);
                }
            }
        }
    }
}

/// A new broadcast that arrives at or beyond the hop limit is delivered once
/// and pushed nowhere.
pub proof fn law_hop_limit_delivers_only<Id, P: Clone>(
    s: NodeView<Id, P>,
    t: NodeView<Id, P>,
    origin: Id,
    seq: u64,
    sender: Id,
    hop: u32,
    payload: P,
    acts: Seq<ActionView<Id, P>>,
)
    requires
        handle_post(s, t, MessageView::Broadcast { origin, seq, sender, hop, payload }, acts),
        !s.seen.contains((origin, seq)),
        hop >= s.config.max_rounds,
    ensures
        acts.len() == 1,
        acts[0] is Deliver,
        cloned(payload, acts[0]->Deliver_payload),
        t.seen.contains((origin, seq)),
{
    let d = seq![ActionView::<Id, P>::Deliver { payload }];
    assert(d + Seq::<ActionView<Id, P>>::empty() =~= d);
    assert(action_agrees(acts[0], d[0]));
    assert(t.seen[s.seen.len() as int] == (origin, seq));
}

/// What a GRAFT reads back is what a broadcast stored: after a node starts a
/// broadcast, a GRAFT for it is answered with a copy of its payload.
pub proof fn law_graft_returns_broadcast_payload<Id, P: Clone>(
    s: NodeView<Id, P>,
    t: NodeView<Id, P>,
    u: NodeView<Id, P>,
    payload: P,
    asker: Id,
    a1: Seq<ActionView<Id, P>>,
    a2: Seq<ActionView<Id, P>>,
)
    requires
        s.wf(),
        broadcast_post(s, t, payload, a1),
        handle_post(t, u, MessageView::Graft { origin: s.config.me, seq: s.next_seq, sender: asker }, a2),
    ensures
        a2.len() == 1,
        a2[0] is Send,
        a2[0]->Send_to == asker,
        a2[0]->Send_msg is Broadcast,
        a2[0]->Send_msg->Broadcast_origin == s.config.me,
        a2[0]->Send_msg->Broadcast_seq == s.next_seq,
        a2[0]->Send_msg->Broadcast_hop == 0,
        exists|stored: P|
            cloned(payload, stored) && cloned(stored, #[trigger] a2[0]->Send_msg->Broadcast_payload),
{
    let id = (s.config.me, s.next_seq);
    let stored = lookup(t.cache, id)->0;
    lemma_put(s.cache, id, stored);
    assert(lookup(t.cache, id) == Some(stored));
    assert(action_agrees(
        a2[0],
        ActionView::<Id, P>::Send {
            to: asker,
            msg: MessageView::Broadcast { origin: id.0, seq: id.1, sender: t.config.me, hop: 0, payload: stored },
        },
    ));
}

} // verus!
