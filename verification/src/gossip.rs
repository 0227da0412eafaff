//! The whole node: configuration, HyParView membership and Plumtree broadcast
//! state, tied together.
use vstd::prelude::*;
use crate::{NodeId, Payload};
use crate::action::{Action, ActionView, views, actions_agree, action_agrees, lemma_agree_add, lemma_views_add};
use crate::broadcast::{eager_sends, lazy_sends, forward, lazy_push};
use crate::config::Config;
use crate::listset::{
    BroadcastId, has_key, lookup, put, unique_keys, with, without, contains_broadcast, find_key,
    contains_id, insert_id, put_entry, remove_id, lemma_put, lemma_with,
};
use crate::membership::{Membership, MembershipView, single, lemma_step_wf, lemma_without};
use crate::message::{Message, MessageId, MessageView};

verus! {

/// The mathematical state of a node.
pub struct NodeView<Id, P> {
    pub config: Config<Id>,
    pub membership: MembershipView<Id>,
    /// Broadcasts already seen, in the order they were first seen.
    pub seen: Seq<BroadcastId<Id>>,
    /// The sequence number the next broadcast started here will carry.
    pub next_seq: MessageId,
    /// Peers demoted to lazy push (Plumtree PRUNE); the eager peers are the
    /// other active peers.
    pub lazy: Seq<Id>,
    /// Payloads kept to answer a GRAFT, by broadcast id.
    pub cache: Seq<(BroadcastId<Id>, P)>,
}

impl<Id, P> NodeView<Id, P> {
    /// The node's standing invariants.
    pub open spec fn wf(self) -> bool {
        &&& self.membership.wf()
        &&& self.membership.me == self.config.me
        &&& self.membership.active_capacity == self.config.fanout + 1
        &&& self.membership.passive_capacity == self.config.passive_capacity
        &&& self.membership.active_walk_length == self.config.active_walk_length
        &&& self.membership.passive_walk_length == self.config.passive_walk_length
        &&& self.seen.no_duplicates()
        &&& self.lazy.no_duplicates()
        &&& unique_keys(self.cache)
        &&& forall|id: BroadcastId<Id>| #[trigger] self.seen.contains(id) <==> has_key(self.cache, id)
    }

    /// The state of a node that has just been built from `config`.
    pub open spec fn initial(config: Config<Id>) -> Self {
        NodeView {
            config,
            membership: MembershipView::empty(
                config.me,
                (config.fanout + 1) as nat,
                config.passive_capacity as nat,
                config.active_walk_length,
                config.passive_walk_length,
            ),
            seen: Seq::empty(),
            next_seq: 0,
            lazy: Seq::empty(),
            cache: Seq::empty(),
        }
    }

    /// Active peers that get payloads pushed eagerly, in active-view order.
    pub open spec fn eager_peers(self) -> Seq<Id> {
        self.membership.active.filter(|p: Id| !self.lazy.contains(p))
    }

    /// Active peers that only get `IHave` announcements, in active-view order.
    pub open spec fn lazy_peers(self) -> Seq<Id> {
        self.membership.active.filter(|p: Id| self.lazy.contains(p))
    }
}

/// What handling `m` does to a node in state `s`, leaving it in state `t` with
/// the actions `acts`. Payloads in the cache and in the actions are clones of
/// the incoming one.
pub open spec fn handle_post<Id, P: Clone>(
    s: NodeView<Id, P>,
    t: NodeView<Id, P>,
    m: MessageView<Id, P>,
    acts: Seq<ActionView<Id, P>>,
) -> bool {
    let me = s.config.me;
    match m {
        MessageView::Broadcast { origin, seq, sender, hop, payload } => {
            let id = (origin, seq);
            if s.seen.contains(id) {
                // A duplicate: the eager link from `sender` is redundant, so
                // demote it to lazy and tell the sender to do the same.
                &&& t == NodeView { lazy: with(without(s.lazy, sender), sender), ..s }
                &&& acts == seq![
                    ActionView::<Id, P>::Send { to: sender, msg: MessageView::Prune { sender: me } },
                ]
            } else {
                // New: remember it, deliver it and, below the hop limit, push it on.
                let u = NodeView { lazy: without(s.lazy, sender), seen: s.seen.push(id), ..s };
                let stored = lookup(t.cache, id)->0;
                &&& lookup(t.cache, id) is Some
                &&& cloned(payload, stored)
                &&& t == NodeView { cache: put(s.cache, id, stored), ..u }
                &&& actions_agree(
                    acts,
                    seq![ActionView::Deliver { payload }] + if hop >= s.config.max_rounds {
                        Seq::empty()
                    } else {
                        eager_sends(me, u.eager_peers(), Some(sender), origin, seq, hop, payload)
                            + lazy_sends(me, u.lazy_peers(), Some(sender), origin, seq)
                    },
                )
            }
        },
        MessageView::IHave { origin, seq, sender } => {
            if s.seen.contains((origin, seq)) {
                &&& t == s
                &&& acts == Seq::<ActionView<Id, P>>::empty()
            } else {
                &&& t == NodeView { lazy: without(s.lazy, sender), ..s }
                &&& acts == seq![
                    ActionView::<Id, P>::Send {
                        to: sender,
                        msg: MessageView::Graft { origin, seq, sender: me },
                    },
                ]
            }
        },
        MessageView::Graft { origin, seq, sender } => {
            &&& t == NodeView { lazy: without(s.lazy, sender), ..s }
            &&& actions_agree(
                acts,
                match lookup(s.cache, (origin, seq)) {
                    Some(p) => seq![
                        ActionView::Send {
                            to: sender,
                            msg: MessageView::Broadcast { origin, seq, sender: me, hop: 0, payload: p },
                        },
                    ],
                    None => Seq::empty(),
                },
            )
        },
        MessageView::Prune { sender } => {
            &&& t == NodeView { lazy: with(s.lazy, sender), ..s }
            &&& acts == Seq::<ActionView<Id, P>>::empty()
        },
        _ => {
            &&& t == NodeView { membership: s.membership.step(m).0, ..s }
            &&& acts == s.membership.step(m).1
        },
    }
}

/// What starting a broadcast of `payload` does to a node in state `s`, leaving
/// it in state `t` with the actions `acts`.
pub open spec fn broadcast_post<Id, P: Clone>(
    s: NodeView<Id, P>,
    t: NodeView<Id, P>,
    payload: P,
    acts: Seq<ActionView<Id, P>>,
) -> bool {
    let me = s.config.me;
    let id = (me, s.next_seq);
    let stored = lookup(t.cache, id)->0;
    &&& lookup(t.cache, id) is Some
    &&& cloned(payload, stored)
    &&& t == NodeView {
        seen: with(s.seen, id),
        next_seq: (s.next_seq + 1) as u64,
        cache: put(s.cache, id, stored),
        ..s
    }
    &&& actions_agree(
        acts,
        eager_sends(me, s.eager_peers(), None, me, s.next_seq, 0, payload) + lazy_sends(
            me,
            s.lazy_peers(),
            None,
            me,
            s.next_seq,
        ),
    )
}

/// A gossip node: generic over who peers are (`Id`) and what is gossiped (`P`).
/// Payloads are cached so that a Plumtree GRAFT can be answered with the real payload.
pub struct Node<Id: NodeId, P: Payload> {
    config: Config<Id>,
    membership: Membership<Id>,
    /// Broadcast ids already seen, so nothing is delivered or forwarded twice.
    seen: Vec<BroadcastId<Id>>,
    /// Counter for minting fresh broadcast sequence numbers.
    next_seq: MessageId,
    /// Active peers demoted to lazy push.
    lazy: Vec<Id>,
    /// Delivered payloads, kept to answer a GRAFT; it grows without bound.
    cache: Vec<(BroadcastId<Id>, P)>,
}

impl<Id: NodeId, P: Payload> View for Node<Id, P> {
    type V = NodeView<Id, P>;

    closed spec fn view(&self) -> NodeView<Id, P> {
        NodeView {
            config: self.config,
            membership: self.membership@,
            seen: self.seen@,
            next_seq: self.next_seq,
            lazy: self.lazy@,
            cache: self.cache@,
        }
    }
}

impl<Id: NodeId, P: Payload> Node<Id, P> {
    /// The node's invariants, and a lawful equality on its peer ids.
    pub open spec fn wf(&self) -> bool {
        &&& self@.wf()
        &&& vstd::laws_eq::obeys_concrete_eq::<Id>()
    }

    /// Builds a node from its configuration, with empty views and no history.
    pub fn new(config: Config<Id>) -> (n: Self)
        requires
            config.fanout < usize::MAX,
            vstd::laws_eq::obeys_concrete_eq::<Id>(),
        ensures
            n.wf(),
            n@ == NodeView::<Id, P>::initial(config),
    {
        let membership = Membership::new(
            config.me,
            config.fanout,
            config.passive_capacity,
            config.active_walk_length,
            config.passive_walk_length,
        );
        let n = Node {
            config,
            membership,
            seen: Vec::new(),
            next_seq: 0,
            lazy: Vec::new(),
            cache: Vec::new(),
        };
        proof {
            assert(n@.seen =~= Seq::<BroadcastId<Id>>::empty());
            assert(n@.lazy =~= Seq::<Id>::empty());
            assert(n@.cache =~= Seq::<(BroadcastId<Id>, P)>::empty());
            assert(n@ =~= NodeView::<Id, P>::initial(config));
        }
        n
    }

    /// The sequence number the next broadcast from this node will carry.
    pub fn next_seq(&self) -> (r: MessageId)
        ensures
            r == self@.next_seq,
    {
        self.next_seq
    }

    /// Splits the active view into eager and lazy peers.
    fn eager_and_lazy(&self) -> (r: (Vec<Id>, Vec<Id>))
        requires
            self.wf(),
        ensures
            r.0@ == self@.eager_peers(),
            r.1@ == self@.lazy_peers(),
    {
        let active = self.membership.active_peers();
        let mut eager: Vec<Id> = Vec::new();
        let mut lazy: Vec<Id> = Vec::new();
        let ghost lz = self.lazy@;
        let ghost fe = |p: Id| !lz.contains(p);
        let ghost fl = |p: Id| lz.contains(p);
        let mut i: usize = 0;
        while i < active.len()
            invariant
                vstd::laws_eq::obeys_concrete_eq::<Id>(),
                lz == self.lazy@,
                fe == (|p: Id| !lz.contains(p)),
                fl == (|p: Id| lz.contains(p)),
                i <= active@.len(),
                eager@ == active@.take(i as int).filter(fe),
                lazy@ == active@.take(i as int).filter(fl),
            decreases active.len() - i,
        {
            let peer = active[i];
            proof {
                assert(active@.take(i + 1) =~= active@.take(i as int).push(peer));
                active@.take(i as int).lemma_filter_push(peer, fe);
                active@.take(i as int).lemma_filter_push(peer, fl);
            }
            if contains_id(&self.lazy, peer) {
                lazy.push(peer);
            } else {
                eager.push(peer);
            }
            i = i + 1;
        }
        proof {
            assert(active@.take(active@.len() as int) =~= active@);
        }
        (eager, lazy)
    }
    /// Starts a brand-new broadcast of `payload` from this node, under the id
    /// `(me, next_seq)`.
    pub fn broadcast(&mut self, payload: P) -> (acts: Vec<Action<Id, P>>)
        requires
            old(self).wf(),
            old(self)@.next_seq < u64::MAX,
        ensures
            final(self).wf(),
            broadcast_post(old(self)@, final(self)@, payload, views(acts@)),
    {
        let me = self.config.me;
        let seq = self.next_seq;
        self.next_seq = seq + 1;
        let id = (me, seq);
        let ghost s = old(self)@;
        proof {
            lemma_with(s.seen, id);
            lemma_put(s.cache, id, payload);
        }
        if !contains_broadcast(&self.seen, &id) {
            self.seen.push(id);
        }
        let stored = payload.clone();
        put_entry(&mut self.cache, id, stored);
        proof {
            lemma_put(s.cache, id, stored);
            assert(self.seen@ == with(s.seen, id));
            assert forall|k: BroadcastId<Id>| #[trigger] self@.seen.contains(k) <==> has_key(self@.cache, k) by {
                assert(s.seen.contains(k) <==> has_key(s.cache, k));
            }
            assert(self@ =~= NodeView {
                seen: with(s.seen, id),
                next_seq: (s.next_seq + 1) as u64,
                cache: put(s.cache, id, stored),
                ..s
            });
        }
        let (eager, lazy) = self.eager_and_lazy();
        let mut actions = forward(me, eager.as_slice(), None, me, seq, 0, &payload);
        let mut more = lazy_push(me, lazy.as_slice(), None, me, seq);
        let ghost a0 = actions@;
        let ghost m0 = more@;
        actions.append(&mut more);
        proof {
            lemma_views_add(a0, m0);
            crate::action::lemma_agree_refl(views(m0));
            lemma_agree_add(
                views(a0),
                eager_sends(me, s.eager_peers(), None, me, s.next_seq, 0, payload),
                views(m0),
                lazy_sends(me, s.lazy_peers(), None, me, s.next_seq),
            );
        }
        actions
    }

    /// Reacts to any incoming message: Plumtree messages are handled here,
    /// everything else is membership control and goes to that layer.
    pub fn handle(&mut self, msg: Message<Id, P>) -> (acts: Vec<Action<Id, P>>)
        requires
            old(self).wf(),
        ensures
            final(self).wf(),
            handle_post(old(self)@, final(self)@, msg@, views(acts@)),
    {
        let me = self.config.me;
        let ghost s = old(self)@;
        let ghost m = msg@;
        match msg {
            Message::Broadcast { origin, seq, sender, hop, payload } => {
                let id = (origin, seq);
                proof {
                    lemma_without(s.lazy, sender);
                    lemma_with(without(s.lazy, sender), sender);
                }
                // A broadcast arriving from `sender` means that link is eager.
                remove_id(&mut self.lazy, sender);
                if contains_broadcast(&self.seen, &id) {
                    // Duplicate: this eager link is redundant, so PRUNE it.
                    insert_id(&mut self.lazy, sender);
                    proof {
                        assert(self@ =~= NodeView { lazy: with(without(s.lazy, sender), sender), ..s });
                    }
                    let acts = single(Action::Send { to: sender, msg: Message::Prune { sender: me } });
                    return acts;
                }
                self.seen.push(id);
                let stored = payload.clone();
                proof {
                    lemma_with(s.seen, id);
                    assert(!has_key(s.cache, id));
                    lemma_put(s.cache, id, stored);
                }
                put_entry(&mut self.cache, id, stored);
                let ghost u = NodeView { lazy: without(s.lazy, sender), seen: s.seen.push(id), ..s };
                proof {
                    assert(self.seen@ == with(s.seen, id));
                    assert forall|k: BroadcastId<Id>| #[trigger] self@.seen.contains(k) <==> has_key(self@.cache, k) by {
                        assert(s.seen.contains(k) <==> has_key(s.cache, k));
                    }
                    assert(self@ =~= NodeView { cache: put(s.cache, id, stored), ..u });
                }
                let delivered = payload.clone();
                let mut actions = single(Action::Deliver { payload: delivered });
                let ghost d0 = views(actions@);
                let ghost dexp = seq![ActionView::<Id, P>::Deliver { payload }];
                proof {
                    assert(actions_agree(d0, dexp)) by {
                        assert(action_agrees(d0[0], dexp[0]));
                    }
                }
                // Stop forwarding once it has reached the hop limit.
                if hop >= self.config.max_rounds {
                    proof {
                        assert(dexp + Seq::<ActionView<Id, P>>::empty() =~= dexp);
                    }
                    return actions;
                }
                let (eager, lazy) = self.eager_and_lazy();
                let mut e = forward(me, eager.as_slice(), Some(sender), origin, seq, hop, &payload);
                let mut l = lazy_push(me, lazy.as_slice(), Some(sender), origin, seq);
                let ghost a0 = actions@;
                let ghost e0 = e@;
                let ghost l0 = l@;
                actions.append(&mut e);
                actions.append(&mut l);
                proof {
                    let ee = eager_sends(me, u.eager_peers(), Some(sender), origin, seq, hop, payload);
                    let le = lazy_sends(me, u.lazy_peers(), Some(sender), origin, seq);
                    lemma_views_add(a0, e0);
                    lemma_views_add(a0 + e0, l0);
                    crate::action::lemma_agree_refl(views(l0));
                    lemma_agree_add(views(a0), dexp, views(e0), ee);
                    lemma_agree_add(views(a0) + views(e0), dexp + ee, views(l0), le);
                    assert(dexp + ee + le =~= dexp + (ee + le));
                }
                actions
            },
            Message::IHave { origin, seq, sender } => {
                let id = (origin, seq);
                if contains_broadcast(&self.seen, &id) {
                    // Already have it: the announcement is redundant.
                    let acts: Vec<Action<Id, P>> = Vec::new();
                    proof {
                        assert(views(acts@) =~= Seq::<ActionView<Id, P>>::empty());
                    }
                    acts
                } else {
                    // Missing it: GRAFT the announcer (promote the link to eager)
                    // and ask for the payload.
                    proof {
                        lemma_without(s.lazy, sender);
                    }
                    remove_id(&mut self.lazy, sender);
                    proof {
                        assert(self@ =~= NodeView { lazy: without(s.lazy, sender), ..s });
                    }
                    single(Action::Send { to: sender, msg: Message::Graft { origin, seq, sender: me } })
                }
            },
            Message::Graft { origin, seq, sender } => {
                let id = (origin, seq);
                proof {
                    lemma_without(s.lazy, sender);
                }
                // Promote this link back to eager.
                remove_id(&mut self.lazy, sender);
                proof {
                    assert(self@ =~= NodeView { lazy: without(s.lazy, sender), ..s });
                }
                // Answer with the cached payload, if there is one.
                match find_key(&self.cache, &id) {
                    Some(i) => {
                        let p = self.cache[i].1.clone();
                        let acts = single(
                            Action::Send {
                                to: sender,
                                msg: Message::Broadcast { origin, seq, sender: me, hop: 0, payload: p },
                            },
                        );
                        proof {
                            let exp = seq![
                                ActionView::<Id, P>::Send {
                                    to: sender,
                                    msg: MessageView::Broadcast {
                                        origin,
                                        seq,
                                        sender: me,
                                        hop: 0,
                                        payload: s.cache[i as int].1,
                                    },
                                },
                            ];
                            assert(action_agrees(views(acts@)[0], exp[0]));
                        }
                        acts
                    },
                    None => {
                        let acts: Vec<Action<Id, P>> = Vec::new();
                        proof {
                            assert(views(acts@) =~= Seq::<ActionView<Id, P>>::empty());
                        }
                        acts
                    },
                }
            },
            Message::Prune { sender } => {
                // The peer says our eager link to it is redundant: demote to lazy.
                proof {
                    lemma_with(s.lazy, sender);
                }
                insert_id(&mut self.lazy, sender);
                proof {
                    assert(self@ =~= NodeView { lazy: with(s.lazy, sender), ..s });
                }
                let acts: Vec<Action<Id, P>> = Vec::new();
                proof {
                    assert(views(acts@) =~= Seq::<ActionView<Id, P>>::empty());
                }
                acts
            },
            other => {
                // Everything else is membership control.
                proof {
                    lemma_step_wf(s.membership, m);
                }
                let acts = self.membership.handle(other);
                proof {
                    assert(self@ =~= NodeView { membership: s.membership.step(m).0, ..s });
                }
                acts
            },
        }
    }

}

} // verus!
