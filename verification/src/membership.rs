//! HyParView membership: a small active view of peers the node keeps open
//! links to and forwards to, and a larger passive view of backups.
use vstd::prelude::*;
use crate::{NodeId, Payload};
use crate::action::{Action, ActionView, views, lemma_views_add};
use crate::message::{Message, MessageView};
use crate::listset::{first_index, without, same_id, contains_id, remove_id};

verus! {

/// The mathematical state of a node's membership layer.
pub struct MembershipView<Id> {
    pub me: Id,
    pub active: Seq<Id>,
    pub passive: Seq<Id>,
    pub active_capacity: nat,
    pub passive_capacity: nat,
    pub active_walk_length: u32,
    pub passive_walk_length: u32,
}

/// Some peer of `s` is neither `a` nor `b`.
pub open spec fn has_relay<Id>(s: Seq<Id>, a: Id, b: Id) -> bool {
    exists|i: int| 0 <= i < s.len() && s[i] != a && s[i] != b
}

/// The first peer of `s` that is neither `a` nor `b` (meaningful under `has_relay`).
pub open spec fn relay<Id>(s: Seq<Id>, a: Id, b: Id) -> Id {
    s[choose|i: int|
        0 <= i < s.len() && s[i] != a && s[i] != b && forall|j: int|
            0 <= j < i ==> (s[j] == a || s[j] == b)]
}

impl<Id> MembershipView<Id> {
    /// The views' standing invariants: no duplicates, no overlap, never ourselves,
    /// and the active view within its capacity.
    pub open spec fn wf(self) -> bool {
        &&& self.active.no_duplicates()
        &&& self.passive.no_duplicates()
        &&& self.active.disjoint(self.passive)
        &&& !self.active.contains(self.me)
        &&& !self.passive.contains(self.me)
        &&& self.active_capacity >= 1
        &&& self.active.len() <= self.active_capacity
        &&& (self.passive.len() <= self.passive_capacity || self.passive.len() <= 1)
    }

    /// Empty views for node `me`.
    pub open spec fn empty(
        me: Id,
        active_capacity: nat,
        passive_capacity: nat,
        active_walk_length: u32,
        passive_walk_length: u32,
    ) -> Self {
        MembershipView {
            me,
            active: Seq::empty(),
            passive: Seq::empty(),
            active_capacity,
            passive_capacity,
            active_walk_length,
            passive_walk_length,
        }
    }

    pub open spec fn is_full(self) -> bool {
        self.active.len() >= self.active_capacity
    }

    pub open spec fn knows(self, peer: Id) -> bool {
        self.active.contains(peer) || self.passive.contains(peer)
    }

    /// Records `peer` as a backup. Ourselves and known peers are ignored; when
    /// the passive view is full its oldest entry makes room.
    pub open spec fn add_to_passive(self, peer: Id) -> Self {
        if peer == self.me || self.active.contains(peer) || self.passive.contains(peer) {
            self
        } else if self.passive.len() >= self.passive_capacity && self.passive.len() > 0 {
            MembershipView { passive: self.passive.drop_first().push(peer), ..self }
        } else {
            MembershipView { passive: self.passive.push(peer), ..self }
        }
    }

    /// Records each of `peers`, in order, as a backup.
    pub open spec fn add_all_to_passive(self, peers: Seq<Id>) -> Self
        decreases peers.len(),
    {
        if peers.len() == 0 {
            self
        } else {
            self.add_all_to_passive(peers.drop_last()).add_to_passive(peers.last())
        }
    }

    /// Promotes `peer` into the active view (out of the passive view). When the
    /// active view is full its oldest peer is demoted to the passive view and
    /// returned.
    pub open spec fn add_to_active(self, peer: Id) -> (Self, Option<Id>) {
        if peer == self.me || self.active.contains(peer) {
            (self, None)
        } else {
            let s1 = MembershipView { passive: without(self.passive, peer), ..self };
            if s1.active.len() >= s1.active_capacity && s1.active.len() > 0 {
                let victim = s1.active[0];
                let s2 = MembershipView { active: s1.active.drop_first(), ..s1 };
                let s3 = s2.add_to_passive(victim);
                (MembershipView { active: s3.active.push(peer), ..s3 }, Some(victim))
            } else {
                (MembershipView { active: s1.active.push(peer), ..s1 }, None)
            }
        }
    }

    /// Removes a failed or leaving peer from the active view.
    pub open spec fn drop_from_active(self, peer: Id) -> Self {
        MembershipView { active: without(self.active, peer), ..self }
    }

    /// Takes `peer` into the active view: connect to it, and if that bumped an
    /// older peer, tell that peer and drop its link.
    pub open spec fn adopt<P>(self, peer: Id) -> (Self, Seq<ActionView<Id, P>>) {
        let (s, evicted) = self.add_to_active(peer);
        match evicted {
            Some(old) => (
                s,
                seq![
                    ActionView::Connect { peer },
                    ActionView::Send { to: old, msg: MessageView::Disconnect { sender: self.me } },
                    ActionView::Disconnect { peer: old },
                ],
            ),
            None => (s, seq![ActionView::Connect { peer }]),
        }
    }

    /// The membership layer's answer to a message: the new views and the actions.
    pub open spec fn step<P>(self, msg: MessageView<Id, P>) -> (Self, Seq<ActionView<Id, P>>) {
        match msg {
            MessageView::Join { new_node } => self.adopt(new_node),
            MessageView::ForwardJoin { new_node, sender, ttl } => {
                if ttl == 0 || !has_relay(self.active, sender, new_node) {
                    self.adopt(new_node)
                } else {
                    let s = if ttl == self.passive_walk_length {
                        self.add_to_passive(new_node)
                    } else {
                        self
                    };
                    (
                        s,
                        seq![
                            ActionView::Send {
                                to: relay(self.active, sender, new_node),
                                msg: MessageView::ForwardJoin {
                                    new_node,
                                    sender: self.me,
                                    ttl: (ttl - 1) as u32,
                                },
                            },
                        ],
                    )
                }
            },
            MessageView::Disconnect { sender } => (
                self.drop_from_active(sender).add_to_passive(sender),
                seq![ActionView::Disconnect { peer: sender }],
            ),
            MessageView::Neighbor { sender, accepted } => {
                if accepted || !self.is_full() {
                    let (s, acts) = self.adopt(sender);
                    (
                        s,
                        seq![
                            ActionView::Send {
                                to: sender,
                                msg: MessageView::NeighborReply { sender: self.me, accepted: true },
                            },
                        ] + acts,
                    )
                } else {
                    (
                        self,
                        seq![
                            ActionView::Send {
                                to: sender,
                                msg: MessageView::NeighborReply { sender: self.me, accepted: false },
                            },
                        ],
                    )
                }
            },
            MessageView::NeighborReply { sender, accepted } => {
                if accepted {
                    self.adopt(sender)
                } else {
                    (self, Seq::empty())
                }
            },
            MessageView::Shuffle { origin, sender, ttl, peers } => {
                if ttl > 0 && has_relay(self.active, sender, origin) {
                    (
                        self,
                        seq![
                            ActionView::Send {
                                to: relay(self.active, sender, origin),
                                msg: MessageView::Shuffle {
                                    origin,
                                    sender: self.me,
                                    ttl: (ttl - 1) as u32,
                                    peers,
                                },
                            },
                        ],
                    )
                } else {
                    let n = if peers.len() < self.passive.len() {
                        peers.len()
                    } else {
                        self.passive.len()
                    };
                    (
                        self.add_all_to_passive(peers),
                        seq![
                            ActionView::Send {
                                to: origin,
                                msg: MessageView::ShuffleReplay { peers: self.passive.take(n as int) },
                            },
                        ],
                    )
                }
            },
            MessageView::ShuffleReplay { peers } => (self.add_all_to_passive(peers), Seq::empty()),
            MessageView::Broadcast { payload, .. } => (self, seq![ActionView::Deliver { payload }]),
            _ => (self, Seq::empty()),
        }
    }
}

/// Removing the first occurrence from a duplicate-free list.
pub proof fn lemma_without<Id>(s: Seq<Id>, x: Id)
    requires
        s.no_duplicates(),
    ensures
        without(s, x).no_duplicates(),
        forall|y: Id| #[trigger] without(s, x).contains(y) <==> (s.contains(y) && y != x),
        s.contains(x) ==> without(s, x).len() == s.len() - 1,
        !s.contains(x) ==> without(s, x) == s,
{
    if s.contains(x) {
        let k = first_index(s, x);
        assert(0 <= k < s.len() && s[k] == x);
        let r = s.remove(k);
        assert forall|y: Id| #[trigger] r.contains(y) <==> (s.contains(y) && y != x) by {
            if r.contains(y) {
                let i = choose|i: int| 0 <= i < r.len() && r[i] == y;
                if i < k {
                    assert(s[i] == y);
                } else {
                    assert(s[i + 1] == y);
                    assert(i + 1 != k);
                }
            }
            if s.contains(y) && y != x {
                let i = choose|i: int| 0 <= i < s.len() && s[i] == y;
                assert(i != k);
                if i < k {
                    assert(r[i] == y);
                } else {
                    assert(r[i - 1] == y);
                }
            }
        }
    }
}

/// Dropping the head of a duplicate-free list removes exactly that element.
pub proof fn lemma_drop_first<Id>(s: Seq<Id>)
    requires
        s.no_duplicates(),
        s.len() > 0,
    ensures
        s.drop_first().no_duplicates(),
        forall|y: Id| #[trigger] s.drop_first().contains(y) <==> (s.contains(y) && y != s[0]),
{
    let d = s.drop_first();
    assert forall|y: Id| #[trigger] d.contains(y) <==> (s.contains(y) && y != s[0]) by {
        if d.contains(y) {
            let i = choose|i: int| 0 <= i < d.len() && d[i] == y;
            assert(s[i + 1] == y);
        }
        if s.contains(y) && y != s[0] {
            let i = choose|i: int| 0 <= i < s.len() && s[i] == y;
            assert(d[i - 1] == y);
        }
    }
}

/// `add_to_passive` keeps the invariants, changes only the passive view, and
/// adds nothing but `peer`.
pub proof fn lemma_add_to_passive<Id>(s: MembershipView<Id>, peer: Id)
    requires
        s.wf(),
    ensures
        s.add_to_passive(peer).wf(),
        s.add_to_passive(peer).active == s.active,
        s.add_to_passive(peer).me == s.me,
        s.add_to_passive(peer).active_capacity == s.active_capacity,
        s.add_to_passive(peer).passive_capacity == s.passive_capacity,
        s.add_to_passive(peer).passive_walk_length == s.passive_walk_length,
        s.add_to_passive(peer).active_walk_length == s.active_walk_length,
        forall|y: Id| #[trigger] s.add_to_passive(peer).passive.contains(y) ==> (s.passive.contains(y) || y == peer),
        peer != s.me && !s.active.contains(peer) ==> s.add_to_passive(peer).passive.contains(peer),
{
    let t = s.add_to_passive(peer);
    if peer == s.me || s.active.contains(peer) || s.passive.contains(peer) {
    } else if s.passive.len() >= s.passive_capacity && s.passive.len() > 0 {
        lemma_drop_first(s.passive);
        let d = s.passive.drop_first();
        assert forall|y: Id| #[trigger] t.passive.contains(y) <==> (d.contains(y) || y == peer) by {
            if t.passive.contains(y) {
                let i = choose|i: int| 0 <= i < t.passive.len() && t.passive[i] == y;
                if i < d.len() {
                    assert(d[i] == y);
                }
            }
            if d.contains(y) {
                let i = choose|i: int| 0 <= i < d.len() && d[i] == y;
                assert(t.passive[i] == y);
            }
            if y == peer {
                assert(t.passive[d.len() as int] == y);
            }
        }
        assert(t.passive.no_duplicates()) by {
            assert forall|i: int, j: int|
                0 <= i < t.passive.len() && 0 <= j < t.passive.len() && i != j implies t.passive[i]
                != t.passive[j] by {
                if i < d.len() && j < d.len() {
                } else if i < d.len() {
                    assert(d.contains(d[i]));
                } else if j < d.len() {
                    assert(d.contains(d[j]));
                }
            }
        }
        assert(s.active.disjoint(t.passive)) by {
            assert forall|i: int, j: int| 0 <= i < s.active.len() && 0 <= j < t.passive.len() implies s.active[i]
                != t.passive[j] by {
                assert(t.passive.contains(t.passive[j]));
                if d.contains(t.passive[j]) {
                    let k = choose|k: int| 0 <= k < s.passive.len() && s.passive[k] == t.passive[j];
                }
            }
        }
        assert(!t.passive.contains(s.me));
    } else {
        let p = s.passive.push(peer);
        assert forall|y: Id| #[trigger] p.contains(y) <==> (s.passive.contains(y) || y == peer) by {
            if p.contains(y) {
                let i = choose|i: int| 0 <= i < p.len() && p[i] == y;
                if i < s.passive.len() {
                    assert(s.passive[i] == y);
                }
            }
            if s.passive.contains(y) {
                let i = choose|i: int| 0 <= i < s.passive.len() && s.passive[i] == y;
                assert(p[i] == y);
            }
            if y == peer {
                assert(p[s.passive.len() as int] == y);
            }
        }
        assert(p.no_duplicates()) by {
            assert forall|i: int, j: int| 0 <= i < p.len() && 0 <= j < p.len() && i != j implies p[i] != p[j] by {
                if i < s.passive.len() && j < s.passive.len() {
                } else if i < s.passive.len() {
                    assert(s.passive.contains(p[i]));
                } else if j < s.passive.len() {
                    assert(s.passive.contains(p[j]));
                }
            }
        }
        assert(s.active.disjoint(p)) by {
            assert forall|i: int, j: int| 0 <= i < s.active.len() && 0 <= j < p.len() implies s.active[i]
                != p[j] by {
                if j < s.passive.len() {
                } else {
                    assert(s.active.contains(s.active[i]));
                }
            }
        }
        assert(!p.contains(s.me));
    }
}

/// `add_to_active` keeps the invariants; afterwards `peer` (unless it is
/// ourselves) is active and not passive, and an evicted peer has moved from the
/// active view to the passive view.
pub proof fn lemma_add_to_active<Id>(s: MembershipView<Id>, peer: Id)
    requires
        s.wf(),
    ensures
        ({
            let (t, evicted) = s.add_to_active(peer);
            &&& t.wf()
            &&& t.me == s.me
            &&& t.active_capacity == s.active_capacity
            &&& t.passive_capacity == s.passive_capacity
            &&& t.active_walk_length == s.active_walk_length
            &&& t.passive_walk_length == s.passive_walk_length
            &&& peer != s.me ==> t.active.contains(peer) && !t.passive.contains(peer)
            &&& match evicted {
                Some(v) => s.active.contains(v) && !t.active.contains(v) && t.passive.contains(v),
                None => true,
            }
        }),
{
    if peer == s.me || s.active.contains(peer) {
        if s.active.contains(peer) {
            let i = choose|i: int| 0 <= i < s.active.len() && s.active[i] == peer;
            assert forall|j: int| 0 <= j < s.passive.len() implies s.passive[j] != peer by {
                assert(s.active[i] != s.passive[j]);
            }
        }
    } else {
        lemma_without(s.passive, peer);
        let s1 = MembershipView { passive: without(s.passive, peer), ..s };
        assert(s1.active.disjoint(s1.passive)) by {
            assert forall|i: int, j: int| 0 <= i < s1.active.len() && 0 <= j < s1.passive.len() implies s1.active[i]
                != s1.passive[j] by {
                assert(s1.passive.contains(s1.passive[j]));
                let k = choose|k: int| 0 <= k < s.passive.len() && s.passive[k] == s1.passive[j];
                assert(s.active[i] != s.passive[k]);
            }
        }
        assert(!s1.passive.contains(s.me));
        assert(s1.passive.len() <= s.passive.len());
        assert(s1.wf());
        if s1.active.len() >= s1.active_capacity && s1.active.len() > 0 {
            let victim = s1.active[0];
            lemma_drop_first(s1.active);
            let s2 = MembershipView { active: s1.active.drop_first(), ..s1 };
            assert(s2.active.disjoint(s2.passive)) by {
                assert forall|i: int, j: int| 0 <= i < s2.active.len() && 0 <= j < s2.passive.len() implies s2.active[i]
                    != s2.passive[j] by {
                    assert(s1.active[i + 1] != s1.passive[j]);
                }
            }
            assert(!s2.active.contains(s.me)) by {
                if s2.active.contains(s.me) {
                    assert(s1.active.contains(s.me));
                }
            }
            assert(s2.wf());
            assert(!s2.active.contains(victim));
            assert(!s2.passive.contains(victim)) by {
                if s2.passive.contains(victim) {
                    let j = choose|j: int| 0 <= j < s2.passive.len() && s2.passive[j] == victim;
                    assert(s1.active[0] != s1.passive[j]);
                }
            }
            assert(victim != s.me) by {
                assert(s1.active.contains(victim));
            }
            lemma_add_to_passive(s2, victim);
            let s3 = s2.add_to_passive(victim);
            assert(s3.passive.contains(victim)) by {
                if s2.passive.len() >= s2.passive_capacity && s2.passive.len() > 0 {
                    assert(s3.passive[s3.passive.len() - 1] == victim);
                } else {
                    assert(s3.passive[s3.passive.len() - 1] == victim);
                }
            }
            let t = MembershipView { active: s3.active.push(peer), ..s3 };
            assert(!s3.passive.contains(peer)) by {
                if s3.passive.contains(peer) {
                    assert(s2.passive.contains(peer) || peer == victim);
                    assert(s1.active.contains(victim));
                }
            }
            assert(!s2.active.contains(peer)) by {
                if s2.active.contains(peer) {
                    assert(s1.active.contains(peer));
                }
            }
            assert(t.active.no_duplicates()) by {
                assert forall|i: int, j: int| 0 <= i < t.active.len() && 0 <= j < t.active.len() && i != j implies t.active[i]
                    != t.active[j] by {
                    if i < s3.active.len() && j < s3.active.len() {
                    } else if i < s3.active.len() {
                        assert(s3.active.contains(t.active[i]));
                    } else if j < s3.active.len() {
                        assert(s3.active.contains(t.active[j]));
                    }
                }
            }
            assert(t.active.disjoint(t.passive)) by {
                assert forall|i: int, j: int| 0 <= i < t.active.len() && 0 <= j < t.passive.len() implies t.active[i]
                    != t.passive[j] by {
                    if i < s3.active.len() {
                        assert(s3.active[i] != s3.passive[j]);
                    } else {
                        assert(s3.passive.contains(s3.passive[j]));
                    }
                }
            }
            assert(!t.active.contains(s.me)) by {
                if t.active.contains(s.me) {
                    let i = choose|i: int| 0 <= i < t.active.len() && t.active[i] == s.me;
                    if i < s3.active.len() {
                        assert(s3.active.contains(s.me));
                    }
                }
            }
            assert(t.active.contains(peer)) by {
                assert(t.active[t.active.len() - 1] == peer);
            }
            assert(!t.active.contains(victim)) by {
                if t.active.contains(victim) {
                    let i = choose|i: int| 0 <= i < t.active.len() && t.active[i] == victim;
                    if i < s3.active.len() {
                        assert(s2.active.contains(victim));
                    }
                }
            }
            assert(s.active.contains(victim)) by {
                assert(s.active[0] == victim);
            }
        } else {
            let t = MembershipView { active: s1.active.push(peer), ..s1 };
            assert(t.active.no_duplicates()) by {
                assert forall|i: int, j: int| 0 <= i < t.active.len() && 0 <= j < t.active.len() && i != j implies t.active[i]
                    != t.active[j] by {
                    if i < s1.active.len() && j < s1.active.len() {
                    } else if i < s1.active.len() {
                        assert(s1.active.contains(t.active[i]));
                    } else if j < s1.active.len() {
                        assert(s1.active.contains(t.active[j]));
                    }
                }
            }
            assert(t.active.disjoint(t.passive)) by {
                assert forall|i: int, j: int| 0 <= i < t.active.len() && 0 <= j < t.passive.len() implies t.active[i]
                    != t.passive[j] by {
                    if i < s1.active.len() {
                        assert(s1.active[i] != s1.passive[j]);
                    } else {
                        assert(s1.passive.contains(s1.passive[j]));
                    }
                }
            }
            assert(!t.active.contains(s.me)) by {
                if t.active.contains(s.me) {
                    let i = choose|i: int| 0 <= i < t.active.len() && t.active[i] == s.me;
                    if i < s1.active.len() {
                        assert(s1.active.contains(s.me));
                    }
                }
            }
            assert(t.active.contains(peer)) by {
                assert(t.active[t.active.len() - 1] == peer);
            }
        }
    }
}

/// Recording several backups keeps the invariants and the active view.
pub proof fn lemma_add_all_to_passive<Id>(s: MembershipView<Id>, peers: Seq<Id>)
    requires
        s.wf(),
    ensures
        s.add_all_to_passive(peers).wf(),
        s.add_all_to_passive(peers).active == s.active,
        s.add_all_to_passive(peers).me == s.me,
        s.add_all_to_passive(peers).active_capacity == s.active_capacity,
        s.add_all_to_passive(peers).passive_capacity == s.passive_capacity,
        s.add_all_to_passive(peers).active_walk_length == s.active_walk_length,
        s.add_all_to_passive(peers).passive_walk_length == s.passive_walk_length,
    decreases peers.len(),
{
    if peers.len() > 0 {
        lemma_add_all_to_passive(s, peers.drop_last());
        lemma_add_to_passive(s.add_all_to_passive(peers.drop_last()), peers.last());
    }
}

/// Dropping a peer from the active view keeps the invariants.
pub proof fn lemma_drop_from_active<Id>(s: MembershipView<Id>, peer: Id)
    requires
        s.wf(),
    ensures
        s.drop_from_active(peer).wf(),
        !s.drop_from_active(peer).active.contains(peer),
{
    lemma_without(s.active, peer);
    let t = s.drop_from_active(peer);
    assert(t.active.disjoint(t.passive)) by {
        assert forall|i: int, j: int| 0 <= i < t.active.len() && 0 <= j < t.passive.len() implies t.active[i]
            != t.passive[j] by {
            assert(t.active.contains(t.active[i]));
            let k = choose|k: int| 0 <= k < s.active.len() && s.active[k] == t.active[i];
            assert(s.active[k] != s.passive[j]);
        }
    }
}

/// Every membership step keeps the views' invariants: no duplicates, no peer in
/// both views, never ourselves, and the active view within `fanout + 1`.
pub proof fn lemma_step_wf<Id, P>(s: MembershipView<Id>, msg: MessageView<Id, P>)
    requires
        s.wf(),
    ensures
        s.step(msg).0.wf(),
        s.step(msg).0.me == s.me,
        s.step(msg).0.active_capacity == s.active_capacity,
        s.step(msg).0.passive_capacity == s.passive_capacity,
        s.step(msg).0.active_walk_length == s.active_walk_length,
        s.step(msg).0.passive_walk_length == s.passive_walk_length,
{
    match msg {
        MessageView::Join { new_node } => lemma_add_to_active(s, new_node),
        MessageView::ForwardJoin { new_node, sender, ttl } => {
            lemma_add_to_active(s, new_node);
            lemma_add_to_passive(s, new_node);
        },
        MessageView::Disconnect { sender } => {
            lemma_drop_from_active(s, sender);
            lemma_add_to_passive(s.drop_from_active(sender), sender);
        },
        MessageView::Neighbor { sender, accepted } => lemma_add_to_active(s, sender),
        MessageView::NeighborReply { sender, accepted } => lemma_add_to_active(s, sender),
        MessageView::Shuffle { origin, sender, ttl, peers } => lemma_add_all_to_passive(s, peers),
        MessageView::ShuffleReplay { peers } => lemma_add_all_to_passive(s, peers),
        _ => {},
    }
}

/// Node membership: the two views and their limits.
pub struct Membership<Id: NodeId> {
    /// The node's own identity.
    me: Id,
    /// Peers kept connected for broadcasting; capacity `fanout + 1`.
    active: Vec<Id>,
    /// Backup peers, called in when an active peer fails.
    passive: Vec<Id>,
    active_capacity: usize,
    passive_capacity: usize,
    active_walk_length: u32,
    passive_walk_length: u32,
}

impl<Id: NodeId> View for Membership<Id> {
    type V = MembershipView<Id>;

    closed spec fn view(&self) -> MembershipView<Id> {
        MembershipView {
            me: self.me,
            active: self.active@,
            passive: self.passive@,
            active_capacity: self.active_capacity as nat,
            passive_capacity: self.passive_capacity as nat,
            active_walk_length: self.active_walk_length,
            passive_walk_length: self.passive_walk_length,
        }
    }
}

/// A list of one action.
pub fn single<Id: NodeId, P: Payload>(a: Action<Id, P>) -> (r: Vec<Action<Id, P>>)
    ensures
        views(r@) == seq![a@],
{
    let mut r: Vec<Action<Id, P>> = Vec::new();
    r.push(a);
    proof {
        assert(views(r@) =~= seq![a@]);
    }
    r
}

/// Where the first peer of `v` that is neither `a` nor `b` sits, if there is one.
fn find_relay<Id: NodeId>(v: &Vec<Id>, a: Id, b: Id) -> (r: Option<usize>)
    requires
        vstd::laws_eq::obeys_concrete_eq::<Id>(),
    ensures
        match r {
            Some(i) => has_relay(v@, a, b) && i < v@.len() && v@[i as int] == relay(v@, a, b),
            None => !has_relay(v@, a, b),
        },
{
    let mut i: usize = 0;
    while i < v.len()
        invariant
            vstd::laws_eq::obeys_concrete_eq::<Id>(),
            i <= v.len(),
            forall|j: int| 0 <= j < i ==> (v@[j] == a || v@[j] == b),
        decreases v.len() - i,
    {
        if !same_id(&v[i], &a) && !same_id(&v[i], &b) {
            let ghost s = v@;
            assert(has_relay(s, a, b));
            let ghost k = choose|k: int|
                0 <= k < s.len() && s[k] != a && s[k] != b && forall|j: int|
                    0 <= j < k ==> (s[j] == a || s[j] == b);
            assert(0 <= i < s.len() && s[i as int] != a && s[i as int] != b && forall|j: int|
                0 <= j < i ==> (s[j] == a || s[j] == b));
            assert(k == i) by {
                if k < i {
                } else if k > i {
                }
            }
            return Some(i);
        }
        i = i + 1;
    }
    None
}

impl<Id: NodeId> Membership<Id> {
    /// Starts with empty views; the active view holds `fanout + 1` peers.
    pub fn new(
        me: Id,
        fanout: usize,
        passive_capacity: usize,
        active_walk_length: u32,
        passive_walk_length: u32,
    ) -> (m: Self)
        requires
            fanout < usize::MAX,
        ensures
            m@ == MembershipView::empty(
                me,
                (fanout + 1) as nat,
                passive_capacity as nat,
                active_walk_length,
                passive_walk_length,
            ),
            m@.wf(),
    {
        let m = Membership {
            me,
            active: Vec::new(),
            passive: Vec::new(),
            active_capacity: fanout + 1,
            passive_capacity,
            active_walk_length,
            passive_walk_length,
        };
        proof {
            assert(m@ =~= MembershipView::empty(
                me,
                (fanout + 1) as nat,
                passive_capacity as nat,
                active_walk_length,
                passive_walk_length,
            ));
        }
        m
    }

    /// Is the active view at capacity?
    pub fn active_is_full(&self) -> (r: bool)
        ensures
            r == self@.is_full(),
    {
        self.active.len() >= self.active_capacity
    }

    /// The peers currently in the active view, oldest first.
    pub fn active_peers(&self) -> (r: &[Id])
        ensures
            r@ == self@.active,
    {
        self.active.as_slice()
    }

    /// Is this peer known, actively or as a backup?
    pub fn contains(&self, peer: Id) -> (r: bool)
        requires
            vstd::laws_eq::obeys_concrete_eq::<Id>(),
        ensures
            r == self@.knows(peer),
    {
        contains_id(&self.active, peer) || contains_id(&self.passive, peer)
    }

    /// Records `peer` as a backup (see [`MembershipView::add_to_passive`]).
    pub fn add_to_passive(&mut self, peer: Id)
        requires
            vstd::laws_eq::obeys_concrete_eq::<Id>(),
        ensures
            final(self)@ == old(self)@.add_to_passive(peer),
    {
        if same_id(&peer, &self.me) || contains_id(&self.active, peer) || contains_id(
            &self.passive,
            peer,
        ) {
            return;
        }
        if self.passive.len() >= self.passive_capacity && self.passive.len() > 0 {
            self.passive.remove(0);
            proof {
                assert(self.passive@ =~= old(self)@.passive.drop_first());
            }
        }
        self.passive.push(peer);
        proof {
            assert(self@ =~= old(self)@.add_to_passive(peer));
        }
    }

    /// Promotes `peer` into the active view, returning the peer it evicted, if
    /// any, so the caller can disconnect it (see [`MembershipView::add_to_active`]).
    pub fn add_to_active(&mut self, peer: Id) -> (evicted: Option<Id>)
        requires
            vstd::laws_eq::obeys_concrete_eq::<Id>(),
        ensures
            (final(self)@, evicted) == old(self)@.add_to_active(peer),
    {
        if same_id(&peer, &self.me) || contains_id(&self.active, peer) {
            return None;
        }
        remove_id(&mut self.passive, peer);
        let mut evicted = None;
        if self.active.len() >= self.active_capacity && self.active.len() > 0 {
            let victim = self.active[0];
            self.active.remove(0);
            proof {
                assert(self.active@ =~= old(self)@.active.drop_first());
            }
            self.add_to_passive(victim);
            evicted = Some(victim);
        }
        self.active.push(peer);
        proof {
            let s1 = MembershipView { passive: without(old(self)@.passive, peer), ..old(self)@ };
            if s1.active.len() >= s1.active_capacity && s1.active.len() > 0 {
                let s2 = MembershipView { active: s1.active.drop_first(), ..s1 };
                let s3 = s2.add_to_passive(s1.active[0]);
                assert(self@ =~= MembershipView { active: s3.active.push(peer), ..s3 });
            } else {
                assert(self@ =~= MembershipView { active: s1.active.push(peer), ..s1 });
            }
        }
        evicted
    }

    /// Removes a failed or leaving peer from the active view.
    pub fn drop_from_active(&mut self, peer: Id)
        requires
            vstd::laws_eq::obeys_concrete_eq::<Id>(),
        ensures
            final(self)@ == old(self)@.drop_from_active(peer),
    {
        remove_id(&mut self.active, peer);
        proof {
            assert(self@ =~= old(self)@.drop_from_active(peer));
        }
    }

    /// Takes `peer` into the active view and says so (see [`MembershipView::adopt`]).
    fn adopt<P: Payload>(&mut self, peer: Id) -> (acts: Vec<Action<Id, P>>)
        requires
            vstd::laws_eq::obeys_concrete_eq::<Id>(),
        ensures
            final(self)@ == old(self)@.adopt::<P>(peer).0,
            views(acts@) == old(self)@.adopt::<P>(peer).1,
    {
        let me = self.me;
        let evicted = self.add_to_active(peer);
        let mut acts: Vec<Action<Id, P>> = Vec::new();
        acts.push(Action::Connect { peer });
        match evicted {
            Some(old) => {
                acts.push(Action::Send { to: old, msg: Message::Disconnect { sender: me } });
                acts.push(Action::Disconnect { peer: old });
            },
            None => {},
        }
        proof {
            assert(views(acts@) =~= old(self)@.adopt::<P>(peer).1);
        }
        acts
    }

    /// Records each of `peers`, in order, as a backup.
    fn add_all_to_passive(&mut self, peers: &Vec<Id>)
        requires
            vstd::laws_eq::obeys_concrete_eq::<Id>(),
        ensures
            final(self)@ == old(self)@.add_all_to_passive(peers@),
    {
        let mut i: usize = 0;
        while i < peers.len()
            invariant
                vstd::laws_eq::obeys_concrete_eq::<Id>(),
                i <= peers.len(),
                self@ == old(self)@.add_all_to_passive(peers@.take(i as int)),
            decreases peers.len() - i,
        {
            proof {
                assert(peers@.take(i + 1).drop_last() =~= peers@.take(i as int));
            }
            self.add_to_passive(peers[i]);
            i = i + 1;
        }
        proof {
            assert(peers@.take(peers@.len() as int) =~= peers@);
        }
    }

    /// Answers a message addressed to the membership layer (see [`MembershipView::step`]).
    pub fn handle<P: Payload>(&mut self, msg: Message<Id, P>) -> (acts: Vec<Action<Id, P>>)
        requires
            vstd::laws_eq::obeys_concrete_eq::<Id>(),
        ensures
            final(self)@ == old(self)@.step(msg@).0,
            views(acts@) == old(self)@.step(msg@).1,
    {
        let me = self.me;
        match msg {
            Message::Join { new_node } => self.adopt(new_node),
            Message::ForwardJoin { new_node, sender, ttl } => {
                let r = find_relay(&self.active, sender, new_node);
                match r {
                    Some(i) if ttl > 0 => {
                        let target = self.active[i];
                        if ttl == self.passive_walk_length {
                            self.add_to_passive(new_node);
                        }
                        single(
                            Action::Send {
                                to: target,
                                msg: Message::ForwardJoin { new_node, sender: me, ttl: ttl - 1 },
                            },
                        )
                    },
                    _ => self.adopt(new_node),
                }
            },
            Message::Disconnect { sender } => {
                self.drop_from_active(sender);
                self.add_to_passive(sender);
                single(Action::Disconnect { peer: sender })
            },
            Message::Neighbor { sender, accepted } => {
                if accepted || !self.active_is_full() {
                    let mut acts = single(
                        Action::Send {
                            to: sender,
                            msg: Message::NeighborReply { sender: me, accepted: true },
                        },
                    );
                    let mut more = self.adopt(sender);
                    let ghost a0 = acts@;
                    let ghost m0 = more@;
                    acts.append(&mut more);
                    proof {
                        lemma_views_add(a0, m0);
                    }
                    acts
                } else {
                    single(
                        Action::Send {
                            to: sender,
                            msg: Message::NeighborReply { sender: me, accepted: false },
                        },
                    )
                }
            },
            Message::NeighborReply { sender, accepted } => {
                if accepted {
                    self.adopt(sender)
                } else {
                    let acts: Vec<Action<Id, P>> = Vec::new();
                    proof {
                        assert(views(acts@) =~= Seq::<ActionView<Id, P>>::empty());
                    }
                    acts
                }
            },
            Message::Shuffle { origin, sender, ttl, peers } => {
                let r = find_relay(&self.active, sender, origin);
                match r {
                    Some(i) if ttl > 0 => {
                        let target = self.active[i];
                        single(
                            Action::Send {
                                to: target,
                                msg: Message::Shuffle { origin, sender: me, ttl: ttl - 1, peers },
                            },
                        )
                    },
                    _ => {
                        let n = if peers.len() < self.passive.len() {
                            peers.len()
                        } else {
                            self.passive.len()
                        };
                        let mut reply: Vec<Id> = Vec::new();
                        let mut k: usize = 0;
                        while k < n
                            invariant
                                n <= self.passive@.len(),
                                k <= n,
                                reply@ == self.passive@.take(k as int),
                            decreases n - k,
                        {
                            reply.push(self.passive[k]);
                            k = k + 1;
                            proof {
                                assert(reply@ =~= self.passive@.take(k as int));
                            }
                        }
                        self.add_all_to_passive(&peers);
                        single(Action::Send { to: origin, msg: Message::ShuffleReplay { peers: reply } })
                    },
                }
            },
            Message::ShuffleReplay { peers } => {
                self.add_all_to_passive(&peers);
                let acts: Vec<Action<Id, P>> = Vec::new();
                proof {
                    assert(views(acts@) =~= Seq::<ActionView<Id, P>>::empty());
                }
                acts
            },
            Message::Broadcast { payload, .. } => single(Action::Deliver { payload }),
            _ => {
                let acts: Vec<Action<Id, P>> = Vec::new();
                proof {
                    assert(views(acts@) =~= Seq::<ActionView<Id, P>>::empty());
                }
                acts
            },
        }
    }
}

} // verus!
