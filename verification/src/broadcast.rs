//! Plumtree pushes: eager (the payload itself) and lazy (an announcement),
//! each to every given peer except the one the message came from.
use vstd::prelude::*;
use crate::{NodeId, Payload};
use crate::action::{Action, ActionView, action_agrees, actions_agree, views, lemma_views_push};
use crate::message::{Message, MessageId, MessageView};

verus! {

/// The peers a push goes to: every given peer except `exclude`, in order.
pub open spec fn targets<Id>(peers: Seq<Id>, exclude: Option<Id>) -> Seq<Id> {
    peers.filter(|p: Id| exclude != Some(p))
}

/// The eager push of `payload` (hop count `hop + 1`) to every target.
pub open spec fn eager_sends<Id, P>(
    me: Id,
    peers: Seq<Id>,
    exclude: Option<Id>,
    origin: Id,
    seq: MessageId,
    hop: u32,
    payload: P,
) -> Seq<ActionView<Id, P>> {
    targets(peers, exclude).map_values(
        |p: Id|
            ActionView::Send {
                to: p,
                msg: MessageView::Broadcast { origin, seq, sender: me, hop: (hop + 1) as u32, payload },
            },
    )
}

/// The lazy push (an `IHave` announcement) to every target.
pub open spec fn lazy_sends<Id, P>(
    me: Id,
    peers: Seq<Id>,
    exclude: Option<Id>,
    origin: Id,
    seq: MessageId,
) -> Seq<ActionView<Id, P>> {
    targets(peers, exclude).map_values(
        |p: Id| ActionView::Send { to: p, msg: MessageView::IHave { origin, seq, sender: me } },
    )
}

pub proof fn lemma_targets_push<Id>(s: Seq<Id>, x: Id, exclude: Option<Id>)
    ensures
        targets(s.push(x), exclude) == if exclude != Some(x) {
            targets(s, exclude).push(x)
        } else {
            targets(s, exclude)
        },
{
    s.lemma_filter_push(x, |p: Id| exclude != Some(p));
}

proof fn lemma_map_push<A, B>(s: Seq<A>, x: A, f: spec_fn(A) -> B)
    ensures
        s.push(x).map_values(f) == s.map_values(f).push(f(x)),
{
    assert(s.push(x).map_values(f) =~= s.map_values(f).push(f(x)));
}

fn is_excluded<Id: NodeId>(peer: Id, exclude: Option<Id>) -> (r: bool)
    requires
        vstd::laws_eq::obeys_concrete_eq::<Id>(),
    ensures
        r == (exclude == Some(peer)),
{
    match exclude {
        Some(e) => crate::listset::same_id(&e, &peer),
        None => false,
    }
}

/// Eager push: sends the payload, one hop further, to every peer in
/// `active_peers` except `exclude` (never echo a message back to whoever sent it).
pub fn forward<Id: NodeId, P: Payload>(
    me: Id,
    active_peers: &[Id],
    exclude: Option<Id>,
    origin: Id,
    seq: MessageId,
    hop: u32,
    payload: &P,
) -> (actions: Vec<Action<Id, P>>)
    requires
        vstd::laws_eq::obeys_concrete_eq::<Id>(),
        hop < u32::MAX,
    ensures
        actions_agree(
            views(actions@),
            eager_sends(me, active_peers@, exclude, origin, seq, hop, *payload),
        ),
{
    let mut actions: Vec<Action<Id, P>> = Vec::new();
    let mut i: usize = 0;
    while i < active_peers.len()
        invariant
            vstd::laws_eq::obeys_concrete_eq::<Id>(),
            hop < u32::MAX,
            i <= active_peers@.len(),
            actions_agree(
                views(actions@),
                eager_sends(me, active_peers@.take(i as int), exclude, origin, seq, hop, *payload),
            ),
        decreases active_peers.len() - i,
    {
        let peer = active_peers[i];
        let ghost before = actions@;
        let ghost f = |p: Id|
            ActionView::Send {
                to: p,
                msg: MessageView::Broadcast { origin, seq, sender: me, hop: (hop + 1) as u32, payload: *payload },
            };
        proof {
            assert(active_peers@.take(i + 1) =~= active_peers@.take(i as int).push(peer));
            lemma_targets_push(active_peers@.take(i as int), peer, exclude);
            lemma_map_push(targets(active_peers@.take(i as int), exclude), peer, f);
        }
        if !is_excluded(peer, exclude) {
            let a = Action::Send {
                to: peer,
                msg: Message::Broadcast { origin, seq, sender: me, hop: hop + 1, payload: payload.clone() },
            };
            actions.push(a);
            proof {
                lemma_views_push(before, a);
                let exp = eager_sends(me, active_peers@.take(i + 1), exclude, origin, seq, hop, *payload);
                assert(exp == eager_sends(me, active_peers@.take(i as int), exclude, origin, seq, hop, *payload).push(f(peer)));
                assert forall|k: int| 0 <= k < views(actions@).len() implies action_agrees(
                    #[trigger] views(actions@)[k],
                    exp[k],
                ) by {
                    if k < before.len() {
                        assert(views(actions@)[k] == views(before)[k]);
                    }
                }
            }
        }
        i = i + 1;
    }
    proof {
        assert(active_peers@.take(active_peers@.len() as int) =~= active_peers@);
    }
    actions
}

/// Lazy push: announces `(origin, seq)` with an `IHave` to every peer in
/// `lazy_peers` except `exclude`.
pub fn lazy_push<Id: NodeId, P: Payload>(
    me: Id,
    lazy_peers: &[Id],
    exclude: Option<Id>,
    origin: Id,
    seq: MessageId,
) -> (actions: Vec<Action<Id, P>>)
    requires
        vstd::laws_eq::obeys_concrete_eq::<Id>(),
    ensures
        views(actions@) == lazy_sends::<Id, P>(me, lazy_peers@, exclude, origin, seq),
{
    let mut actions: Vec<Action<Id, P>> = Vec::new();
    let mut i: usize = 0;
    while i < lazy_peers.len()
        invariant
            vstd::laws_eq::obeys_concrete_eq::<Id>(),
            i <= lazy_peers@.len(),
            views(actions@) == lazy_sends::<Id, P>(me, lazy_peers@.take(i as int), exclude, origin, seq),
        decreases lazy_peers.len() - i,
    {
        let peer = lazy_peers[i];
        let ghost before = actions@;
        let ghost f = |p: Id| ActionView::<Id, P>::Send { to: p, msg: MessageView::IHave { origin, seq, sender: me } };
        proof {
            assert(lazy_peers@.take(i + 1) =~= lazy_peers@.take(i as int).push(peer));
            lemma_targets_push(lazy_peers@.take(i as int), peer, exclude);
            lemma_map_push(targets(lazy_peers@.take(i as int), exclude), peer, f);
        }
        if !is_excluded(peer, exclude) {
            let a = Action::Send { to: peer, msg: Message::IHave { origin, seq, sender: me } };
            actions.push(a);
            proof {
                lemma_views_push(before, a);
            }
        }
        i = i + 1;
    }
    proof {
        assert(lazy_peers@.take(lazy_peers@.len() as int) =~= lazy_peers@);
    }
    actions
}

/// Splitting a list by a predicate and then filtering both halves keeps every
/// element the filter keeps, exactly once.
pub proof fn lemma_filter_split_len<A>(
    a: Seq<A>,
    f1: spec_fn(A) -> bool,
    f2: spec_fn(A) -> bool,
    g: spec_fn(A) -> bool,
)
    requires
        forall|q: A| #[trigger] f1(q) == !f2(q),
    ensures
        a.filter(f1).filter(g).len() + a.filter(f2).filter(g).len() == a.filter(g).len(),
    decreases a.len(),
{
    if a.len() > 0 {
        let r = a.drop_last();
        let x = a.last();
        assert(a == r.push(x));
        lemma_filter_split_len(r, f1, f2, g);
        r.lemma_filter_push(x, f1);
        r.lemma_filter_push(x, f2);
        r.lemma_filter_push(x, g);
        r.filter(f1).lemma_filter_push(x, g);
        r.filter(f2).lemma_filter_push(x, g);
    } else {
        reveal(Seq::filter);
    }
}

/// Leaving one peer out of a duplicate-free list shortens it by one exactly
/// when the peer is in it.
pub proof fn lemma_targets_len<Id>(peers: Seq<Id>, x: Id)
    requires
        peers.no_duplicates(),
    ensures
        targets(peers, Some(x)).len() == peers.len() - if peers.contains(x) { 1int } else { 0int },
    decreases peers.len(),
{
    if peers.len() > 0 {
        let r = peers.drop_last();
        let y = peers.last();
        assert(peers == r.push(y));
        assert(r.no_duplicates());
        lemma_targets_len(r, x);
        lemma_targets_push(r, y, Some(x));
        assert(peers.contains(x) <==> (r.contains(x) || y == x)) by {
            if peers.contains(x) {
                let i = choose|i: int| 0 <= i < peers.len() && peers[i] == x;
                if i < r.len() {
                    assert(r[i] == x);
                }
            }
            if r.contains(x) {
                let i = choose|i: int| 0 <= i < r.len() && r[i] == x;
                assert(peers[i] == x);
            }
        }
        if y == x && r.contains(x) {
            let i = choose|i: int| 0 <= i < r.len() && r[i] == x;
            assert(peers[i] == peers[peers.len() - 1]);
        }
    } else {
        reveal(Seq::filter);
    }
}

/// The targets of a push are exactly the given peers other than `exclude`.
pub proof fn lemma_targets_contains<Id>(peers: Seq<Id>, exclude: Option<Id>)
    ensures
        forall|p: Id| #[trigger] targets(peers, exclude).contains(p) <==> (peers.contains(p) && exclude != Some(p)),
{
    let fx = |q: Id| exclude != Some(q);
    assert forall|p: Id| #[trigger] targets(peers, exclude).contains(p) <==> (peers.contains(p) && exclude != Some(p)) by {
        if targets(peers, exclude).contains(p) {
            peers.lemma_filter_contains_rev(fx, p);
            let j = choose|j: int| 0 <= j < peers.filter(fx).len() && peers.filter(fx)[j] == p;
            peers.lemma_filter_pred(fx, j);
        }
        if peers.contains(p) && exclude != Some(p) {
            let k = choose|k: int| 0 <= k < peers.len() && peers[k] == p;
            peers.lemma_filter_contains(fx, k);
        }
    }
}

} // verus!
