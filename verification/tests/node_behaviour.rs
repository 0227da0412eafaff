use std::time::Duration;
use white_lotus::broadcast::{forward, lazy_push};
use white_lotus::{Action, Config, Message, Node};

fn node_with(me: u32, peers: &[u32]) -> Node<u32, u64> {
    let mut node: Node<u32, u64> = Node::new(Config::new(me));
    for &p in peers {
        node.handle(Message::Join { new_node: p });
    }
    node
}

fn broadcast_targets(actions: &[Action<u32, u64>]) -> Vec<(u32, u32, u64)> {
    actions
        .iter()
        .filter_map(|a| match a {
            Action::Send { to, msg: Message::Broadcast { hop, seq, .. } } => Some((*to, *hop, *seq)),
            _ => None,
        })
        .collect()
}

fn ihave_targets(actions: &[Action<u32, u64>]) -> Vec<u32> {
    actions
        .iter()
        .filter_map(|a| match a {
            Action::Send { to, msg: Message::IHave { .. } } => Some(*to),
            _ => None,
        })
        .collect()
}

fn shuffle_reply_peers(node: &mut Node<u32, u64>, sent: Vec<u32>) -> Vec<u32> {
    let actions = node.handle(Message::Shuffle { origin: 50, sender: 51, ttl: 0, peers: sent });
    assert_eq!(actions.len(), 1);
    match &actions[0] {
        Action::Send { to, msg: Message::ShuffleReplay { peers } } => {
            assert_eq!(*to, 50);
            peers.clone()
        }
        _ => panic!("expected a shuffle reply"),
    }
}

#[test]
fn config_defaults() {
    let c = Config::new(7u32);
    assert_eq!(c.me, 7);
    assert_eq!(c.fanout, 3);
    assert_eq!(c.round_interval, Duration::from_secs(1));
    assert_eq!(c.max_rounds, 5);
    assert_eq!(c.passive_capacity, 30);
    assert_eq!(c.active_walk_length, 6);
    assert_eq!(c.passive_walk_length, 3);
    assert_eq!(c.graft_timeout, 100);
    assert_eq!(c.graft_retry_timeout, 50);
}

#[test]
fn new_broadcast_is_delivered_once_and_pushed_on() {
    let mut node = node_with(1, &[2, 3, 4]);
    let first = node.handle(Message::Broadcast { origin: 9, seq: 0, sender: 2, hop: 0, payload: 42 });
    assert!(matches!(first[0], Action::Deliver { payload: 42 }));
    // never echoed back to the sender; one hop further
    assert_eq!(broadcast_targets(&first), vec![(3, 1, 0), (4, 1, 0)]);
    let again = node.handle(Message::Broadcast { origin: 9, seq: 0, sender: 3, hop: 1, payload: 42 });
    assert!(!again.iter().any(|a| matches!(a, Action::Deliver { .. })));
    assert_eq!(again.len(), 1);
    assert!(matches!(again[0], Action::Send { to: 3, msg: Message::Prune { sender: 1 } }));
}

#[test]
fn pruned_peer_gets_announcements_not_payloads() {
    let mut node = node_with(1, &[2, 3]);
    node.handle(Message::Prune { sender: 3 });
    let actions = node.broadcast(5);
    assert_eq!(broadcast_targets(&actions), vec![(2, 1, 0)]);
    assert_eq!(ihave_targets(&actions), vec![3]);
    assert!(!actions.iter().any(|a| matches!(a, Action::Deliver { .. })));
}

#[test]
fn graft_makes_the_link_eager_again() {
    let mut node = node_with(1, &[2, 3]);
    node.handle(Message::Prune { sender: 3 });
    let answer = node.handle(Message::Graft { origin: 8, seq: 4, sender: 3 });
    assert!(answer.is_empty()); // nothing cached under (8, 4)
    let actions = node.broadcast(5);
    assert_eq!(broadcast_targets(&actions), vec![(2, 1, 0), (3, 1, 0)]);
    assert!(ihave_targets(&actions).is_empty());
}

#[test]
fn ihave_for_missing_message_promotes_the_announcer() {
    let mut node = node_with(1, &[2, 3]);
    node.handle(Message::Prune { sender: 2 });
    let actions = node.handle(Message::IHave { origin: 9, seq: 3, sender: 2 });
    assert_eq!(actions.len(), 1);
    assert!(matches!(actions[0], Action::Send { to: 2, msg: Message::Graft { origin: 9, seq: 3, sender: 1 } }));
    let out = node.broadcast(1);
    assert_eq!(broadcast_targets(&out), vec![(2, 1, 0), (3, 1, 0)]);
}

#[test]
fn broadcasts_get_fresh_sequence_numbers() {
    let mut node = node_with(1, &[2]);
    assert_eq!(node.next_seq(), 0);
    let a = node.broadcast(10);
    let b = node.broadcast(11);
    assert_eq!(node.next_seq(), 2);
    assert_eq!(broadcast_targets(&a), vec![(2, 1, 0)]);
    assert_eq!(broadcast_targets(&b), vec![(2, 1, 1)]);
    // our own broadcast counts as seen: announcements of it are ignored
    assert!(node.handle(Message::IHave { origin: 1, seq: 1, sender: 2 }).is_empty());
    // and it can be fetched back by a graft
    let g = node.handle(Message::Graft { origin: 1, seq: 0, sender: 2 });
    assert!(matches!(g[0], Action::Send { to: 2, msg: Message::Broadcast { payload: 10, hop: 0, origin: 1, seq: 0, sender: 1 } }));
}

#[test]
fn broadcast_at_hop_limit_is_delivered_but_not_forwarded() {
    let mut node = node_with(1, &[2, 3]);
    let actions = node.handle(Message::Broadcast { origin: 9, seq: 0, sender: 2, hop: 5, payload: 7 });
    assert_eq!(actions.len(), 1);
    assert!(matches!(actions[0], Action::Deliver { payload: 7 }));
    let below = node.handle(Message::Broadcast { origin: 9, seq: 1, sender: 2, hop: 4, payload: 7 });
    assert_eq!(broadcast_targets(&below), vec![(3, 5, 1)]);
}

#[test]
fn join_at_full_view_evicts_the_oldest_peer() {
    let mut node = node_with(1, &[2, 3, 4, 5]);
    let actions = node.handle(Message::Join { new_node: 6 });
    assert_eq!(actions.len(), 3);
    assert!(matches!(actions[0], Action::Connect { peer: 6 }));
    assert!(matches!(actions[1], Action::Send { to: 2, msg: Message::Disconnect { sender: 1 } }));
    assert!(matches!(actions[2], Action::Disconnect { peer: 2 }));
    // the evicted peer is kept as a backup
    assert_eq!(shuffle_reply_peers(&mut node, vec![20]), vec![2]);
    let out = node.broadcast(0);
    assert_eq!(broadcast_targets(&out), vec![(3, 1, 0), (4, 1, 0), (5, 1, 0), (6, 1, 0)]);
}

#[test]
fn disconnect_moves_peer_to_passive_view() {
    let mut node = node_with(1, &[2, 3]);
    let actions = node.handle(Message::Disconnect { sender: 2 });
    assert_eq!(actions.len(), 1);
    assert!(matches!(actions[0], Action::Disconnect { peer: 2 }));
    assert_eq!(shuffle_reply_peers(&mut node, vec![20, 21]), vec![2]);
    let out = node.broadcast(0);
    assert_eq!(broadcast_targets(&out), vec![(3, 1, 0)]);
}

#[test]
fn join_of_ourselves_adds_nothing() {
    let mut node = node_with(1, &[]);
    let actions = node.handle(Message::Join { new_node: 1 });
    assert!(matches!(actions[0], Action::Connect { peer: 1 }));
    assert!(node.broadcast(0).is_empty());
}

#[test]
fn forward_join_at_passive_walk_length_records_a_backup() {
    let mut node = node_with(1, &[2, 3]);
    let actions = node.handle(Message::ForwardJoin { new_node: 9, sender: 2, ttl: 3 });
    assert_eq!(actions.len(), 1);
    assert!(matches!(actions[0], Action::Send { to: 3, msg: Message::ForwardJoin { new_node: 9, sender: 1, ttl: 2 } }));
    assert_eq!(shuffle_reply_peers(&mut node, vec![20]), vec![9]);
}

#[test]
fn forward_join_with_only_the_sender_active_adopts() {
    let mut node = node_with(1, &[2]);
    let actions = node.handle(Message::ForwardJoin { new_node: 9, sender: 2, ttl: 4 });
    assert_eq!(actions.len(), 1);
    assert!(matches!(actions[0], Action::Connect { peer: 9 }));
    let out = node.broadcast(0);
    assert_eq!(broadcast_targets(&out), vec![(2, 1, 0), (9, 1, 0)]);
}

#[test]
fn neighbor_reply_accepted_connects_and_rejected_does_nothing() {
    let mut node = node_with(1, &[]);
    assert!(node.handle(Message::NeighborReply { sender: 4, accepted: false }).is_empty());
    let actions = node.handle(Message::NeighborReply { sender: 4, accepted: true });
    assert_eq!(actions.len(), 1);
    assert!(matches!(actions[0], Action::Connect { peer: 4 }));
}

#[test]
fn high_priority_neighbor_at_full_view_evicts() {
    let mut node = node_with(1, &[2, 3, 4, 5]);
    let actions = node.handle(Message::Neighbor { sender: 8, accepted: true });
    assert_eq!(actions.len(), 4);
    assert!(matches!(actions[0], Action::Send { to: 8, msg: Message::NeighborReply { sender: 1, accepted: true } }));
    assert!(matches!(actions[1], Action::Connect { peer: 8 }));
    assert!(matches!(actions[2], Action::Send { to: 2, msg: Message::Disconnect { sender: 1 } }));
    assert!(matches!(actions[3], Action::Disconnect { peer: 2 }));
}

#[test]
fn declined_neighbor_changes_nothing() {
    let mut node = node_with(1, &[2, 3, 4, 5]);
    let actions = node.handle(Message::Neighbor { sender: 8, accepted: false });
    assert_eq!(actions.len(), 1);
    assert!(matches!(actions[0], Action::Send { to: 8, msg: Message::NeighborReply { sender: 1, accepted: false } }));
    let out = node.broadcast(0);
    assert_eq!(broadcast_targets(&out), vec![(2, 1, 0), (3, 1, 0), (4, 1, 0), (5, 1, 0)]);
}

#[test]
fn shuffle_with_ttl_walks_on() {
    let mut node = node_with(1, &[2, 3]);
    let actions = node.handle(Message::Shuffle { origin: 5, sender: 2, ttl: 2, peers: vec![10] });
    assert_eq!(actions.len(), 1);
    match &actions[0] {
        Action::Send { to, msg: Message::Shuffle { origin, sender, ttl, peers } } => {
            assert_eq!((*to, *origin, *sender, *ttl), (3, 5, 1, 1));
            assert_eq!(peers, &vec![10]);
        }
        _ => panic!("expected the shuffle to walk on"),
    }
}

#[test]
fn shuffle_reply_and_passive_capacity() {
    let mut cfg = Config::new(1u32);
    cfg.passive_capacity = 2;
    let mut node: Node<u32, u64> = Node::new(cfg);
    assert!(node.handle(Message::ShuffleReplay { peers: vec![10, 11, 12, 1, 11] }).is_empty());
    // capacity 2: the oldest backup made room; ourselves and repeats are ignored
    assert_eq!(shuffle_reply_peers(&mut node, vec![30, 31, 32]), vec![11, 12]);
    // the shuffle's own peers were recorded afterwards
    assert_eq!(shuffle_reply_peers(&mut node, vec![40, 41]), vec![31, 32]);
    assert_eq!(shuffle_reply_peers(&mut node, vec![]), Vec::<u32>::new());
}

#[test]
fn forward_skips_the_excluded_peer() {
    let actions = forward(1u32, &[2, 3, 4], Some(3), 9, 6, 2, &77u64);
    assert_eq!(broadcast_targets(&actions), vec![(2, 3, 6), (4, 3, 6)]);
    assert!(actions.iter().all(|a| matches!(a, Action::Send { msg: Message::Broadcast { payload: 77, origin: 9, sender: 1, .. }, .. })));
    let none = forward(1u32, &[2, 3], None, 9, 6, 0, &77u64);
    assert_eq!(broadcast_targets(&none), vec![(2, 1, 6), (3, 1, 6)]);
    let l: Vec<Action<u32, u64>> = lazy_push(1u32, &[2, 3], Some(2), 9, 6);
    assert_eq!(ihave_targets(&l), vec![3]);
}

#[test]
fn membership_messages_are_not_delivered() {
    let mut node = node_with(1, &[2]);
    for msg in [
        Message::Prune { sender: 2 },
        Message::ShuffleReplay { peers: vec![5] },
        Message::NeighborReply { sender: 6, accepted: false },
    ] {
        assert!(!node.handle(msg).iter().any(|a| matches!(a, Action::Deliver { .. })));
    }
}
