# white_lotus

A gossip node for peer-to-peer announcements: HyParView membership (a small
active view of connected peers, a larger passive view of backups) under a
Plumtree broadcast layer (eager push along a spanning tree, lazy `IHave`
announcements on pruned links, `Graft` to heal gaps).

The node is a pure state machine: `Node::handle` and `Node::broadcast` take an
event and return the `Action`s the host should carry out (send, connect,
disconnect, deliver). The library is verified with Verus.

- `src/message.rs`, `src/action.rs`: the wire format and the actions, with
  their mathematical views.
- `src/membership.rs`: the HyParView views, their invariants and the
  membership state machine (`MembershipView::step`).
- `src/broadcast.rs`: eager and lazy pushes.
- `src/gossip.rs`: the node; `handle_post` and `broadcast_post` state exactly
  what handling an event does.
- `src/laws.rs`: properties proved from those contracts (each broadcast is
  delivered at most once, never echoed to its sender, bounded hops, a graft
  returns what was delivered, ...).
- `src/listset.rs`: ordered lists used as sets and the payload cache.
- `app/main.rs`: a TCP host that runs one node, exchanging JSON lines.
