use vstd::prelude::*;

pub mod config;
pub mod gossip;
pub mod laws;
pub mod listset;
pub mod membership;
pub mod message;
pub mod action;
pub mod broadcast;

verus! {

/// A peer's name; stands in for the node's public key.
pub trait NodeId: Copy + Eq + Ord + core::hash::Hash {}

impl<T: Copy + Eq + Ord + core::hash::Hash> NodeId for T {}

/// What is gossiped: an opaque payload such as a file-hash announcement.
pub trait Payload: Clone {}

impl<T: Clone> Payload for T {}

} // verus!

pub use action::Action;
pub use config::Config;
pub use gossip::Node;
pub use message::{Message, MessageId};
