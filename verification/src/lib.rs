//! A doubly linked chain of nodes in which the forward link owns its successor
//! and the backward link only observes its predecessor.
//!
//! Nodes live in a [`NodeArena`]. An owning handle ([`NodeRef`]) keeps its node
//! alive until it is given back with [`NodeArena::release`]; so does the
//! forward link of a live predecessor. An observer ([`WeakRef`]) does not, and
//! resolves to nothing once the node is gone. A chain is started with
//! [`PartitionNode::new`] and grown with [`PartitionNode::append`].
//!
//! [`model`] holds the mathematical model that the contracts speak of,
//! [`upkeep`] the proofs that every operation keeps the arena's invariant, and
//! [`laws`] what follows for chains: links are symmetric, walks end, a chain
//! reads backward as the reverse of forward, and a dropped predecessor is
//! deallocated whoever still observes it.

pub mod laws;
pub mod model;
pub mod node;
pub mod upkeep;

pub use model::{ArenaView, NodeView};
pub use node::{NodeArena, NodeRef, PartitionNode, WeakRef};
