//! Reconciliation core of a gossip (anti-entropy) protocol: versioned
//! key-value stores, the diff between a store and a peer's version summary,
//! peer selection, and the three-step exchange that makes up one round.

pub mod diff;
pub mod error;
pub mod gossip;
pub mod keyed;
pub mod node;
pub mod select;
pub mod store;
pub mod versioned;

pub use crate::diff::{compute_diff, Diff};
pub use crate::error::{GossipErr, GossipErrKind};
pub use crate::gossip::{Gossip, GossipHandler};
pub use crate::node::{NodeState, RawNode};
pub use crate::select::{choose_nodes, exclude_local, select_peers};
pub use crate::store::{Store, VersionSummary};
pub use crate::versioned::{Versioned, VersionedValue};
