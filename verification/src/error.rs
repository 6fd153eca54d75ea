use vstd::prelude::*;

verus! {

/// Where a gossip round ended without completing.
#[derive(Clone, Copy, Debug, PartialEq, Eq, Structural)]
pub enum GossipErrKind {
    /// No peer could be selected: there is nobody to gossip with. Nothing
    /// was sent and the store is untouched.
    NoPeersAvailable,
    /// The transport failed while the version summary was sent or the diff
    /// awaited. The store is untouched.
    SynFailed,
    /// The transport failed while the peer's needs were answered. What was
    /// merged before stays merged.
    AckFailed,
}

/// The error of a gossip round. Every such failure is confined to its round:
/// the next round starts afresh.
#[derive(Clone, Copy, Debug, PartialEq, Eq, Structural)]
pub struct GossipErr {
    pub kind: GossipErrKind,
}

impl GossipErr {
    /// The error of a round that found no peer.
    pub fn no_peers() -> (e: Self)
        ensures
            e.kind == GossipErrKind::NoPeersAvailable,
    {
        GossipErr { kind: GossipErrKind::NoPeersAvailable }
    }

    /// The error of a round that failed while sending its summary.
    pub fn syn_failed() -> (e: Self)
        ensures
            e.kind == GossipErrKind::SynFailed,
    {
        GossipErr { kind: GossipErrKind::SynFailed }
    }

    /// The error of a round that failed while answering the peer's needs.
    pub fn ack_failed() -> (e: Self)
        ensures
            e.kind == GossipErrKind::AckFailed,
    {
        GossipErr { kind: GossipErrKind::AckFailed }
    }
}

} // verus!
