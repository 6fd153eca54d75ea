use vstd::prelude::*;
use vstd::std_specs::cmp::PartialEqSpec;
use crate::diff::{compute_diff, is_diff_of, Diff};
use crate::error::{GossipErr, GossipErrKind};
use crate::node::{NodeState, RawNode};
use crate::select::{drawn_from, exclude_local, peers_of, select_peers, targets};
use crate::store::{lemma_merged_all_monotone, merged_all, with_keys, Store, VersionSummary};
use crate::versioned::Versioned;

verus! {

/// The transport that carries a round to a peer and back. The engine calls
/// it; what it returns is up to the peer and the network, so nothing is
/// promised of its results. Of an error the engine keeps only that it
/// occurred: the round's own error says in which step.
pub trait GossipHandler<T, V: Versioned + Clone> {
    /// Chooses the peers of this round among the known nodes other than the
    /// local one. An implementation may choose as it sees fit.
    ///
    /// Unless it decides otherwise, one peer is drawn at random: the choice
    /// fails exactly if there is no node to choose from, and else gives one
    /// of the given nodes, whichever the draw picked.
    fn select_nodes<'a>(&self, nodes: Vec<&'a RawNode<T>>) -> (r: Result<
        Vec<&'a RawNode<T>>,
        GossipErr,
    >)
        default_ensures
            r is Err <==> nodes@.len() == 0,
            r matches Err(e) ==> e.kind == GossipErrKind::NoPeersAvailable,
            r matches Ok(chosen) ==> {
                &&& chosen@.len() == 1
                &&& exists|picks: Seq<usize>| drawn_from(chosen@, nodes@, picks)
            },
    {
        select_peers(nodes, 1)
    }

    /// Sends the local version summary to the chosen peers and returns the
    /// diff that the peer computed from its own store against it.
    fn syn(&self, nodes: Vec<&RawNode<T>>, versions: VersionSummary) -> (r: Result<
        Diff<V>,
        GossipErr,
    >)
        requires
            versions.wf(),
    ;

    /// Delivers to the peer the values it asked for.
    fn ack(&self, updates: Vec<(String, &V)>) -> (r: Result<(), GossipErr>);
}

/// One node's gossip engine: its store, the nodes it knows, and its own
/// identity.
pub struct Gossip<N, V: Versioned + Clone> {
    pub data: Store<V>,
    pub nodes: Vec<RawNode<N>>,
    pub local_node: N,
}

impl<N: PartialEq, V: Versioned + Clone> Gossip<N, V> {
    /// Whether no node but the local one is known. Where the equality of `N`
    /// is not specified, this is only known of an empty node list.
    pub open spec fn has_no_peers(&self) -> bool {
        self.nodes@.len() == 0 || (N::obeys_eq_spec() && peers_of(
            self.nodes@,
            self.local_node,
        ).len() == 0)
    }

    /// An engine with an empty store that knows the given seeds, in their
    /// order, each as a reachable seed node.
    pub fn new(local_node: N, seeds: Vec<N>) -> (g: Gossip<N, V>)
        ensures
            g.data.wf(),
            g.data@ == Map::<Seq<char>, V>::empty(),
            g.data.keys() == Seq::<Seq<char>>::empty(),
            g.local_node == local_node,
            g.nodes@.len() == seeds@.len(),
            forall|i: int|
                0 <= i < seeds@.len() ==> #[trigger] g.nodes@[i] == (RawNode {
                    state: NodeState::On,
                    seed: true,
                    raw: seeds@[i],
                }),
    {
        let ghost all = seeds@;
        let mut nodes: Vec<RawNode<N>> = Vec::new();
        for raw in it: seeds.into_iter()
            invariant
                it.seq() == all,
                nodes@.len() == it.index(),
                forall|i: int|
                    0 <= i < nodes@.len() ==> #[trigger] nodes@[i] == (RawNode {
                        state: NodeState::On,
                        seed: true,
                        raw: all[i],
                    }),
        {
            nodes.push(RawNode::seed(raw));
        }
        Gossip { data: Store::new(), nodes, local_node }
    }

    /// The first half of a round: picks the peers among the known nodes other
    /// than the local one, takes a snapshot of the store's versions and sends
    /// it. The engine is not changed, whatever the outcome.
    ///
    /// With no peer to pick the round ends here, before the transport is
    /// called. An error is either that no peer could be selected or that the
    /// exchange failed.
    pub fn open_round(&self, handler: &dyn GossipHandler<N, V>) -> (r: Result<Diff<V>, GossipErr>)
        requires
            self.data.wf(),
        ensures
            self.has_no_peers() ==> (r matches Err(e) && e.kind
                == GossipErrKind::NoPeersAvailable),
            r matches Err(e) ==> e.kind != GossipErrKind::AckFailed,
    {
        let remote_nodes = exclude_local(&self.nodes, &self.local_node);
        if remote_nodes.len() == 0 {
            return Err(GossipErr::no_peers());
        }
        proof {
            if N::obeys_eq_spec() {
                assert(targets(remote_nodes@).len() == remote_nodes@.len());
            }
        }
        let selected = match handler.select_nodes(remote_nodes) {
            Ok(selected) => selected,
            Err(_) => {
                return Err(GossipErr::no_peers());
            },
        };
        let versions = self.data.snapshot();
        match handler.syn(selected, versions) {
            Ok(diff) => Ok(diff),
            Err(_) => Err(GossipErr::syn_failed()),
        }
    }

    /// The second half of a round: merges the peer's changes into the store,
    /// then looks up what the peer needs in the store as it is after the
    /// merge, and sends it. A needed key that the store does not hold is
    /// passed over.
    ///
    /// Whether the values could be delivered is up to the transport. The
    /// merge stands either way.
    pub fn close_round(&mut self, handler: &dyn GossipHandler<N, V>, diff: Diff<V>) -> (r: Result<
        (),
        GossipErr,
    >)
        requires
            old(self).data.wf(),
        ensures
            final(self).data.wf(),
            final(self).data@ == merged_all(old(self).data@, diff.changes@),
            final(self).data.keys() == with_keys(old(self).data.keys(), diff.changes@),
            final(self).nodes == old(self).nodes,
            final(self).local_node == old(self).local_node,
            r matches Err(e) ==> e.kind == GossipErrKind::AckFailed,
    {
        let Diff { needs, changes } = diff;
        self.data.merge_all(changes);
        let updates = self.data.resolve(needs);
        match handler.ack(updates) {
            Ok(()) => Ok(()),
            Err(_) => Err(GossipErr::ack_failed()),
        }
    }

    /// Runs one round with a peer: select, send the version summary, merge
    /// the changes that come back, and answer with the values the peer needs.
    ///
    /// With no peer known the round fails at once. A round that fails before
    /// the peer's diff has arrived leaves the store as it was. Otherwise the
    /// store has been through the merges of that diff, whether or not the
    /// answer could be delivered: no key is lost and no version has gone
    /// down.
    pub fn gossip(&mut self, handler: &dyn GossipHandler<N, V>) -> (r: Result<(), GossipErr>)
        requires
            old(self).data.wf(),
        ensures
            final(self).data.wf(),
            final(self).nodes == old(self).nodes,
            final(self).local_node == old(self).local_node,
            old(self).has_no_peers() ==> (r matches Err(e) && e.kind
                == GossipErrKind::NoPeersAvailable),
            (r matches Err(e) && e.kind != GossipErrKind::AckFailed) ==> final(self).data
                == old(self).data,
            exists|changes: Seq<(String, V)>|
                final(self).data@ == #[trigger] merged_all(old(self).data@, changes)
                    && final(self).data.keys() == with_keys(old(self).data.keys(), changes),
            forall|k: Seq<char>| #[trigger]
                old(self).data@.dom().contains(k) ==> final(self).data@.dom().contains(k)
                    && final(self).data@[k].version_spec() >= old(self).data@[k].version_spec(),
    {
        let ghost before = self.data@;
        let ghost keys_before = self.data.keys();
        match self.open_round(handler) {
            Ok(diff) => {
                proof {
                    lemma_merged_all_monotone(before, diff.changes@);
                }
                self.close_round(handler, diff)
            },
            Err(e) => {
                proof {
                    let none = Seq::<(String, V)>::empty();
                    assert(merged_all(before, none) == before);
                    assert(with_keys(keys_before, none) == keys_before);
                }
                Err(e)
            },
        }
    }

    /// Answers a peer's version summary: the diff of the local store against
    /// it. The engine is not changed.
    pub fn receiving_syn(&mut self, versions: VersionSummary) -> (d: Diff<V>)
        requires
            old(self).data.wf(),
            versions.wf(),
        ensures
            *final(self) == *old(self),
            is_diff_of(d, old(self).data, versions),
    {
        compute_diff(&self.data, &versions)
    }
}

} // verus!
