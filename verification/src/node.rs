use vstd::prelude::*;

verus! {

/// Whether a node is taken to be reachable.
#[derive(Clone, Copy, Debug, PartialEq, Eq, Structural)]
pub enum NodeState {
    On,
    Off,
}

/// A known member of the cluster: its identity, its liveness, and whether it
/// was configured as a seed or discovered later.
pub struct RawNode<T> {
    pub state: NodeState,
    pub seed: bool,
    pub raw: T,
}

impl<T> RawNode<T> {
    /// A node that was configured as a seed; it starts out reachable.
    pub fn seed(raw: T) -> (node: Self)
        ensures
            node == (RawNode { state: NodeState::On, seed: true, raw }),
    {
        RawNode { state: NodeState::On, seed: true, raw }
    }
}

} // verus!
