use vstd::prelude::*;
use vstd::std_specs::cmp::PartialEqSpec;
use crate::error::{GossipErr, GossipErrKind};
use crate::keyed::lemma_filter_step;
use crate::node::RawNode;

verus! {

/// The nodes behind a list of references.
pub open spec fn targets<T>(refs: Seq<&RawNode<T>>) -> Seq<RawNode<T>> {
    Seq::new(refs.len(), |i: int| *refs[i])
}

/// Whether a node's identity differs from `local`.
pub open spec fn is_remote<N: PartialEq>(local: N) -> spec_fn(RawNode<N>) -> bool {
    |node: RawNode<N>| !node.raw.eq_spec(&local)
}

/// The known nodes other than the local one, in their order.
pub open spec fn peers_of<N: PartialEq>(nodes: Seq<RawNode<N>>, local: N) -> Seq<RawNode<N>> {
    nodes.filter(is_remote(local))
}

/// `chosen` holds the candidates at the positions `picks`, one for one, and
/// no position is picked twice.
pub open spec fn drawn_from<T>(
    chosen: Seq<&RawNode<T>>,
    candidates: Seq<&RawNode<T>>,
    picks: Seq<usize>,
) -> bool {
    &&& picks.len() == chosen.len()
    &&& picks.no_duplicates()
    &&& forall|i: int|
        0 <= i < picks.len() ==> (#[trigger] picks[i]) < candidates.len() && chosen[i]
            == candidates[picks[i] as int]
}

/// The size of a sample of `amount` out of `available`.
pub open spec fn sample_size(available: nat, amount: nat) -> nat {
    if amount < available {
        amount
    } else {
        available
    }
}

/// The known nodes without the local one: every node whose identity does not
/// compare equal to `local`, in the order of `nodes`.
pub fn exclude_local<'a, N: PartialEq>(nodes: &'a Vec<RawNode<N>>, local: &N) -> (r: Vec<
    &'a RawNode<N>,
>)
    ensures
        r@.len() <= nodes@.len(),
        forall|i: int| 0 <= i < r@.len() ==> nodes@.contains(*#[trigger] r@[i]),
        N::obeys_eq_spec() ==> targets(r@) == peers_of(nodes@, *local),
        N::obeys_eq_spec() ==> forall|i: int|
            0 <= i < r@.len() ==> !(#[trigger] r@[i]).raw.eq_spec(local),
{
    let mut out: Vec<&'a RawNode<N>> = Vec::new();
    let ghost remote = is_remote(*local);
    proof {
        reveal(Seq::filter);
        assert(nodes@.take(0).filter(remote) =~= targets(out@));
    }
    let mut i: usize = 0;
    while i < nodes.len()
        invariant
            remote == is_remote(*local),
            i <= nodes@.len(),
            out@.len() <= i,
            forall|j: int| 0 <= j < out@.len() ==> nodes@.contains(*#[trigger] out@[j]),
            N::obeys_eq_spec() ==> targets(out@) == nodes@.take(i as int).filter(remote),
            N::obeys_eq_spec() ==> forall|j: int|
                0 <= j < out@.len() ==> !(#[trigger] out@[j]).raw.eq_spec(local),
        decreases nodes@.len() - i,
    {
        let node = &nodes[i];
        let ghost before = out@;
        if node.raw.ne(local) {
            out.push(node);
        }
        proof {
            lemma_filter_step(nodes@, i as int, remote);
            if N::obeys_eq_spec() {
                if remote(nodes@[i as int]) {
                    assert(targets(out@) =~= targets(before).push(nodes@[i as int]));
                } else {
                    assert(targets(out@) =~= targets(before));
                }
            }
        }
        i += 1;
    }
    proof {
        assert(nodes@.take(i as int) =~= nodes@);
    }
    out
}

/// A selection drawn from the known nodes without the local one never
/// holds the local node: every chosen node is a known node whose identity
/// differs from the local one, and there are no more of them than peers.
pub proof fn lemma_selection_excludes_local<N: PartialEq>(
    nodes: Seq<RawNode<N>>,
    local: N,
    candidates: Seq<&RawNode<N>>,
    chosen: Seq<&RawNode<N>>,
    picks: Seq<usize>,
)
    requires
        targets(candidates) == peers_of(nodes, local),
        drawn_from(chosen, candidates, picks),
    ensures
        chosen.len() <= peers_of(nodes, local).len(),
        forall|i: int|
            0 <= i < chosen.len() ==> nodes.contains(*#[trigger] chosen[i]) && !chosen[i].raw.eq_spec(
                &local,
            ),
{
    let peers = peers_of(nodes, local);
    assert forall|i: int| 0 <= i < chosen.len() implies nodes.contains(*#[trigger] chosen[i])
        && !chosen[i].raw.eq_spec(&local) by {
        let p = picks[i] as int;
        assert(*chosen[i] == targets(candidates)[p]);
        nodes.lemma_filter_pred(is_remote(local), p);
        assert(peers.contains(peers[p]));
        nodes.lemma_filter_contains_rev(is_remote(local), peers[p]);
    }
    assert(picks.len() <= candidates.len()) by {
        let n: nat = if candidates.len() <= usize::MAX {
            candidates.len()
        } else {
            (usize::MAX + 1) as nat
        };
        let positions = Set::new(|p: usize| p < n);
        lemma_positions_below(n);
        assert(picks.to_set().subset_of(positions)) by {
            assert forall|p: usize| picks.to_set().contains(p) implies positions.contains(p) by {
                let i = choose|i: int| 0 <= i < picks.len() && picks[i] == p;
                assert(picks[i] < candidates.len());
            }
        }
        picks.unique_seq_to_set();
        vstd::set_lib::lemma_len_subset(picks.to_set(), positions);
    }
}

/// There are exactly `n` positions below `n`.
proof fn lemma_positions_below(n: nat)
    requires
        n <= usize::MAX + 1,
    ensures
        Set::new(|p: usize| p < n).finite(),
        Set::new(|p: usize| p < n).len() == n,
    decreases n,
{
    let below = Set::new(|p: usize| p < n);
    if n == 0 {
        assert(below =~= Set::<usize>::empty());
    } else {
        let fewer = Set::new(|p: usize| p < n - 1);
        lemma_positions_below((n - 1) as nat);
        assert(below =~= fewer.insert((n - 1) as usize));
    }
}

/// The candidates at the given positions, in the order of `picks`.
pub fn choose_nodes<'a, T>(candidates: &Vec<&'a RawNode<T>>, picks: &Vec<usize>) -> (r: Vec<
    &'a RawNode<T>,
>)
    requires
        forall|i: int| 0 <= i < picks@.len() ==> (#[trigger] picks@[i]) < candidates@.len(),
    ensures
        r@.len() == picks@.len(),
        forall|i: int| 0 <= i < r@.len() ==> #[trigger] r@[i] == candidates@[picks@[i] as int],
{
    let mut out: Vec<&'a RawNode<T>> = Vec::new();
    let mut i: usize = 0;
    while i < picks.len()
        invariant
            i <= picks@.len(),
            out@.len() == i,
            forall|j: int| 0 <= j < picks@.len() ==> (#[trigger] picks@[j]) < candidates@.len(),
            forall|j: int| 0 <= j < i ==> #[trigger] out@[j] == candidates@[picks@[j] as int],
        decreases picks@.len() - i,
    {
        out.push(candidates[picks[i]]);
        i += 1;
    }
    out
}

/// Draws `amount` positions of `candidates` at random: `rand::seq::sample_iter`
/// over the range of its positions, fed by `rand::thread_rng`.
///
/// Believed of that call, not proved: with at least `amount` positions to
/// draw from it gives `Ok` with exactly `amount` of them, none twice; with
/// fewer it would give `Err` with all of them in rising order. It allocates
/// room for `amount` positions, which is no more than `candidates` already
/// holds. The generator is the thread's own, seeded by the system.
#[verifier::external_body]
fn sample_positions<T>(candidates: &Vec<&RawNode<T>>, amount: usize) -> (r: Result<
    Vec<usize>,
    Vec<usize>,
>)
    requires
        amount <= candidates@.len(),
    ensures
        match r {
            Ok(picks) => {
                &&& amount <= candidates@.len()
                &&& picks@.len() == amount
                &&& picks@.no_duplicates()
                &&& forall|i: int|
                    0 <= i < picks@.len() ==> (#[trigger] picks@[i]) < candidates@.len()
            },
            Err(all) => {
                &&& candidates@.len() < amount
                &&& all@.len() == candidates@.len()
                &&& forall|i: int| 0 <= i < all@.len() ==> (#[trigger] all@[i]) == i
            },
        },
{
    rand::seq::sample_iter(&mut rand::thread_rng(), 0..candidates.len(), amount)
}

/// Picks gossip targets at random, without replacement: `amount` of the
/// candidates, or all of them where there are fewer. With no candidate at
/// all there is nobody to pick, and that is the one error.
///
/// Which candidates are picked is up to chance; whatever the draw, every
/// target is one of the candidates and none is picked twice.
pub fn select_peers<'a, T>(candidates: Vec<&'a RawNode<T>>, amount: usize) -> (r: Result<
    Vec<&'a RawNode<T>>,
    GossipErr,
>)
    ensures
        r is Err <==> candidates@.len() == 0,
        r matches Err(e) ==> e.kind == GossipErrKind::NoPeersAvailable,
        r matches Ok(chosen) ==> {
            &&& chosen@.len() == sample_size(candidates@.len(), amount as nat)
            &&& chosen@.len() <= amount
            &&& chosen@.len() <= candidates@.len()
            &&& exists|picks: Seq<usize>| drawn_from(chosen@, candidates@, picks)
        },
{
    if candidates.len() == 0 {
        return Err(GossipErr::no_peers());
    }
    let take = if amount < candidates.len() {
        amount
    } else {
        candidates.len()
    };
    match sample_positions(&candidates, take) {
        Ok(picks) => {
            let chosen = choose_nodes(&candidates, &picks);
            proof {
                assert(drawn_from(chosen@, candidates@, picks@));
            }
            Ok(chosen)
        },
        Err(_) => Err(GossipErr::no_peers()),
    }
}

} // verus!
