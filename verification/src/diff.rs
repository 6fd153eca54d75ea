use vstd::prelude::*;
use crate::keyed::{key_seq, lemma_filter_step, texts};
use crate::store::{
    lemma_merged_all_covers, lemma_merged_all_monotone, merged_all, versions_of, Store,
    VersionSummary,
};
use crate::versioned::Versioned;

verus! {

/// What one side found by comparing its store with a peer's version
/// summary: the keys it needs from the peer, and the entries it can supply.
pub struct Diff<V> {
    /// Keys that the comparing side lacks or holds in an older version.
    pub needs: Vec<String>,
    /// Entries that the comparing side holds alone or in a newer version.
    pub changes: Vec<(String, V)>,
}

/// Both sides know `k`, and the peer's version is greater.
pub open spec fn is_stale<V: Versioned>(
    local: Map<Seq<char>, V>,
    remote: Map<Seq<char>, i64>,
    k: Seq<char>,
) -> bool {
    local.dom().contains(k) && remote.dom().contains(k) && remote[k] > local[k].version_spec()
}

/// The local side knows `k`, and the peer does not or has a smaller version.
pub open spec fn is_ahead<V: Versioned>(
    local: Map<Seq<char>, V>,
    remote: Map<Seq<char>, i64>,
    k: Seq<char>,
) -> bool {
    local.dom().contains(k) && (!remote.dom().contains(k) || remote[k] < local[k].version_spec())
}

/// The peer knows `k`, and the local side does not.
pub open spec fn is_unseen<V: Versioned>(
    local: Map<Seq<char>, V>,
    remote: Map<Seq<char>, i64>,
    k: Seq<char>,
) -> bool {
    remote.dom().contains(k) && !local.dom().contains(k)
}

/// `is_stale` as a predicate on keys.
pub open spec fn stale_in<V: Versioned>(
    local: Map<Seq<char>, V>,
    remote: Map<Seq<char>, i64>,
) -> spec_fn(Seq<char>) -> bool {
    |k: Seq<char>| is_stale(local, remote, k)
}

/// `is_ahead` as a predicate on keys.
pub open spec fn ahead_in<V: Versioned>(
    local: Map<Seq<char>, V>,
    remote: Map<Seq<char>, i64>,
) -> spec_fn(Seq<char>) -> bool {
    |k: Seq<char>| is_ahead(local, remote, k)
}

/// `is_unseen` as a predicate on keys.
pub open spec fn unseen_in<V: Versioned>(
    local: Map<Seq<char>, V>,
    remote: Map<Seq<char>, i64>,
) -> spec_fn(Seq<char>) -> bool {
    |k: Seq<char>| is_unseen(local, remote, k)
}

/// The keys that the local side needs: its stale keys in its own order,
/// then the peer's keys that it has never seen, in the peer's order.
pub open spec fn needed_keys<V: Versioned>(
    local_keys: Seq<Seq<char>>,
    local: Map<Seq<char>, V>,
    remote_keys: Seq<Seq<char>>,
    remote: Map<Seq<char>, i64>,
) -> Seq<Seq<char>> {
    local_keys.filter(stale_in(local, remote)) + remote_keys.filter(unseen_in(local, remote))
}

/// The keys of the entries that the local side can supply, in its own order.
pub open spec fn changed_keys<V: Versioned>(
    local_keys: Seq<Seq<char>>,
    local: Map<Seq<char>, V>,
    remote: Map<Seq<char>, i64>,
) -> Seq<Seq<char>> {
    local_keys.filter(ahead_in(local, remote))
}

/// `d` is the diff of the store `local` against the summary `remote`: its
/// needed keys and the keys of its entries are those that the two key
/// orders and maps give, and each entry carries a copy of the local value.
pub open spec fn is_diff_of<V: Versioned + Clone>(
    d: Diff<V>,
    local: Store<V>,
    remote: VersionSummary,
) -> bool {
    &&& texts(d.needs@) == needed_keys(local.keys(), local@, remote.keys(), remote@)
    &&& key_seq(d.changes@) == changed_keys(local.keys(), local@, remote@)
    &&& forall|i: int|
        0 <= i < d.changes@.len() ==> local@.dom().contains((#[trigger] d.changes@[i]).0@)
            && cloned::<V>(local@[d.changes@[i].0@], d.changes@[i].1)
}

/// A key is in a filtered list exactly if it is in the list and passes.
proof fn lemma_filter_member<A>(s: Seq<A>, pred: spec_fn(A) -> bool, x: A)
    ensures
        s.filter(pred).contains(x) <==> s.contains(x) && pred(x),
{
    let kept = s.filter(pred);
    if kept.contains(x) {
        let i = choose|i: int| 0 <= i < kept.len() && kept[i] == x;
        s.lemma_filter_pred(pred, i);
        s.lemma_filter_contains_rev(pred, x);
    }
    if s.contains(x) && pred(x) {
        let i = choose|i: int| 0 <= i < s.len() && s[i] == x;
        s.lemma_filter_contains(pred, i);
    }
}

/// Which keys a diff lists, given key lists that cover the two maps: a key
/// is needed exactly if it is stale or unseen, and supplied exactly if the
/// local side is ahead on it.
pub proof fn lemma_diff_members<V: Versioned>(
    local_keys: Seq<Seq<char>>,
    local: Map<Seq<char>, V>,
    remote_keys: Seq<Seq<char>>,
    remote: Map<Seq<char>, i64>,
    k: Seq<char>,
)
    requires
        forall|x: Seq<char>| local.dom().contains(x) <==> local_keys.contains(x),
        forall|x: Seq<char>| remote.dom().contains(x) <==> remote_keys.contains(x),
    ensures
        needed_keys(local_keys, local, remote_keys, remote).contains(k) <==> is_stale(
            local,
            remote,
            k,
        ) || is_unseen(local, remote, k),
        changed_keys(local_keys, local, remote).contains(k) <==> is_ahead(local, remote, k),
{
    let stale = local_keys.filter(stale_in(local, remote));
    let unseen = remote_keys.filter(unseen_in(local, remote));
    lemma_filter_member(local_keys, stale_in(local, remote), k);
    lemma_filter_member(remote_keys, unseen_in(local, remote), k);
    lemma_filter_member(local_keys, ahead_in(local, remote), k);
    let both = stale + unseen;
    if stale.contains(k) {
        let i = choose|i: int| 0 <= i < stale.len() && stale[i] == k;
        assert(both[i] == k);
    }
    if unseen.contains(k) {
        let i = choose|i: int| 0 <= i < unseen.len() && unseen[i] == k;
        assert(both[stale.len() + i] == k);
    }
    if both.contains(k) {
        let i = choose|i: int| 0 <= i < both.len() && both[i] == k;
        if i < stale.len() {
            assert(stale[i] == k);
        } else {
            assert(unseen[i - stale.len()] == k);
        }
    }
}

/// A key that only one side knows is listed exactly once: supplied if the
/// local side knows it, needed if the peer does.
pub proof fn lemma_diff_complete<V: Versioned>(
    local_keys: Seq<Seq<char>>,
    local: Map<Seq<char>, V>,
    remote_keys: Seq<Seq<char>>,
    remote: Map<Seq<char>, i64>,
    k: Seq<char>,
)
    requires
        forall|x: Seq<char>| local.dom().contains(x) <==> local_keys.contains(x),
        forall|x: Seq<char>| remote.dom().contains(x) <==> remote_keys.contains(x),
        local.dom().contains(k) != remote.dom().contains(k),
    ensures
        changed_keys(local_keys, local, remote).contains(k) != needed_keys(
            local_keys,
            local,
            remote_keys,
            remote,
        ).contains(k),
        changed_keys(local_keys, local, remote).contains(k) <==> local.dom().contains(k),
        needed_keys(local_keys, local, remote_keys, remote).contains(k) <==> remote.dom().contains(
            k,
        ),
{
    lemma_diff_members(local_keys, local, remote_keys, remote, k);
}

/// A key that both sides know is needed exactly if the peer's version is
/// greater, supplied exactly if it is smaller, and in neither list if the
/// versions are equal.
pub proof fn lemma_diff_shared<V: Versioned>(
    local_keys: Seq<Seq<char>>,
    local: Map<Seq<char>, V>,
    remote_keys: Seq<Seq<char>>,
    remote: Map<Seq<char>, i64>,
    k: Seq<char>,
)
    requires
        forall|x: Seq<char>| local.dom().contains(x) <==> local_keys.contains(x),
        forall|x: Seq<char>| remote.dom().contains(x) <==> remote_keys.contains(x),
        local.dom().contains(k),
        remote.dom().contains(k),
    ensures
        needed_keys(local_keys, local, remote_keys, remote).contains(k) <==> remote[k]
            > local[k].version_spec(),
        changed_keys(local_keys, local, remote).contains(k) <==> remote[k]
            < local[k].version_spec(),
{
    lemma_diff_members(local_keys, local, remote_keys, remote, k);
}

/// One exchange brings the receiver up to the sender. If the sender
/// supplies the entries on which it is ahead of the receiver's summary, each
/// with the version that the sender holds, then after merging them the
/// receiver holds every key of the sender, in a version that is at least the
/// sender's.
pub proof fn lemma_merge_catches_up<V: Versioned>(
    receiver: Map<Seq<char>, V>,
    sender_keys: Seq<Seq<char>>,
    sender: Map<Seq<char>, V>,
    changes: Seq<(String, V)>,
)
    requires
        forall|x: Seq<char>| sender.dom().contains(x) <==> sender_keys.contains(x),
        key_seq(changes) == changed_keys(sender_keys, sender, versions_of(receiver)),
        forall|i: int|
            0 <= i < changes.len() ==> (#[trigger] changes[i]).1.version_spec()
                == sender[changes[i].0@].version_spec(),
    ensures
        forall|k: Seq<char>| #[trigger]
            sender.dom().contains(k) ==> merged_all(receiver, changes).dom().contains(k)
                && merged_all(receiver, changes)[k].version_spec() >= sender[k].version_spec(),
{
    let summary = versions_of(receiver);
    let after = merged_all(receiver, changes);
    lemma_merged_all_covers(receiver, changes);
    lemma_merged_all_monotone(receiver, changes);
    assert forall|k: Seq<char>| #[trigger] sender.dom().contains(k) implies after.dom().contains(k)
        && after[k].version_spec() >= sender[k].version_spec() by {
        lemma_filter_member(sender_keys, ahead_in(sender, summary), k);
        if is_ahead(sender, summary, k) {
            let keys = key_seq(changes);
            let i = choose|i: int| 0 <= i < keys.len() && keys[i] == k;
            assert(changes[i].0@ == k);
        } else {
            assert(receiver.dom().contains(k));
        }
    }
}

/// Compares `local` with a peer's version summary. Neither is changed.
///
/// The needed keys are the local keys whose version the peer exceeds, in
/// local order, followed by the peer's keys that `local` lacks, in the
/// peer's order. The supplied entries are copies of the local entries that
/// the peer lacks or holds in a smaller version, in local order. A key with
/// equal versions on both sides is in neither list.
pub fn compute_diff<V: Versioned + Clone>(local: &Store<V>, remote: &VersionSummary) -> (d: Diff<V>)
    requires
        local.wf(),
        remote.wf(),
    ensures
        is_diff_of(d, *local, *remote),
        forall|k: Seq<char>|
            texts(d.needs@).contains(k) <==> is_stale(local@, remote@, k) || is_unseen(
                local@,
                remote@,
                k,
            ),
        forall|k: Seq<char>| key_seq(d.changes@).contains(k) <==> is_ahead(local@, remote@, k),
{
    let mut needs: Vec<String> = Vec::new();
    let mut changes: Vec<(String, V)> = Vec::new();
    let ghost stale = stale_in(local@, remote@);
    let ghost ahead = ahead_in(local@, remote@);
    let ghost unseen = unseen_in(local@, remote@);
    proof {
        reveal(Seq::filter);
        assert(local.keys().take(0).filter(stale) =~= texts(needs@));
        assert(local.keys().take(0).filter(ahead) =~= key_seq(changes@));
    }
    let mut i: usize = 0;
    while i < local.len()
        invariant
            local.wf(),
            remote.wf(),
            stale == stale_in(local@, remote@),
            ahead == ahead_in(local@, remote@),
            i <= local.keys().len(),
            texts(needs@) == local.keys().take(i as int).filter(stale),
            key_seq(changes@) == local.keys().take(i as int).filter(ahead),
            forall|j: int|
                0 <= j < changes@.len() ==> local@.dom().contains((#[trigger] changes@[j]).0@)
                    && cloned::<V>(local@[changes@[j].0@], changes@[j].1),
        decreases local.keys().len() - i,
    {
        let key = local.key_at(i);
        let value = local.value_at(i);
        let mine = value.version();
        let ghost needs_before = needs@;
        let ghost changes_before = changes@;
        proof {
            lemma_filter_step(local.keys(), i as int, stale);
            lemma_filter_step(local.keys(), i as int, ahead);
        }
        let supply = match remote.get(key) {
            Some(theirs) => {
                if theirs > mine {
                    needs.push(key.clone());
                }
                theirs < mine
            },
            None => true,
        };
        if supply {
            changes.push((key.clone(), value.clone()));
        }
        proof {
            let k = local.keys()[i as int];
            if stale(k) {
                assert(texts(needs@) =~= texts(needs_before).push(k));
            } else {
                assert(texts(needs@) =~= texts(needs_before));
            }
            if ahead(k) {
                assert(key_seq(changes@) =~= key_seq(changes_before).push(k));
            } else {
                assert(key_seq(changes@) =~= key_seq(changes_before));
            }
        }
        i += 1;
    }
    proof {
        assert(local.keys().take(i as int) =~= local.keys());
        assert(remote.keys().take(0).filter(unseen) =~= Seq::<Seq<char>>::empty());
    }
    let ghost stale_keys = texts(needs@);
    let mut j: usize = 0;
    while j < remote.len()
        invariant
            local.wf(),
            remote.wf(),
            unseen == unseen_in(local@, remote@),
            j <= remote.keys().len(),
            texts(needs@) == stale_keys + remote.keys().take(j as int).filter(unseen),
        decreases remote.keys().len() - j,
    {
        let key = remote.key_at(j);
        let ghost needs_before = needs@;
        proof {
            lemma_filter_step(remote.keys(), j as int, unseen);
            remote.lemma_keys();
            assert(remote.keys().contains(remote.keys()[j as int]));
        }
        if local.get(key).is_none() {
            needs.push(key.clone());
        }
        proof {
            let k = remote.keys()[j as int];
            if unseen(k) {
                assert(texts(needs@) =~= texts(needs_before).push(k));
            } else {
                assert(texts(needs@) =~= texts(needs_before));
            }
        }
        j += 1;
    }
    proof {
        assert(remote.keys().take(j as int) =~= remote.keys());
        local.lemma_keys();
        remote.lemma_keys();
        assert forall|k: Seq<char>|
            texts(needs@).contains(k) <==> is_stale(local@, remote@, k) || is_unseen(
                local@,
                remote@,
                k,
            ) by {
            lemma_diff_members(local.keys(), local@, remote.keys(), remote@, k);
        }
        assert forall|k: Seq<char>|
            key_seq(changes@).contains(k) <==> is_ahead(local@, remote@, k) by {
            lemma_diff_members(local.keys(), local@, remote.keys(), remote@, k);
        }
    }
    Diff { needs, changes }
}

} // verus!
