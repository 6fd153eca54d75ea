use vstd::prelude::*;
use crate::keyed::{
    as_map, distinct_keys, find, has_key, key_seq, lemma_as_map_at, lemma_filter_step,
    lemma_key_seq, lemma_push_fresh, lemma_replace, position_of, texts,
};
use crate::versioned::Versioned;

verus! {

/// The result of merging `incoming` under `key` into the map `m`: inserted
/// if the key is new, replacing the stored value if its version is strictly
/// smaller, and `m` itself otherwise.
pub open spec fn merged<V: Versioned>(m: Map<Seq<char>, V>, key: Seq<char>, incoming: V) -> Map<
    Seq<char>,
    V,
> {
    if m.dom().contains(key) && m[key].version_spec() >= incoming.version_spec() {
        m
    } else {
        m.insert(key, incoming)
    }
}

/// The result of merging a list of changes into `m`, first to last.
pub open spec fn merged_all<V: Versioned>(m: Map<Seq<char>, V>, changes: Seq<(String, V)>) -> Map<
    Seq<char>,
    V,
>
    decreases changes.len(),
{
    if changes.len() == 0 {
        m
    } else {
        merged(merged_all(m, changes.drop_last()), changes.last().0@, changes.last().1)
    }
}

/// The version of each value of `m`.
pub open spec fn versions_of<V: Versioned>(m: Map<Seq<char>, V>) -> Map<Seq<char>, i64> {
    m.map_values(|v: V| v.version_spec())
}

/// Whether `m` holds a key, as a predicate on keys.
pub open spec fn known_in<V>(m: Map<Seq<char>, V>) -> spec_fn(Seq<char>) -> bool {
    |k: Seq<char>| m.dom().contains(k)
}

/// The key order after `key` was stored: unchanged if it is known, else with
/// `key` at the end.
pub open spec fn with_key(keys: Seq<Seq<char>>, key: Seq<char>) -> Seq<Seq<char>> {
    if keys.contains(key) {
        keys
    } else {
        keys.push(key)
    }
}

/// The key order after the keys of a list of changes were stored, first to
/// last.
pub open spec fn with_keys<V>(keys: Seq<Seq<char>>, changes: Seq<(String, V)>) -> Seq<Seq<char>>
    decreases changes.len(),
{
    if changes.len() == 0 {
        keys
    } else {
        with_key(with_keys(keys, changes.drop_last()), changes.last().0@)
    }
}

/// After a merge the map holds the key, with a version that is at least the
/// incoming one, and every key that was there is still there with a version
/// that is at least what it was.
pub proof fn lemma_merged_monotone<V: Versioned>(m: Map<Seq<char>, V>, key: Seq<char>, incoming: V)
    ensures
        merged(m, key, incoming).dom().contains(key),
        merged(m, key, incoming)[key].version_spec() >= incoming.version_spec(),
        forall|k: Seq<char>| #[trigger]
            m.dom().contains(k) ==> merged(m, key, incoming).dom().contains(k) && merged(
                m,
                key,
                incoming,
            )[k].version_spec() >= m[k].version_spec(),
{
}

/// Merging the same value a second time changes nothing.
pub proof fn lemma_merged_idempotent<V: Versioned>(
    m: Map<Seq<char>, V>,
    key: Seq<char>,
    incoming: V,
)
    ensures
        merged(merged(m, key, incoming), key, incoming) == merged(m, key, incoming),
{
}

/// Two merges give the same map in either order, unless they bring two
/// different values of one version under one key: of those the first stays.
pub proof fn lemma_merged_commutes<V: Versioned>(
    m: Map<Seq<char>, V>,
    k1: Seq<char>,
    v1: V,
    k2: Seq<char>,
    v2: V,
)
    requires
        k1 != k2 || v1.version_spec() != v2.version_spec() || v1 == v2,
    ensures
        merged(merged(m, k1, v1), k2, v2) == merged(merged(m, k2, v2), k1, v1),
{
    assert(merged(merged(m, k1, v1), k2, v2) =~= merged(merged(m, k2, v2), k1, v1));
}

/// Across any list of merges no key is lost and no version goes down.
pub proof fn lemma_merged_all_monotone<V: Versioned>(m: Map<Seq<char>, V>, changes: Seq<(String, V)>)
    ensures
        forall|k: Seq<char>| #[trigger]
            m.dom().contains(k) ==> merged_all(m, changes).dom().contains(k) && merged_all(
                m,
                changes,
            )[k].version_spec() >= m[k].version_spec(),
    decreases changes.len(),
{
    if changes.len() > 0 {
        let before = merged_all(m, changes.drop_last());
        lemma_merged_all_monotone(m, changes.drop_last());
        lemma_merged_monotone(before, changes.last().0@, changes.last().1);
        assert forall|k: Seq<char>| #[trigger] m.dom().contains(k) implies merged_all(
            m,
            changes,
        ).dom().contains(k) && merged_all(m, changes)[k].version_spec()
            >= m[k].version_spec() by {
            assert(before.dom().contains(k));
        }
    }
}

/// After a list of merges the map holds the key of every change, with a
/// version that is at least that change's.
pub proof fn lemma_merged_all_covers<V: Versioned>(m: Map<Seq<char>, V>, changes: Seq<(String, V)>)
    ensures
        forall|i: int|
            0 <= i < changes.len() ==> merged_all(m, changes).dom().contains(
                (#[trigger] changes[i]).0@,
            ) && merged_all(m, changes)[changes[i].0@].version_spec()
                >= changes[i].1.version_spec(),
    decreases changes.len(),
{
    if changes.len() > 0 {
        let prefix = changes.drop_last();
        let before = merged_all(m, prefix);
        lemma_merged_all_covers(m, prefix);
        lemma_merged_monotone(before, changes.last().0@, changes.last().1);
        assert forall|i: int| 0 <= i < changes.len() implies merged_all(m, changes).dom().contains(
            (#[trigger] changes[i]).0@,
        ) && merged_all(m, changes)[changes[i].0@].version_spec()
            >= changes[i].1.version_spec() by {
            if i < prefix.len() {
                assert(prefix[i] == changes[i]);
                assert(before.dom().contains(prefix[i].0@));
            }
        }
    }
}

/// A list of changes leaves a map as it is if the map already holds every
/// change's key with a version that is at least that change's.
pub proof fn lemma_merged_all_absorbed<V: Versioned>(m: Map<Seq<char>, V>, changes: Seq<(String, V)>)
    requires
        forall|i: int|
            0 <= i < changes.len() ==> m.dom().contains((#[trigger] changes[i]).0@)
                && m[changes[i].0@].version_spec() >= changes[i].1.version_spec(),
    ensures
        merged_all(m, changes) == m,
    decreases changes.len(),
{
    if changes.len() > 0 {
        let prefix = changes.drop_last();
        assert forall|i: int| 0 <= i < prefix.len() implies m.dom().contains(
            (#[trigger] prefix[i]).0@,
        ) && m[prefix[i].0@].version_spec() >= prefix[i].1.version_spec() by {
            assert(prefix[i] == changes[i]);
        }
        lemma_merged_all_absorbed(m, prefix);
        assert(changes.last() == changes[changes.len() - 1]);
    }
}

/// Applying the same list of changes twice gives the same map as applying
/// it once.
pub proof fn lemma_merged_all_idempotent<V: Versioned>(
    m: Map<Seq<char>, V>,
    changes: Seq<(String, V)>,
)
    ensures
        merged_all(merged_all(m, changes), changes) == merged_all(m, changes),
{
    lemma_merged_all_covers(m, changes);
    lemma_merged_all_absorbed(merged_all(m, changes), changes);
}

/// A snapshot of the versions that a store holds: a map from key to version
/// number, with the keys in a fixed order.
pub struct VersionSummary {
    entries: Vec<(String, i64)>,
}

impl VersionSummary {
    /// No key occurs twice.
    pub closed spec fn wf(&self) -> bool {
        distinct_keys(self.entries@)
    }

    /// The keys, in the order in which they were first inserted.
    pub closed spec fn keys(&self) -> Seq<Seq<char>> {
        key_seq(self.entries@)
    }

    /// The summary as a map from key to version.
    pub closed spec fn view(&self) -> Map<Seq<char>, i64> {
        as_map(self.entries@)
    }

    /// The keys are exactly the domain of the map, each listed once.
    pub proof fn lemma_keys(&self)
        requires
            self.wf(),
        ensures
            self.keys().no_duplicates(),
            forall|k: Seq<char>| self@.dom().contains(k) <==> self.keys().contains(k),
    {
        lemma_key_seq(self.entries@);
    }

    /// An empty summary.
    pub fn new() -> (s: Self)
        ensures
            s.wf(),
            s@ == Map::<Seq<char>, i64>::empty(),
            s.keys() == Seq::<Seq<char>>::empty(),
    {
        let s = VersionSummary { entries: Vec::new() };
        assert(s@ =~= Map::<Seq<char>, i64>::empty());
        assert(s.keys() =~= Seq::<Seq<char>>::empty());
        s
    }

    /// Number of keys.
    pub fn len(&self) -> (n: usize)
        ensures
            n == self.keys().len(),
    {
        self.entries.len()
    }

    /// The key at position `i`.
    pub fn key_at(&self, i: usize) -> (k: &String)
        requires
            i < self.keys().len(),
        ensures
            k@ == self.keys()[i as int],
    {
        &self.entries[i].0
    }

    /// The version stored under the key at position `i`.
    pub fn version_at(&self, i: usize) -> (v: i64)
        requires
            self.wf(),
            i < self.keys().len(),
        ensures
            self@.dom().contains(self.keys()[i as int]),
            v == self@[self.keys()[i as int]],
    {
        proof {
            lemma_as_map_at(self.entries@, i as int);
        }
        self.entries[i].1
    }

    /// The version recorded for `key`, if any.
    pub fn get(&self, key: &String) -> (r: Option<i64>)
        requires
            self.wf(),
        ensures
            r == (if self@.dom().contains(key@) {
                Some(self@[key@])
            } else {
                None
            }),
    {
        match find(&self.entries, key) {
            Some(i) => {
                proof {
                    lemma_as_map_at(self.entries@, i as int);
                }
                Some(self.entries[i].1)
            },
            None => None,
        }
    }

    /// Records `version` for `key`, replacing what was recorded before. A new
    /// key goes to the end of the order; a known key keeps its place.
    pub fn insert(&mut self, key: String, version: i64)
        requires
            old(self).wf(),
        ensures
            final(self).wf(),
            final(self)@ == old(self)@.insert(key@, version),
            final(self).keys() == with_key(old(self).keys(), key@),
    {
        proof {
            lemma_key_seq(self.entries@);
        }
        match find(&self.entries, &key) {
            Some(i) => {
                proof {
                    lemma_as_map_at(self.entries@, i as int);
                    lemma_replace(self.entries@, i as int, key, version);
                }
                self.entries.set(i, (key, version));
            },
            None => {
                proof {
                    lemma_push_fresh(self.entries@, key, version);
                }
                self.entries.push((key, version));
            },
        }
    }
}

/// An in-memory mapping from key to versioned value, changed only by the
/// merge rule. Keys keep the order in which they were first stored, and no
/// key is ever removed.
pub struct Store<V> {
    entries: Vec<(String, V)>,
}

impl<V: Versioned> Store<V> {
    /// No key occurs twice.
    pub closed spec fn wf(&self) -> bool {
        distinct_keys(self.entries@)
    }

    /// The keys, in the order in which they were first stored.
    pub closed spec fn keys(&self) -> Seq<Seq<char>> {
        key_seq(self.entries@)
    }

    /// The store as a map from key to value.
    pub closed spec fn view(&self) -> Map<Seq<char>, V> {
        as_map(self.entries@)
    }

    /// The keys are exactly the domain of the map, each listed once.
    pub proof fn lemma_keys(&self)
        requires
            self.wf(),
        ensures
            self.keys().no_duplicates(),
            forall|k: Seq<char>| self@.dom().contains(k) <==> self.keys().contains(k),
    {
        lemma_key_seq(self.entries@);
    }

    /// An empty store.
    pub fn new() -> (s: Self)
        ensures
            s.wf(),
            s@ == Map::<Seq<char>, V>::empty(),
            s.keys() == Seq::<Seq<char>>::empty(),
    {
        let s = Store { entries: Vec::new() };
        assert(s@ =~= Map::<Seq<char>, V>::empty());
        assert(s.keys() =~= Seq::<Seq<char>>::empty());
        s
    }

    /// Number of keys stored.
    pub fn len(&self) -> (n: usize)
        ensures
            n == self.keys().len(),
    {
        self.entries.len()
    }

    /// The key at position `i`.
    pub fn key_at(&self, i: usize) -> (k: &String)
        requires
            i < self.keys().len(),
        ensures
            k@ == self.keys()[i as int],
    {
        &self.entries[i].0
    }

    /// The value stored under the key at position `i`.
    pub fn value_at(&self, i: usize) -> (v: &V)
        requires
            self.wf(),
            i < self.keys().len(),
        ensures
            self@.dom().contains(self.keys()[i as int]),
            *v == self@[self.keys()[i as int]],
    {
        proof {
            lemma_as_map_at(self.entries@, i as int);
        }
        &self.entries[i].1
    }

    /// Reads the value stored under `key`, without changing the store.
    pub fn get(&self, key: &String) -> (r: Option<&V>)
        requires
            self.wf(),
        ensures
            match r {
                Some(v) => self@.dom().contains(key@) && *v == self@[key@],
                None => !self@.dom().contains(key@),
            },
    {
        match find(&self.entries, key) {
            Some(i) => {
                proof {
                    lemma_as_map_at(self.entries@, i as int);
                }
                Some(&self.entries[i].1)
            },
            None => None,
        }
    }

    /// Merges `incoming` under `key`: a new key is inserted at the end of the
    /// order; a stored value is replaced only by a strictly greater version;
    /// otherwise nothing changes. Afterwards the store holds `key` with a
    /// version that is at least the incoming one, and no key's version has
    /// gone down.
    pub fn merge(&mut self, key: String, incoming: V)
        requires
            old(self).wf(),
        ensures
            final(self).wf(),
            final(self)@ == merged(old(self)@, key@, incoming),
            final(self).keys() == with_key(old(self).keys(), key@),
            final(self)@.dom().contains(key@),
            final(self)@[key@].version_spec() >= incoming.version_spec(),
            forall|k: Seq<char>| #[trigger]
                old(self)@.dom().contains(k) ==> final(self)@.dom().contains(k)
                    && final(self)@[k].version_spec() >= old(self)@[k].version_spec(),
    {
        proof {
            lemma_key_seq(self.entries@);
        }
        match find(&self.entries, &key) {
            Some(i) => {
                proof {
                    lemma_as_map_at(self.entries@, i as int);
                }
                if self.entries[i].1.version() < incoming.version() {
                    proof {
                        lemma_replace(self.entries@, i as int, key, incoming);
                    }
                    self.entries.set(i, (key, incoming));
                }
            },
            None => {
                proof {
                    lemma_push_fresh(self.entries@, key, incoming);
                }
                self.entries.push((key, incoming));
            },
        }
    }

    /// Merges a list of changes, first to last, each by the rule of `merge`.
    pub fn merge_all(&mut self, changes: Vec<(String, V)>)
        requires
            old(self).wf(),
        ensures
            final(self).wf(),
            final(self)@ == merged_all(old(self)@, changes@),
            final(self).keys() == with_keys(old(self).keys(), changes@),
    {
        let ghost all = changes@;
        let ghost before = self@;
        let ghost keys_before = self.keys();
        for change in it: changes.into_iter()
            invariant
                it.seq() == all,
                self.wf(),
                self@ == merged_all(before, all.take(it.index() as int)),
                self.keys() == with_keys(keys_before, all.take(it.index() as int)),
        {
            proof {
                let done = it.index() as int;
                assert(all.take(done + 1).drop_last() =~= all.take(done));
                assert(all.take(done + 1).last() == all[done]);
            }
            let (key, incoming) = change;
            self.merge(key, incoming);
        }
        proof {
            assert(all.take(all.len() as int) =~= all);
        }
    }

    /// Looks up a list of requested keys: for each key that the store holds,
    /// in the order of the request, the key with the stored value. A key that
    /// the store does not hold is passed over.
    pub fn resolve(&self, needs: Vec<String>) -> (updates: Vec<(String, &V)>)
        requires
            self.wf(),
        ensures
            key_seq(updates@) == texts(needs@).filter(known_in(self@)),
            forall|i: int|
                0 <= i < updates@.len() ==> self@.dom().contains((#[trigger] updates@[i]).0@)
                    && *updates@[i].1 == self@[updates@[i].0@],
    {
        let ghost all = needs@;
        let ghost known = known_in(self@);
        let mut updates: Vec<(String, &V)> = Vec::new();
        proof {
            reveal(Seq::filter);
            assert(texts(all).take(0).filter(known) =~= key_seq(updates@));
        }
        for key in it: needs.into_iter()
            invariant
                it.seq() == all,
                self.wf(),
                known == known_in(self@),
                key_seq(updates@) == texts(all).take(it.index() as int).filter(known),
                forall|i: int|
                    0 <= i < updates@.len() ==> self@.dom().contains((#[trigger] updates@[i]).0@)
                        && *updates@[i].1 == self@[updates@[i].0@],
        {
            let ghost before = updates@;
            proof {
                lemma_filter_step(texts(all), it.index() as int, known);
            }
            match find(&self.entries, &key) {
                Some(i) => {
                    proof {
                        lemma_as_map_at(self.entries@, i as int);
                        assert(key_seq(before.push((key, &self.entries@[i as int].1)))
                            =~= key_seq(before).push(key@));
                    }
                    updates.push((key, &self.entries[i].1));
                },
                None => {},
            }
        }
        proof {
            assert(texts(all).take(all.len() as int) =~= texts(all));
        }
        updates
    }

    /// The version of every stored value, under the same keys in the same
    /// order. The store is not changed.
    pub fn snapshot(&self) -> (s: VersionSummary)
        requires
            self.wf(),
        ensures
            s.wf(),
            s@ == versions_of(self@),
            s.keys() == self.keys(),
    {
        let mut out: Vec<(String, i64)> = Vec::new();
        let mut i: usize = 0;
        while i < self.entries.len()
            invariant
                i <= self.entries@.len(),
                out@.len() == i,
                forall|j: int|
                    0 <= j < i ==> (#[trigger] out@[j]).0@ == self.entries@[j].0@ && out@[j].1
                        == self.entries@[j].1.version_spec(),
            decreases self.entries@.len() - i,
        {
            let key = self.entries[i].0.clone();
            let version = self.entries[i].1.version();
            out.push((key, version));
            i += 1;
        }
        let s = VersionSummary { entries: out };
        proof {
            let src = self.entries@;
            let dst = s.entries@;
            assert forall|a: int, b: int|
                0 <= a < dst.len() && 0 <= b < dst.len() && (#[trigger] dst[a]).0@ == (
                #[trigger] dst[b]).0@ implies a == b by {
                assert(src[a].0@ == src[b].0@);
            }
            assert(key_seq(dst) =~= key_seq(src));
            assert forall|k: Seq<char>| #[trigger]
                as_map(dst).dom().contains(k) <==> versions_of(as_map(src)).dom().contains(k) by {
                if has_key(dst, k) {
                    let p = position_of(dst, k);
                    assert(src[p].0@ == k);
                }
                if has_key(src, k) {
                    let p = position_of(src, k);
                    assert(dst[p].0@ == k);
                }
            }
            assert forall|k: Seq<char>| #[trigger] as_map(dst).dom().contains(k) implies as_map(
                dst,
            )[k] == versions_of(as_map(src))[k] by {
                let p = position_of(dst, k);
                lemma_as_map_at(dst, p);
                lemma_as_map_at(src, p);
            }
            assert(as_map(dst) =~= versions_of(as_map(src)));
        }
        s
    }
}

} // verus!
