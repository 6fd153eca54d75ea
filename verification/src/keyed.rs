use vstd::prelude::*;

verus! {

/// The contents of a list of keys.
pub open spec fn texts(keys: Seq<String>) -> Seq<Seq<char>> {
    Seq::new(keys.len(), |i: int| keys[i]@)
}

/// The keys of a list of entries, in list order.
pub open spec fn key_seq<T>(entries: Seq<(String, T)>) -> Seq<Seq<char>> {
    Seq::new(entries.len(), |i: int| entries[i].0@)
}

/// No two entries share a key.
pub open spec fn distinct_keys<T>(entries: Seq<(String, T)>) -> bool {
    forall|i: int, j: int|
        0 <= i < entries.len() && 0 <= j < entries.len() && (#[trigger] entries[i]).0@ == (
        #[trigger] entries[j]).0@ ==> i == j
}

/// Whether some entry is stored under `key`.
pub open spec fn has_key<T>(entries: Seq<(String, T)>, key: Seq<char>) -> bool {
    exists|i: int| 0 <= i < entries.len() && (#[trigger] entries[i]).0@ == key
}

/// Position of an entry stored under `key`.
pub open spec fn position_of<T>(entries: Seq<(String, T)>, key: Seq<char>) -> int {
    choose|i: int| 0 <= i < entries.len() && (#[trigger] entries[i]).0@ == key
}

/// A list of entries read as a map from key to value.
pub open spec fn as_map<T>(entries: Seq<(String, T)>) -> Map<Seq<char>, T> {
    Map::new(
        |k: Seq<char>| has_key(entries, k),
        |k: Seq<char>| entries[position_of(entries, k)].1,
    )
}

/// With distinct keys, the map holds at each entry's key that entry's value.
pub proof fn lemma_as_map_at<T>(entries: Seq<(String, T)>, i: int)
    requires
        distinct_keys(entries),
        0 <= i < entries.len(),
    ensures
        as_map(entries).dom().contains(entries[i].0@),
        as_map(entries)[entries[i].0@] == entries[i].1,
        position_of(entries, entries[i].0@) == i,
{
    let k = entries[i].0@;
    assert(has_key(entries, k));
    let p = position_of(entries, k);
    assert(0 <= p < entries.len() && entries[p].0@ == k);
}

/// The keys of the list are the domain of its map, and none repeats.
pub proof fn lemma_key_seq<T>(entries: Seq<(String, T)>)
    requires
        distinct_keys(entries),
    ensures
        key_seq(entries).no_duplicates(),
        forall|k: Seq<char>| as_map(entries).dom().contains(k) <==> key_seq(entries).contains(k),
{
    let ks = key_seq(entries);
    assert forall|i: int, j: int| 0 <= i < ks.len() && 0 <= j < ks.len() && i != j implies ks[i]
        != ks[j] by {
        if ks[i] == ks[j] {
            assert(entries[i].0@ == entries[j].0@);
        }
    }
    assert forall|k: Seq<char>| as_map(entries).dom().contains(k) <==> ks.contains(k) by {
        if has_key(entries, k) {
            let p = position_of(entries, k);
            assert(ks[p] == k);
        }
        if ks.contains(k) {
            let p = choose|p: int| 0 <= p < ks.len() && ks[p] == k;
            assert(entries[p].0@ == k);
        }
    }
}

/// Appending an entry under a fresh key inserts it into the map.
pub proof fn lemma_push_fresh<T>(entries: Seq<(String, T)>, key: String, value: T)
    requires
        distinct_keys(entries),
        !has_key(entries, key@),
    ensures
        distinct_keys(entries.push((key, value))),
        as_map(entries.push((key, value))) == as_map(entries).insert(key@, value),
        key_seq(entries.push((key, value))) == key_seq(entries).push(key@),
{
    let after = entries.push((key, value));
    assert forall|i: int, j: int|
        0 <= i < after.len() && 0 <= j < after.len() && (#[trigger] after[i]).0@ == (
        #[trigger] after[j]).0@ implies i == j by {
        if i < entries.len() && j < entries.len() {
            assert(entries[i].0@ == entries[j].0@);
        } else if i < entries.len() {
            assert(entries[i].0@ == key@);
        } else if j < entries.len() {
            assert(entries[j].0@ == key@);
        }
    }
    assert(key_seq(after) =~= key_seq(entries).push(key@));
    assert forall|k: Seq<char>| #[trigger]
        as_map(after).dom().contains(k) <==> as_map(entries).insert(key@, value).dom().contains(
            k,
        ) by {
        if has_key(after, k) {
            let p = position_of(after, k);
            if p < entries.len() {
                assert(entries[p].0@ == k);
            }
        }
        if has_key(entries, k) {
            let p = position_of(entries, k);
            assert(after[p].0@ == k);
        }
        if k == key@ {
            assert(after[entries.len() as int].0@ == k);
        }
    }
    assert forall|k: Seq<char>| #[trigger] as_map(after).dom().contains(k) implies as_map(after)[k]
        == as_map(entries).insert(key@, value)[k] by {
        let p = position_of(after, k);
        lemma_as_map_at(after, p);
        if p < entries.len() {
            assert(entries[p] == after[p]);
            lemma_as_map_at(entries, p);
        }
    }
    assert(as_map(after) =~= as_map(entries).insert(key@, value));
}

/// Replacing the entry at `i` by one under the same key updates the map at
/// that key and keeps the order of the keys.
pub proof fn lemma_replace<T>(entries: Seq<(String, T)>, i: int, key: String, value: T)
    requires
        distinct_keys(entries),
        0 <= i < entries.len(),
        entries[i].0@ == key@,
    ensures
        distinct_keys(entries.update(i, (key, value))),
        as_map(entries.update(i, (key, value))) == as_map(entries).insert(key@, value),
        key_seq(entries.update(i, (key, value))) == key_seq(entries),
{
    let after = entries.update(i, (key, value));
    assert forall|a: int| 0 <= a < after.len() implies (#[trigger] after[a]).0@
        == entries[a].0@ by {}
    assert forall|a: int, b: int|
        0 <= a < after.len() && 0 <= b < after.len() && (#[trigger] after[a]).0@ == (
        #[trigger] after[b]).0@ implies a == b by {
        assert(entries[a].0@ == entries[b].0@);
    }
    assert(key_seq(after) =~= key_seq(entries));
    assert forall|k: Seq<char>| #[trigger]
        as_map(after).dom().contains(k) <==> as_map(entries).insert(key@, value).dom().contains(
            k,
        ) by {
        if has_key(after, k) {
            let p = position_of(after, k);
            assert(entries[p].0@ == k);
        }
        if has_key(entries, k) {
            let p = position_of(entries, k);
            assert(after[p].0@ == k);
        }
        if k == key@ {
            assert(after[i].0@ == k);
        }
    }
    assert forall|k: Seq<char>| #[trigger] as_map(after).dom().contains(k) implies as_map(after)[k]
        == as_map(entries).insert(key@, value)[k] by {
        let p = position_of(after, k);
        lemma_as_map_at(after, p);
        if p != i {
            assert(entries[p] == after[p]);
            lemma_as_map_at(entries, p);
        }
    }
    assert(as_map(after) =~= as_map(entries).insert(key@, value));
}

/// Filtering one element more either appends that element or changes nothing.
pub proof fn lemma_filter_step<A>(s: Seq<A>, i: int, pred: spec_fn(A) -> bool)
    requires
        0 <= i < s.len(),
    ensures
        s.take(i + 1).filter(pred) == (if pred(s[i]) {
            s.take(i).filter(pred).push(s[i])
        } else {
            s.take(i).filter(pred)
        }),
{
    reveal(Seq::filter);
    assert(s.take(i + 1).drop_last() =~= s.take(i));
    assert(s.take(i + 1).last() == s[i]);
}

/// Looks `key` up in a list of entries: the position of the first entry
/// stored under it, if there is one.
pub fn find<T>(entries: &Vec<(String, T)>, key: &String) -> (r: Option<usize>)
    ensures
        match r {
            Some(i) => {
                &&& i < entries@.len()
                &&& entries@[i as int].0@ == key@
                &&& forall|j: int| 0 <= j < i ==> (#[trigger] entries@[j]).0@ != key@
            },
            None => !has_key(entries@, key@),
        },
{
    let mut i: usize = 0;
    while i < entries.len()
        invariant
            i <= entries@.len(),
            forall|j: int| 0 <= j < i ==> (#[trigger] entries@[j]).0@ != key@,
        decreases entries@.len() - i,
    {
        if entries[i].0 == *key {
            return Some(i);
        }
        i += 1;
    }
    None
}

} // verus!
