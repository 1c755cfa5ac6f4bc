use std::collections::BTreeMap;
use vstd::laws_cmp::obeys_cmp;
use vstd::prelude::*;

verus! {

/// The count that `key` has in a tally map: zero when absent.
pub open spec fn tally_of<K>(m: Map<K, u64>, key: K) -> int {
    if m.contains_key(key) {
        m[key] as int
    } else {
        0
    }
}

/// The tally map after one more occurrence of `key`.
pub open spec fn tally_bump<K>(m: Map<K, u64>, key: K) -> Map<K, u64> {
    m.insert(key, (tally_of(m, key) + 1) as u64)
}

/// How many times `k` occurs in `keys`.
pub open spec fn occurrences<K>(keys: Seq<K>, k: K) -> nat
    decreases keys.len(),
{
    if keys.len() == 0 {
        0
    } else {
        occurrences(keys.drop_last(), k) + if keys.last() == k {
            1nat
        } else {
            0nat
        }
    }
}

/// The tally map after one more occurrence of each of `keys`, in order.
pub open spec fn tally_all<K>(m: Map<K, u64>, keys: Seq<K>) -> Map<K, u64>
    decreases keys.len(),
{
    if keys.len() == 0 {
        m
    } else {
        tally_bump(tally_all(m, keys.drop_last()), keys.last())
    }
}

/// Recording a sequence of keys into an empty tally counts each key
/// exactly as often as it occurs, and holds no other key. This holds as
/// long as the sequence has at most `u64::MAX` keys.
pub proof fn lemma_tally_counts_occurrences<K>(keys: Seq<K>)
    requires
        keys.len() <= u64::MAX,
    ensures
        forall|k: K| #[trigger]
            tally_of(tally_all(Map::<K, u64>::empty(), keys), k) == occurrences(keys, k),
        forall|k: K| #[trigger]
            tally_all(Map::<K, u64>::empty(), keys).contains_key(k) <==> occurrences(keys, k) > 0,
    decreases keys.len(),
{
    if keys.len() > 0 {
        let p = keys.drop_last();
        lemma_tally_counts_occurrences(p);
        assert forall|k: K| #[trigger] occurrences(p, k) <= p.len() by {
            lemma_occurrences_bounded(p, k);
        }
        let before = tally_all(Map::<K, u64>::empty(), p);
        assert forall|k: K|
            #[trigger] tally_of(tally_all(Map::<K, u64>::empty(), keys), k) == occurrences(keys, k) by {
            assert(tally_of(before, k) == occurrences(p, k));
            assert(tally_of(before, keys.last()) == occurrences(p, keys.last()));
        }
        assert forall|k: K| #[trigger]
            tally_all(Map::<K, u64>::empty(), keys).contains_key(k) <==> occurrences(keys, k) > 0 by {
            assert(before.contains_key(k) <==> occurrences(p, k) > 0);
        }
    }
}

proof fn lemma_occurrences_bounded<K>(keys: Seq<K>, k: K)
    ensures
        occurrences(keys, k) <= keys.len(),
    decreases keys.len(),
{
    if keys.len() > 0 {
        lemma_occurrences_bounded(keys.drop_last(), k);
    }
}

/// Counts occurrences of keys in an ordered map.
pub struct Counter<K> {
    pub map: BTreeMap<K, u64>,
}

impl<K: Ord> Counter<K> {
    /// The counts recorded so far, by key.
    pub open spec fn counts(&self) -> Map<K, u64> {
        self.map@
    }

    /// A counter in which nothing has been recorded.
    pub fn new() -> (c: Counter<K>)
        ensures
            c.counts() == Map::<K, u64>::empty(),
    {
        Counter { map: BTreeMap::new() }
    }

    /// Records one occurrence of `key`: its count goes up by one, every
    /// other count stays as it was.
    pub fn record(&mut self, key: K)
        requires
            obeys_cmp::<K>(),
            tally_of(old(self).counts(), key) < u64::MAX,
        ensures
            final(self).counts() == tally_bump(old(self).counts(), key),
    {
        let current: u64 = match self.map.get(&key) {
            Some(v) => *v,
            None => 0,
        };
        self.map.insert(key, current + 1);
    }
}

} // verus!
