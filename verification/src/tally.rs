//! Counting of error messages by their text.
use crate::util::{tally_bump, tally_of};
use vstd::prelude::*;

verus! {

/// The map from message text to count that a list of entries stands for;
/// a later entry for the same text would win, but a well-formed list has
/// none.
pub open spec fn entries_map(s: Seq<(String, u64)>) -> Map<Seq<char>, u64>
    decreases s.len(),
{
    if s.len() == 0 {
        Map::empty()
    } else {
        entries_map(s.drop_last()).insert(s.last().0@, s.last().1)
    }
}

/// No message text occurs in two entries.
pub open spec fn distinct_texts(s: Seq<(String, u64)>) -> bool {
    forall|i: int, j: int| 0 <= i < j < s.len() ==> s[i].0@ != s[j].0@
}

proof fn lemma_entries_map_lookup(s: Seq<(String, u64)>)
    requires
        distinct_texts(s),
    ensures
        forall|i: int|
            0 <= i < s.len() ==> #[trigger] entries_map(s).contains_key(s[i].0@)
                && entries_map(s)[s[i].0@] == s[i].1,
        forall|k: Seq<char>|
            #[trigger] entries_map(s).contains_key(k) ==> exists|i: int|
                0 <= i < s.len() && s[i].0@ == k,
    decreases s.len(),
{
    if s.len() > 0 {
        let p = s.drop_last();
        assert(distinct_texts(p));
        lemma_entries_map_lookup(p);
        assert forall|i: int|
            0 <= i < s.len() implies #[trigger] entries_map(s).contains_key(s[i].0@)
            && entries_map(s)[s[i].0@] == s[i].1 by {
            if i < s.len() - 1 {
                assert(s[i] == p[i]);
                assert(entries_map(p).contains_key(p[i].0@));
                assert(s[i].0@ != s.last().0@);
            } else {
                assert(s[i] == s.last());
            }
        }
        assert forall|k: Seq<char>| #[trigger]
            entries_map(s).contains_key(k) implies exists|i: int|
                0 <= i < s.len() && s[i].0@ == k by {
            if k != s.last().0@ {
                assert(entries_map(p).contains_key(k));
                let i = choose|i: int| 0 <= i < p.len() && p[i].0@ == k;
                assert(s[i] == p[i]);
            } else {
                assert(s[s.len() - 1] == s.last());
            }
        }
    }
}

proof fn lemma_entries_map_update(s: Seq<(String, u64)>, i: int, e: (String, u64))
    requires
        distinct_texts(s),
        0 <= i < s.len(),
        e.0@ == s[i].0@,
    ensures
        entries_map(s.update(i, e)) == entries_map(s).insert(e.0@, e.1),
    decreases s.len(),
{
    let t = s.update(i, e);
    if i == s.len() - 1 {
        assert(t.drop_last() == s.drop_last());
        assert(entries_map(t) =~= entries_map(s).insert(e.0@, e.1));
    } else {
        let p = s.drop_last();
        assert(distinct_texts(p));
        assert(t.drop_last() == p.update(i, e));
        lemma_entries_map_update(p, i, e);
        assert(s[i] == p[i]);
        assert(s[i].0@ != s.last().0@);
        assert(t.last() == s.last());
        assert(entries_map(t) =~= entries_map(s).insert(e.0@, e.1));
    }
}

/// How many times each error message has been seen.
pub struct ErrorTally {
    entries: Vec<(String, u64)>,
}

impl ErrorTally {
    /// The count of each message text seen so far.
    pub closed spec fn counts(&self) -> Map<Seq<char>, u64> {
        entries_map(self.entries@)
    }

    /// The tally keeps one entry per message text.
    pub closed spec fn wf(&self) -> bool {
        distinct_texts(self.entries@)
    }

    /// A tally in which nothing has been seen.
    pub fn new() -> (t: ErrorTally)
        ensures
            t.wf(),
            t.counts() == Map::<Seq<char>, u64>::empty(),
    {
        ErrorTally { entries: Vec::new() }
    }

    /// Counts one more occurrence of `message`.
    pub fn record(&mut self, message: String)
        requires
            old(self).wf(),
            tally_of(old(self).counts(), message@) < u64::MAX,
        ensures
            final(self).wf(),
            final(self).counts() == tally_bump(old(self).counts(), message@),
    {
        let ghost start = self.entries@;
        let n = self.entries.len();
        let mut i: usize = 0;
        while i < n
            invariant
                n == self.entries@.len(),
                self.entries@ == start,
                old(self).entries@ == start,
                distinct_texts(start),
                tally_of(entries_map(start), message@) < u64::MAX,
                0 <= i <= n,
                forall|j: int| 0 <= j < i ==> self.entries@[j].0@ != message@,
            decreases n - i,
        {
            if self.entries[i].0 == message {
                let count = self.entries[i].1;
                proof {
                    lemma_entries_map_lookup(start);
                }
                assert(entries_map(self.entries@)[message@] == count);
                let ghost before = self.entries@;
                self.entries.set(i, (message, count + 1));
                proof {
                    lemma_entries_map_update(before, i as int, (message, (count + 1) as u64));
                    assert forall|a: int, b: int|
                        0 <= a < b < self.entries@.len() implies self.entries@[a].0@
                        != self.entries@[b].0@ by {
                        assert(before[a].0@ != before[b].0@);
                    }
                }
                assert(self.entries@ == before.update(i as int, (message, (count + 1) as u64)));
                assert(tally_of(entries_map(start), message@) == count);
                assert(entries_map(self.entries@) == tally_bump(entries_map(start), message@));
                return;
            }
            i = i + 1;
        }
        proof {
            lemma_entries_map_lookup(start);
        }
        assert(!entries_map(start).contains_key(message@));
        self.entries.push((message, 1));
        assert forall|a: int, b: int|
            0 <= a < b < self.entries@.len() implies self.entries@[a].0@
            != self.entries@[b].0@ by {
            if b < n {
                assert(start[a].0@ != start[b].0@);
            }
        }
        assert(self.entries@.drop_last() == start);
    }

    /// How many times `text` has been seen.
    pub fn count_of(&self, text: &String) -> (c: u64)
        requires
            self.wf(),
        ensures
            c == tally_of(self.counts(), text@),
    {
        let n = self.entries.len();
        let mut i: usize = 0;
        while i < n
            invariant
                n == self.entries@.len(),
                distinct_texts(self.entries@),
                0 <= i <= n,
                forall|j: int| 0 <= j < i ==> self.entries@[j].0@ != text@,
            decreases n - i,
        {
            if self.entries[i].0 == *text {
                proof {
                    lemma_entries_map_lookup(self.entries@);
                }
                return self.entries[i].1;
            }
            i = i + 1;
        }
        proof {
            lemma_entries_map_lookup(self.entries@);
        }
        0
    }

    /// The seen messages with their counts, one entry per message text.
    pub fn entries(&self) -> (r: &Vec<(String, u64)>)
        requires
            self.wf(),
        ensures
            distinct_texts(r@),
            entries_map(r@) == self.counts(),
    {
        &self.entries
    }
}

} // verus!
