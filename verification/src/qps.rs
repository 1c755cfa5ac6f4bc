use crate::util::{tally_of, Counter};
use std::collections::BTreeMap;
use vstd::arithmetic::div_mod::{lemma_fundamental_div_mod, lemma_fundamental_div_mod_converse};
use vstd::prelude::*;

verus! {

/// Nanoseconds in one second.
pub const NANOS_PER_SEC: u64 = 1_000_000_000;

/// The earliest timestamp of a non-empty sequence.
pub open spec fn earliest(s: Seq<u64>) -> u64
    recommends
        s.len() > 0,
    decreases s.len(),
{
    if s.len() <= 1 {
        s[0]
    } else if s.last() < earliest(s.drop_last()) {
        s.last()
    } else {
        earliest(s.drop_last())
    }
}

/// The whole second, counted from `start`, in which timestamp `t` falls.
pub open spec fn second_of(t: u64, start: u64) -> u64 {
    ((t - start) / (NANOS_PER_SEC as int)) as u64
}

/// A timestamp `k * 10^9 + r` nanoseconds after `start`, with
/// `0 <= r < 10^9`, falls in second `k`: seconds are whole seconds, counted
/// down, from `start`.
pub proof fn lemma_second_is_whole_seconds(t: u64, start: u64, k: int, r: int)
    requires
        start <= t,
        0 <= r < 1_000_000_000,
        t - start == k * 1_000_000_000 + r,
    ensures
        second_of(t, start) == k,
{
    lemma_fundamental_div_mod_converse(t - start, 1_000_000_000, k, r);
}

/// The second of a timestamp at or after `start` is the number of whole
/// seconds that have passed since `start`.
pub proof fn lemma_second_bounds(t: u64, start: u64)
    requires
        start <= t,
    ensures
        second_of(t, start) * 1_000_000_000 <= t - start < (second_of(t, start) + 1)
            * 1_000_000_000,
{
    lemma_fundamental_div_mod(t - start, 1_000_000_000);
}

/// For timestamps no earlier than `start`, the count of a second is the
/// number of timestamps that lie in that second's window of one second.
pub proof fn lemma_hits_counts_window(s: Seq<u64>, start: u64, sec: u64)
    requires
        forall|i: int| 0 <= i < s.len() ==> start <= #[trigger] s[i],
    ensures
        hits(s, start, sec) == s.filter(
            |t: u64| sec * 1_000_000_000 <= t - start < (sec + 1) * 1_000_000_000,
        ).len(),
    decreases s.len(),
{
    reveal_with_fuel(Seq::<_>::filter, 1);
    if s.len() > 0 {
        let p = s.drop_last();
        assert forall|i: int| 0 <= i < p.len() implies start <= #[trigger] p[i] by {
            assert(p[i] == s[i]);
        }
        lemma_hits_counts_window(p, start, sec);
        let t = s.last();
        assert(start <= s[s.len() - 1]);
        lemma_second_bounds(t, start);
        let q = second_of(t, start) as int;
        assert((q == sec) <==> (sec * 1_000_000_000 <= t - start < (sec + 1) * 1_000_000_000))
            by {
            if q < sec {
                assert((q + 1) * 1_000_000_000 <= sec * 1_000_000_000) by (nonlinear_arith)
                    requires
                        q + 1 <= sec,
                ;
            }
            if q > sec {
                assert((sec + 1) * 1_000_000_000 <= q * 1_000_000_000) by (nonlinear_arith)
                    requires
                        sec + 1 <= q,
                ;
            }
        }
    }
}

/// How many timestamps of `s` fall in second `sec` counted from `start`.
pub open spec fn hits(s: Seq<u64>, start: u64, sec: u64) -> nat
    decreases s.len(),
{
    if s.len() == 0 {
        0
    } else {
        hits(s.drop_last(), start, sec) + if second_of(s.last(), start) == sec {
            1nat
        } else {
            0nat
        }
    }
}

/// `earliest` is a member of the sequence and no element is earlier.
pub proof fn lemma_earliest(s: Seq<u64>)
    requires
        s.len() > 0,
    ensures
        s.contains(earliest(s)),
        forall|i: int| 0 <= i < s.len() ==> earliest(s) <= #[trigger] s[i],
    decreases s.len(),
{
    if s.len() > 1 {
        lemma_earliest(s.drop_last());
        let e = earliest(s.drop_last());
        let j = choose|j: int| 0 <= j < s.drop_last().len() && s.drop_last()[j] == e;
        assert(s[j] == e);
        if s.last() < e {
            assert(s[s.len() - 1] == s.last());
        }
        assert forall|i: int| 0 <= i < s.len() implies earliest(s) <= #[trigger] s[i] by {
            if i < s.len() - 1 {
                assert(s[i] == s.drop_last()[i]);
            }
        }
    } else {
        assert(s[0] == earliest(s));
    }
}

/// A second holds no more timestamps than the whole sequence.
pub proof fn lemma_hits_bounded(s: Seq<u64>, start: u64, sec: u64)
    ensures
        hits(s, start, sec) <= s.len(),
    decreases s.len(),
{
    if s.len() > 0 {
        lemma_hits_bounded(s.drop_last(), start, sec);
    }
}

/// The timestamps of `s` that fall in the seconds `0 .. m` counted from `start`.
pub open spec fn hits_below(s: Seq<u64>, start: u64, m: nat) -> nat
    decreases m,
{
    if m == 0 {
        0
    } else {
        hits_below(s, start, (m - 1) as nat) + hits(s, start, (m - 1) as u64)
    }
}

proof fn lemma_hits_below_push(s: Seq<u64>, x: u64, start: u64, m: nat)
    requires
        m <= u64::MAX,
    ensures
        hits_below(s.push(x), start, m) == hits_below(s, start, m) + if second_of(x, start) < m {
            1nat
        } else {
            0nat
        },
    decreases m,
{
    if m > 0 {
        lemma_hits_below_push(s, x, start, (m - 1) as nat);
        assert(s.push(x).drop_last() == s);
    }
}

/// The earliest timestamp falls in second zero, so second zero always has
/// a count.
pub proof fn lemma_first_second_counted(s: Seq<u64>)
    requires
        s.len() > 0,
    ensures
        hits(s, earliest(s), 0) > 0,
{
    lemma_earliest(s);
    let e = earliest(s);
    let j = choose|j: int| 0 <= j < s.len() && s[j] == e;
    lemma_hits_positive(s, e, j);
}

proof fn lemma_hits_positive(s: Seq<u64>, start: u64, j: int)
    requires
        0 <= j < s.len(),
        s[j] == start,
    ensures
        hits(s, start, 0) > 0,
    decreases s.len(),
{
    if j < s.len() - 1 {
        assert(s.drop_last()[j] == s[j]);
        lemma_hits_positive(s.drop_last(), start, j);
    }
}

/// Every timestamp is counted in exactly one second: over any run of
/// seconds `0 .. m` that reaches past the last timestamp, the counts add
/// up to the number of timestamps.
pub proof fn lemma_counts_add_up(s: Seq<u64>, start: u64, m: nat)
    requires
        m <= u64::MAX,
        forall|i: int| 0 <= i < s.len() ==> second_of(#[trigger] s[i], start) < m,
    ensures
        hits_below(s, start, m) == s.len(),
    decreases s.len(),
{
    if s.len() == 0 {
        lemma_hits_below_empty(s, start, m);
    } else {
        let p = s.drop_last();
        assert forall|i: int| 0 <= i < p.len() implies second_of(#[trigger] p[i], start) < m by {
            assert(p[i] == s[i]);
        }
        lemma_counts_add_up(p, start, m);
        assert(p.push(s.last()) == s);
        assert(second_of(s[s.len() - 1], start) < m);
        lemma_hits_below_push(p, s.last(), start, m);
    }
}

proof fn lemma_hits_below_empty(s: Seq<u64>, start: u64, m: nat)
    requires
        s.len() == 0,
    ensures
        hits_below(s, start, m) == 0,
    decreases m,
{
    if m > 0 {
        lemma_hits_below_empty(s, start, (m - 1) as nat);
    }
}

proof fn lemma_hits_remove(s: Seq<u64>, i: int, start: u64, sec: u64)
    requires
        0 <= i < s.len(),
    ensures
        hits(s, start, sec) == hits(s.remove(i), start, sec) + if second_of(s[i], start) == sec {
            1nat
        } else {
            0nat
        },
    decreases s.len(),
{
    if i == s.len() - 1 {
        assert(s.remove(i) =~= s.drop_last());
    } else {
        let p = s.drop_last();
        lemma_hits_remove(p, i, start, sec);
        assert(s.remove(i).drop_last() =~= p.remove(i));
        assert(s.remove(i).last() == s.last());
        assert(p[i] == s[i]);
    }
}

proof fn lemma_hits_same_multiset(s1: Seq<u64>, s2: Seq<u64>, start: u64, sec: u64)
    requires
        s1.to_multiset() == s2.to_multiset(),
    ensures
        hits(s1, start, sec) == hits(s2, start, sec),
    decreases s2.len(),
{
    s1.to_multiset_ensures();
    s2.to_multiset_ensures();
    if s2.len() == 0 {
        assert(s1.len() == 0);
    } else {
        let x = s2.last();
        let p2 = s2.drop_last();
        p2.to_multiset_ensures();
        assert(p2.push(x) =~= s2);
        assert(s2.to_multiset() == p2.to_multiset().insert(x));
        assert(s1.to_multiset().count(x) > 0);
        assert(s1.contains(x));
        let i = choose|i: int| 0 <= i < s1.len() && s1[i] == x;
        let p1 = s1.remove(i);
        assert(p1.to_multiset() == s1.to_multiset().remove(x));
        assert(p1.to_multiset() =~= p2.to_multiset());
        lemma_hits_same_multiset(p1, p2, start, sec);
        lemma_hits_remove(s1, i, start, sec);
    }
}

/// The per-second counts do not depend on the order of the timestamps:
/// two sequences holding the same timestamps, each as often, have the
/// same earliest timestamp and the same count in every second.
pub proof fn lemma_qps_order_free(s1: Seq<u64>, s2: Seq<u64>)
    requires
        s1.len() > 0,
        s1.to_multiset() == s2.to_multiset(),
    ensures
        earliest(s1) == earliest(s2),
        forall|sec: u64|
            #[trigger] hits(s1, earliest(s1), sec) == hits(s2, earliest(s2), sec),
{
    s1.to_multiset_ensures();
    s2.to_multiset_ensures();
    lemma_earliest(s1);
    lemma_earliest(s2);
    let e1 = earliest(s1);
    let e2 = earliest(s2);
    assert(s1.to_multiset().count(e1) > 0);
    assert(s2.to_multiset().count(e1) > 0);
    assert(s2.contains(e1));
    assert(s2.to_multiset().count(e2) > 0);
    assert(s1.to_multiset().count(e2) > 0);
    assert(s1.contains(e2));
    let i = choose|i: int| 0 <= i < s2.len() && s2[i] == e1;
    let j = choose|j: int| 0 <= j < s1.len() && s1[j] == e2;
    assert(e2 <= s2[i]);
    assert(e1 <= s1[j]);
    assert forall|sec: u64| #[trigger] hits(s1, earliest(s1), sec) == hits(s2, earliest(s2), sec) by {
        lemma_hits_same_multiset(s1, s2, e1, sec);
    }
}

/// Every timestamp moved later by the same amount.
pub open spec fn shifted(s: Seq<u64>, d: u64) -> Seq<u64> {
    Seq::new(s.len(), |i: int| (s[i] + d) as u64)
}

proof fn lemma_hits_shifted(s: Seq<u64>, d: u64, start: u64, sec: u64)
    requires
        start + d <= u64::MAX,
        forall|i: int| 0 <= i < s.len() ==> #[trigger] s[i] + d <= u64::MAX,
    ensures
        hits(shifted(s, d), (start + d) as u64, sec) == hits(s, start, sec),
    decreases s.len(),
{
    if s.len() > 0 {
        let p = s.drop_last();
        assert(shifted(s, d).drop_last() =~= shifted(p, d));
        assert forall|i: int| 0 <= i < p.len() implies #[trigger] p[i] + d <= u64::MAX by {
            assert(p[i] == s[i]);
        }
        lemma_hits_shifted(p, d, start, sec);
        assert(s[s.len() - 1] + d <= u64::MAX);
        assert(shifted(s, d).last() == (s.last() + d) as u64);
    }
}

proof fn lemma_earliest_shifted(s: Seq<u64>, d: u64)
    requires
        s.len() > 0,
        forall|i: int| 0 <= i < s.len() ==> #[trigger] s[i] + d <= u64::MAX,
    ensures
        earliest(shifted(s, d)) == earliest(s) + d,
    decreases s.len(),
{
    if s.len() > 1 {
        let p = s.drop_last();
        assert(shifted(s, d).drop_last() =~= shifted(p, d));
        assert forall|i: int| 0 <= i < p.len() implies #[trigger] p[i] + d <= u64::MAX by {
            assert(p[i] == s[i]);
        }
        lemma_earliest_shifted(p, d);
        assert(s[s.len() - 1] + d <= u64::MAX);
        assert(shifted(s, d).last() == (s.last() + d) as u64);
    } else {
        assert(s[0] + d <= u64::MAX);
        assert(shifted(s, d)[0] == (s[0] + d) as u64);
    }
}

/// Moving every timestamp later by the same amount leaves every
/// per-second count unchanged, as long as no timestamp passes `u64::MAX`.
pub proof fn lemma_qps_shift_free(s: Seq<u64>, d: u64)
    requires
        s.len() > 0,
        forall|i: int| 0 <= i < s.len() ==> #[trigger] s[i] + d <= u64::MAX,
    ensures
        earliest(shifted(s, d)) == earliest(s) + d,
        forall|sec: u64| #[trigger]
            hits(shifted(s, d), earliest(shifted(s, d)), sec) == hits(s, earliest(s), sec),
{
    lemma_earliest_shifted(s, d);
    lemma_earliest(s);
    let j = choose|j: int| 0 <= j < s.len() && s[j] == earliest(s);
    assert(earliest(s) + d <= u64::MAX);
    assert forall|sec: u64| #[trigger]
        hits(shifted(s, d), earliest(shifted(s, d)), sec) == hits(s, earliest(s), sec) by {
        lemma_hits_shifted(s, d, earliest(s), sec);
    }
}

/// Counts, for every whole second since the earliest timestamp, how many
/// timestamps fall in it. A second in which nothing falls has no entry.
pub fn count_qps(instants: Vec<u64>) -> (r: BTreeMap<u64, u64>)
    requires
        instants.len() > 0,
    ensures
        forall|sec: u64| #[trigger]
            r@.contains_key(sec) <==> hits(instants@, earliest(instants@), sec) > 0,
        forall|sec: u64| #[trigger]
            tally_of(r@, sec) == hits(instants@, earliest(instants@), sec),
        r@.contains_key(0),
{
    let ghost s = instants@;
    let n = instants.len();
    let mut start: u64 = instants[0];
    let mut i: usize = 1;
    while i < n
        invariant
            n == s.len(),
            s == instants@,
            1 <= i <= n,
            start == earliest(s.take(i as int)),
        decreases n - i,
    {
        assert(s.take(i + 1).drop_last() == s.take(i as int));
        if instants[i] < start {
            start = instants[i];
        }
        i = i + 1;
    }
    assert(s.take(n as int) == s);
    proof {
        lemma_earliest(s);
    }
    let mut counter: Counter<u64> = Counter::new();
    let mut j: usize = 0;
    while j < n
        invariant
            n == s.len(),
            s == instants@,
            0 <= j <= n,
            start == earliest(s),
            forall|k: int| 0 <= k < s.len() ==> start <= #[trigger] s[k],
            forall|sec: u64| #[trigger]
                counter.counts().contains_key(sec) <==> hits(s.take(j as int), start, sec) > 0,
            forall|sec: u64| #[trigger]
                tally_of(counter.counts(), sec) == hits(s.take(j as int), start, sec),
        decreases n - j,
    {
        let t = instants[j];
        let sec = (t - start) / NANOS_PER_SEC;
        let ghost before = s.take(j as int);
        let ghost after = s.take(j + 1);
        assert(after.drop_last() == before);
        assert(after.last() == t);
        assert(sec == second_of(t, start));
        let ghost old_counts = counter.counts();
        proof {
            lemma_hits_bounded(before, start, sec);
        }
        counter.record(sec);
        j = j + 1;
        assert forall|x: u64|
            #[trigger] tally_of(counter.counts(), x) == hits(after, start, x) by {
            assert(tally_of(old_counts, x) == hits(before, start, x));
            assert(hits(after, start, x) == hits(before, start, x) + if second_of(t, start) == x {
                1nat
            } else {
                0nat
            });
        }
    }
    assert(s.take(n as int) == s);
    let r = counter.map;
    assert forall|sec: u64| #[trigger] tally_of(r@, sec) == hits(s, start, sec) by {
        assert(tally_of(counter.counts(), sec) == hits(s.take(n as int), start, sec));
    }
    assert forall|sec: u64| #[trigger]
        r@.contains_key(sec) <==> hits(s, start, sec) > 0 by {
        assert(counter.counts().contains_key(sec) <==> hits(s.take(n as int), start, sec) > 0);
    }
    proof {
        lemma_first_second_counted(s);
    }
    r
}

} // verus!
