//! The bundled test server and the batching of its requests.
use vstd::arithmetic::div_mod::{lemma_fundamental_div_mod, lemma_fundamental_div_mod_converse};
use vstd::prelude::*;

verus! {

/// The bundled HTTP server: the local port it listens on, and how many
/// requests it lets through together as one batch.
#[derive(Debug, Clone, Copy, PartialEq, Eq, Structural)]
pub struct Server {
    pub local_port: u16,
    pub batch_size: u64,
}

/// The state of a batcher: its batch size, the number of the batch being
/// filled, and the waiters in it, in arrival order.
pub struct BatcherView<W> {
    pub batch_size: u64,
    pub batch_id: u64,
    pub waiting: Seq<W>,
}

/// The notices for a full batch: the waiters from the last to arrive to
/// the first, each with the batch number.
pub open spec fn notices<W>(waiting: Seq<W>, batch_id: u64) -> Seq<(W, u64)> {
    Seq::new(waiting.len(), |i: int| (waiting[waiting.len() - 1 - i], batch_id))
}

/// Whether one more waiter closes the batch.
pub open spec fn closes_batch<W>(v: BatcherView<W>) -> bool {
    v.waiting.len() + 1 == v.batch_size
}

/// The batcher after one more waiter.
pub open spec fn after_arrival<W>(v: BatcherView<W>, w: W) -> BatcherView<W> {
    if closes_batch(v) {
        BatcherView { batch_size: v.batch_size, batch_id: (v.batch_id + 1) as u64, waiting: Seq::empty() }
    } else {
        BatcherView { batch_size: v.batch_size, batch_id: v.batch_id, waiting: v.waiting.push(w) }
    }
}

/// The notices that one more waiter causes.
pub open spec fn released_by<W>(v: BatcherView<W>, w: W) -> Seq<(W, u64)> {
    if closes_batch(v) {
        notices(v.waiting.push(w), v.batch_id)
    } else {
        Seq::empty()
    }
}

/// A batch that is being filled is never full.
pub open spec fn batch_open<W>(v: BatcherView<W>) -> bool {
    v.batch_size > 0 ==> v.waiting.len() < v.batch_size
}

/// An arrival can be taken unless a count would pass `u64::MAX`.
pub open spec fn can_arrive<W>(v: BatcherView<W>) -> bool {
    &&& v.waiting.len() < u64::MAX
    &&& closes_batch(v) ==> v.batch_id < u64::MAX
}

/// The batcher after a stream of arrivals, taken in order.
pub open spec fn arrive_all<W>(v: BatcherView<W>, ws: Seq<W>) -> BatcherView<W>
    decreases ws.len(),
{
    if ws.len() == 0 {
        v
    } else {
        after_arrival(arrive_all(v, ws.drop_last()), ws.last())
    }
}

/// All the notices that a stream of arrivals causes, in order.
pub open spec fn released_all<W>(v: BatcherView<W>, ws: Seq<W>) -> Seq<(W, u64)>
    decreases ws.len(),
{
    if ws.len() == 0 {
        Seq::empty()
    } else {
        released_all(v, ws.drop_last()) + released_by(arrive_all(v, ws.drop_last()), ws.last())
    }
}

/// A batcher that starts with batch number zero and no waiters.
pub open spec fn fresh_batcher<W>(batch_size: u64) -> BatcherView<W> {
    BatcherView { batch_size, batch_id: 0, waiting: Seq::empty() }
}

proof fn lemma_batch_index_below(i: int, d: int, q: int)
    requires
        d > 0,
        0 <= i < q * d,
    ensures
        0 <= (i / d) * d + (d - 1 - i % d) < q * d,
{
    lemma_fundamental_div_mod(i, d);
    let a = i / d;
    let m = i % d;
    assert(0 <= m < d);
    assert(a < q) by {
        if a >= q {
            assert(d * a >= d * q) by (nonlinear_arith)
                requires
                    a >= q,
                    d > 0,
            ;
            assert(q * d == d * q) by (nonlinear_arith);
        }
    }
    assert(a >= 0) by {
        if a < 0 {
            assert(d * a <= -d) by (nonlinear_arith)
                requires
                    a <= -1,
                    d > 0,
            ;
        }
    }
    assert(a * d + d <= q * d) by (nonlinear_arith)
        requires
            a + 1 <= q,
            d > 0,
    ;
    assert(a * d >= 0) by (nonlinear_arith)
        requires
            a >= 0,
            d > 0,
    ;
}

/// With a batch size `b > 0`, after `k` arrivals exactly `k / b` full
/// batches have been released, numbered from zero in order: notice `i`
/// carries batch number `i / b`; the last `k % b` arrivals still wait, in
/// arrival order. This holds as long as the batch numbers fit in a `u64`.
pub proof fn lemma_batches<W>(b: u64, ws: Seq<W>)
    requires
        b > 0,
        (ws.len() as int) / (b as int) <= u64::MAX,
    ensures
        arrive_all(fresh_batcher::<W>(b), ws).batch_size == b,
        arrive_all(fresh_batcher::<W>(b), ws).batch_id == (ws.len() as int) / (b as int),
        arrive_all(fresh_batcher::<W>(b), ws).waiting == ws.skip(
            ws.len() - (ws.len() as int) % (b as int),
        ),
        released_all(fresh_batcher::<W>(b), ws).len() == ws.len() - (ws.len() as int) % (b as int),
        forall|i: int|
            0 <= i < released_all(fresh_batcher::<W>(b), ws).len() ==> (#[trigger] released_all(
                fresh_batcher::<W>(b),
                ws,
            )[i]).1 == i / (b as int),
    decreases ws.len(),
{
    let f = fresh_batcher::<W>(b);
    let d = b as int;
    let k = ws.len() as int;
    if k == 0 {
        assert(ws.skip(0) =~= Seq::<W>::empty());
    } else {
        let p = ws.drop_last();
        lemma_fundamental_div_mod(k - 1, d);
        lemma_fundamental_div_mod(k, d);
        let q = (k - 1) / d;
        let r = (k - 1) % d;
        assert(q <= k / d) by {
            if q > k / d {
                assert(q >= k / d + 1);
                assert(d * q >= d * (k / d) + d) by (nonlinear_arith)
                    requires
                        q >= k / d + 1,
                        d > 0,
                ;
            }
        }
        lemma_batches(b, p);
        let v = arrive_all(f, p);
        let before = released_all(f, p);
        assert(v.batch_id == q);
        assert(v.waiting.len() == r) by {
            assert(p.skip(k - 1 - r).len() == r);
        }
        assert(d * q + d == (q + 1) * d) by (nonlinear_arith);
        assert(d * q == q * d) by (nonlinear_arith);
        assert(0 <= r < d);
        if r + 1 == d {
            lemma_fundamental_div_mod_converse(k, d, q + 1, 0);
            assert(ws.skip(k) =~= Seq::<W>::empty());
            let added = notices(v.waiting.push(ws.last()), v.batch_id);
            assert(released_all(f, ws) == before + added);
            assert forall|i: int|
                0 <= i < released_all(f, ws).len() implies (#[trigger] released_all(
                f,
                ws,
            )[i]).1 == i / d by {
                if i >= before.len() {
                    let j = i - before.len();
                    assert(i == (q) * d + j) by (nonlinear_arith)
                        requires
                            i == before.len() + j,
                            before.len() == k - 1 - r,
                            k - 1 == d * q + r,
                    ;
                    lemma_fundamental_div_mod_converse(i, d, q, j);
                    assert(released_all(f, ws)[i] == added[j]);
                } else {
                    assert(released_all(f, ws)[i] == before[i]);
                }
            }
        } else {
            lemma_fundamental_div_mod_converse(k, d, q, r + 1);
            assert(released_all(f, ws) =~= before);
            assert(ws.skip(k - (r + 1)) =~= p.skip(k - 1 - r).push(ws.last()));
        }
    }
}

/// Within each released batch the waiters come back last-arrived first:
/// with batch size `b > 0`, notice `i` hands back arrival
/// `(i / b) * b + (b - 1 - i % b)`, for every notice of any stream of
/// arrivals whose batch numbers fit in a `u64`.
pub proof fn lemma_batches_last_first<W>(b: u64, ws: Seq<W>)
    requires
        b > 0,
        (ws.len() as int) / (b as int) <= u64::MAX,
    ensures
        forall|i: int|
            0 <= i < released_all(fresh_batcher::<W>(b), ws).len() ==> (#[trigger] released_all(
                fresh_batcher::<W>(b),
                ws,
            )[i]).0 == ws[(i / (b as int)) * (b as int) + ((b as int) - 1 - i % (b as int))],
    decreases ws.len(),
{
    let f = fresh_batcher::<W>(b);
    let d = b as int;
    let k = ws.len() as int;
    if k > 0 {
        let p = ws.drop_last();
        lemma_batches(b, ws);
        lemma_fundamental_div_mod(k - 1, d);
        lemma_fundamental_div_mod(k, d);
        let q = (k - 1) / d;
        let r = (k - 1) % d;
        assert(q <= k / d) by {
            if q > k / d {
                assert(d * q >= d * (k / d) + d) by (nonlinear_arith)
                    requires
                        q >= k / d + 1,
                        d > 0,
                ;
            }
        }
        lemma_batches(b, p);
        lemma_batches_last_first(b, p);
        let v = arrive_all(f, p);
        let before = released_all(f, p);
        assert(v.batch_id == q);
        assert(v.waiting.len() == r) by {
            assert(p.skip(k - 1 - r).len() == r);
        }
        assert(d * q == q * d) by (nonlinear_arith);
        assert(0 <= r < d);
        if r + 1 == d {
            let added = notices(v.waiting.push(ws.last()), v.batch_id);
            assert(released_all(f, ws) == before + added);
            assert forall|i: int|
                0 <= i < released_all(f, ws).len() implies (#[trigger] released_all(f, ws)[i]).0
                == ws[(i / d) * d + (d - 1 - i % d)] by {
                if i >= before.len() {
                    let j = i - before.len();
                    assert(i == (q) * d + j) by (nonlinear_arith)
                        requires
                            i == before.len() + j,
                            before.len() == k - 1 - r,
                            k - 1 == d * q + r,
                    ;
                    lemma_fundamental_div_mod_converse(i, d, q, j);
                    assert(released_all(f, ws)[i] == added[j]);
                    assert(k - 1 - r == q * d);
                    assert(v.waiting == p.skip(q * d));
                    if j > 0 {
                        assert(added[j].0 == v.waiting[d - 1 - j]);
                        assert(v.waiting[d - 1 - j] == p[q * d + (d - 1 - j)]);
                        assert(p[q * d + (d - 1 - j)] == ws[q * d + (d - 1 - j)]);
                    } else {
                        assert(added[j].0 == ws.last());
                    }
                } else {
                    assert(released_all(f, ws)[i] == before[i]);
                    lemma_batch_index_below(i, d, q);
                }
            }
        } else {
            assert(released_all(f, ws) =~= before);
            assert forall|i: int|
                0 <= i < released_all(f, ws).len() implies (#[trigger] released_all(f, ws)[i]).0
                == ws[(i / d) * d + (d - 1 - i % d)] by {
                assert(released_all(f, ws)[i] == before[i]);
                lemma_batch_index_below(i, d, q);
            }
        }
    }
}

/// Groups waiting requests into batches of `batch_size` and releases a
/// batch, each waiter with the batch's number, once it is full.
pub struct Batcher<W> {
    batch_size: u64,
    batch_id: u64,
    curr_batch_size: u64,
    waiters: Vec<W>,
}

impl<W> View for Batcher<W> {
    type V = BatcherView<W>;

    closed spec fn view(&self) -> BatcherView<W> {
        BatcherView { batch_size: self.batch_size, batch_id: self.batch_id, waiting: self.waiters@ }
    }
}

impl<W> Batcher<W> {
    /// The count of the current batch agrees with its waiters, and the
    /// batch being filled is not full.
    pub closed spec fn wf(&self) -> bool {
        &&& self.curr_batch_size == self.waiters@.len()
        &&& batch_open(self@)
    }

    /// A batcher that starts with batch number zero and no waiters.
    pub fn new(batch_size: u64) -> (b: Batcher<W>)
        ensures
            b.wf(),
            b@ == (BatcherView::<W> { batch_size, batch_id: 0, waiting: Seq::empty() }),
    {
        Batcher { batch_size, batch_id: 0, curr_batch_size: 0, waiters: Vec::new() }
    }

    /// Takes one more waiter. When this fills the batch, every waiter of the
    /// batch is handed back, the last to arrive first, with the batch
    /// number, and the next batch starts empty.
    pub fn arrive(&mut self, waiter: W) -> (released: Vec<(W, u64)>)
        requires
            old(self).wf(),
            can_arrive(old(self)@),
        ensures
            final(self).wf(),
            final(self)@ == after_arrival(old(self)@, waiter),
            released@ == released_by(old(self)@, waiter),
            batch_open(final(self)@),
    {
        let ghost v = self@;
        self.curr_batch_size = self.curr_batch_size + 1;
        self.waiters.push(waiter);
        let mut released: Vec<(W, u64)> = Vec::new();
        if self.curr_batch_size == self.batch_size {
            let ghost full = self.waiters@;
            let ghost id = self.batch_id;
            let ghost all = notices(full, id);
            while self.waiters.len() > 0
                invariant
                    full.len() == released@.len() + self.waiters@.len(),
                    self.waiters@ == full.take(self.waiters@.len() as int),
                    released@ == all.take(released@.len() as int),
                    id == self.batch_id,
                    self.batch_size == v.batch_size,
                    self.batch_id == v.batch_id,
                    all == notices(full, id),
                decreases self.waiters@.len(),
            {
                let ghost k = released@.len() as int;
                let w = self.waiters.pop().unwrap();
                assert(w == full[full.len() - 1 - k]);
                released.push((w, self.batch_id));
                assert(all[k] == (w, id));
                assert(released@ =~= all.take(k + 1));
                assert(self.waiters@ =~= full.take(self.waiters@.len() as int));
            }
            assert(released@ =~= all);
            assert(self.waiters@ =~= Seq::<W>::empty());
            self.batch_id = self.batch_id + 1;
            self.curr_batch_size = 0;
        }
        proof {
            if !closes_batch(v) {
                assert(released@ =~= Seq::<(W, u64)>::empty());
            }
        }
        released
    }
    /// How many waiters the current batch holds.
    pub fn waiting(&self) -> (n: usize)
        ensures
            n == self@.waiting.len(),
    {
        self.waiters.len()
    }

    /// The number of the batch being filled.
    pub fn batch_id(&self) -> (id: u64)
        ensures
            id == self@.batch_id,
    {
        self.batch_id
    }

    /// How many waiters make a full batch.
    pub fn batch_size(&self) -> (size: u64)
        ensures
            size == self@.batch_size,
    {
        self.batch_size
    }
}

} // verus!
