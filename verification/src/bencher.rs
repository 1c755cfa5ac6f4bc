//! The schedule of a load generator: which request to send, when to pause,
//! and when the run is over.
use vstd::prelude::*;

verus! {

/// One load generator: it sends `num_requests` GET requests to `url`,
/// pausing `delay_for_us` microseconds after each, with at most `max_conn`
/// requests in flight.
#[derive(Debug, Clone)]
pub struct Bencher {
    pub num_requests: usize,
    pub url: String,
    pub delay_for_us: u64,
    pub max_conn: usize,
}

/// What a load generator does next.
#[derive(Debug, Clone, Copy, PartialEq, Eq, Structural)]
pub enum BenchStep {
    /// Announce a request and send it.
    StartRequest,
    /// Wait this many microseconds.
    Pause(u64),
    /// Wait until every request that was sent has finished.
    AwaitAll,
    /// Announce that the run is over.
    Finish,
}

/// The whole schedule of a run of `n` requests with the given pause:
/// `n` times a request followed by a pause, then waiting for all of them,
/// then the end of the run.
pub open spec fn bench_trace(n: nat, delay: u64) -> Seq<BenchStep> {
    Seq::new(
        2 * n,
        |i: int|
            if i % 2 == 0 {
                BenchStep::StartRequest
            } else {
                BenchStep::Pause(delay)
            },
    ).push(BenchStep::AwaitAll).push(BenchStep::Finish)
}

/// The schedule of `n` requests has `2 * n + 2` steps: at every even
/// position below `2 * n` a request is started, at every odd position below
/// `2 * n` the run pauses for exactly its configured delay, then it waits for
/// all requests and finishes.
pub proof fn lemma_schedule_steps(n: nat, delay: u64)
    ensures
        bench_trace(n, delay).len() == 2 * n + 2,
        forall|i: int|
            0 <= i < 2 * n && i % 2 == 0 ==> #[trigger] bench_trace(n, delay)[i]
                == BenchStep::StartRequest,
        forall|i: int|
            0 <= i < 2 * n && i % 2 == 1 ==> #[trigger] bench_trace(n, delay)[i] == BenchStep::Pause(
                delay,
            ),
        bench_trace(n, delay)[2 * n as int] == BenchStep::AwaitAll,
        bench_trace(n, delay)[2 * n as int + 1] == BenchStep::Finish,
{
}

/// How many requests a sequence of steps starts.
pub open spec fn starts_in(s: Seq<BenchStep>) -> nat
    decreases s.len(),
{
    if s.len() == 0 {
        0
    } else {
        starts_in(s.drop_last()) + if s.last() == BenchStep::StartRequest {
            1nat
        } else {
            0nat
        }
    }
}

/// How many times a sequence of steps ends the run.
pub open spec fn finishes_in(s: Seq<BenchStep>) -> nat
    decreases s.len(),
{
    if s.len() == 0 {
        0
    } else {
        finishes_in(s.drop_last()) + if s.last() == BenchStep::Finish {
            1nat
        } else {
            0nat
        }
    }
}

proof fn lemma_prefix_counts(n: nat, delay: u64, i: nat)
    requires
        i <= n,
    ensures
        starts_in(bench_trace(n, delay).take(2 * i as int)) == i,
        finishes_in(bench_trace(n, delay).take(2 * i as int)) == 0,
    decreases i,
{
    let t = bench_trace(n, delay);
    if i == 0 {
        assert(t.take(0) =~= Seq::<BenchStep>::empty());
    } else {
        lemma_prefix_counts(n, delay, (i - 1) as nat);
        let a = t.take(2 * i as int);
        let b = t.take(2 * i - 1);
        let c = t.take(2 * (i - 1));
        assert(a.drop_last() =~= b);
        assert(b.drop_last() =~= c);
        assert((2 * i - 1) % 2 == 1);
        assert((2 * i - 2) % 2 == 0);
        assert(a.last() == t[2 * i - 1]);
        assert(b.last() == t[2 * i - 2]);
        assert(t[2 * i - 1] == BenchStep::Pause(delay));
        assert(t[2 * i - 2] == BenchStep::StartRequest);
        assert(starts_in(b) == starts_in(c) + 1);
        assert(starts_in(a) == starts_in(b));
        assert(finishes_in(b) == finishes_in(c));
        assert(finishes_in(a) == finishes_in(b));
    }
}

/// A whole run of `n` requests starts exactly `n` requests, ends exactly
/// once, and ending is its last step.
pub proof fn lemma_schedule_counts(n: nat, delay: u64)
    ensures
        starts_in(bench_trace(n, delay)) == n,
        finishes_in(bench_trace(n, delay)) == 1,
        bench_trace(n, delay).last() == BenchStep::Finish,
{
    let t = bench_trace(n, delay);
    lemma_prefix_counts(n, delay, n);
    let u = t.drop_last();
    assert(u.drop_last() =~= t.take(2 * n as int));
    assert(t.last() == BenchStep::Finish);
    assert(u.last() == BenchStep::AwaitAll);
    assert(starts_in(u) == starts_in(u.drop_last()));
    assert(finishes_in(u) == finishes_in(u.drop_last()));
}

#[derive(Clone, Copy)]
enum Phase {
    /// This many requests have been started; the next step starts one or waits for all.
    Start(usize),
    /// This many requests have been started; the next step pauses.
    Pause(usize),
    /// Every request has finished; the next step ends the run.
    Finish,
    /// The run is over.
    Done,
}

/// A run of a load generator, handing out its steps one at a time.
pub struct BenchRun {
    total: usize,
    delay_us: u64,
    phase: Phase,
    emitted: Ghost<Seq<BenchStep>>,
}

impl BenchRun {
    /// How many requests the run sends.
    pub closed spec fn total(&self) -> nat {
        self.total as nat
    }

    /// The pause after each request, in microseconds.
    pub closed spec fn delay(&self) -> u64 {
        self.delay_us
    }

    /// The steps handed out so far.
    pub closed spec fn emitted(&self) -> Seq<BenchStep> {
        self.emitted@
    }

    /// The whole schedule of this run.
    pub open spec fn schedule(&self) -> Seq<BenchStep> {
        bench_trace(self.total(), self.delay())
    }

    /// The phase agrees with the steps handed out so far.
    pub closed spec fn wf(&self) -> bool {
        let t = bench_trace(self.total as nat, self.delay_us);
        match self.phase {
            Phase::Start(i) => i <= self.total && self.emitted@ == t.take(2 * i as int),
            Phase::Pause(i) => 1 <= i <= self.total && self.emitted@ == t.take(2 * i - 1),
            Phase::Finish => self.emitted@ == t.take(2 * self.total + 1),
            Phase::Done => self.emitted@ == t,
        }
    }

    /// A run that has handed out no step yet.
    pub fn new(total: usize, delay_us: u64) -> (r: BenchRun)
        ensures
            r.wf(),
            r.total() == total,
            r.delay() == delay_us,
            r.emitted() == Seq::<BenchStep>::empty(),
    {
        let r = BenchRun { total, delay_us, phase: Phase::Start(0), emitted: Ghost(Seq::empty()) };
        assert(bench_trace(total as nat, delay_us).take(0) == Seq::<BenchStep>::empty());
        r
    }

    /// The next step of the run, or `None` once the run is over. The steps
    /// handed out always follow the schedule, and `None` comes exactly when
    /// the whole schedule has been handed out.
    pub fn next_step(&mut self) -> (s: Option<BenchStep>)
        requires
            old(self).wf(),
        ensures
            final(self).wf(),
            final(self).total() == old(self).total(),
            final(self).delay() == old(self).delay(),
            final(self).emitted().is_prefix_of(final(self).schedule()),
            s is None <==> old(self).emitted() == old(self).schedule(),
            s is None ==> final(self).emitted() == old(self).emitted(),
            s matches Some(step) ==> final(self).emitted() == old(self).emitted().push(step),
    {
        let ghost t = bench_trace(self.total as nat, self.delay_us);
        let ghost before = self.emitted@;
        assert(t.len() == 2 * self.total + 2);
        let step = match self.phase {
            Phase::Start(i) => {
                if i < self.total {
                    assert(t[2 * i] == BenchStep::StartRequest);
                    self.phase = Phase::Pause(i + 1);
                    Some(BenchStep::StartRequest)
                } else {
                    assert(t[2 * i] == BenchStep::AwaitAll);
                    self.phase = Phase::Finish;
                    Some(BenchStep::AwaitAll)
                }
            },
            Phase::Pause(i) => {
                assert(t[2 * i - 1] == BenchStep::Pause(self.delay_us));
                self.phase = Phase::Start(i);
                Some(BenchStep::Pause(self.delay_us))
            },
            Phase::Finish => {
                assert(t[2 * self.total + 1] == BenchStep::Finish);
                self.phase = Phase::Done;
                Some(BenchStep::Finish)
            },
            Phase::Done => None,
        };
        match step {
            Some(st) => {
                self.emitted = Ghost(self.emitted@.push(st));
            },
            None => {},
        }
        proof {
            let k = before.len() as int;
            if step is Some {
                assert(step == Some(t[k]));
                assert(t.take(k + 1) =~= t.take(k).push(t[k]));
                assert(t.take(t.len() as int) =~= t);
            } else {
                assert(before.len() < t.len() ==> before != t);
            }
        }
        step
    }
}

impl Bencher {
    /// The schedule of this load generator's run.
    pub fn run(&self) -> (r: BenchRun)
        ensures
            r.wf(),
            r.total() == self.num_requests,
            r.delay() == self.delay_for_us,
            r.emitted() == Seq::<BenchStep>::empty(),
    {
        BenchRun::new(self.num_requests, self.delay_for_us)
    }
}

} // verus!
