//! Collection of the events of a benchmark run and the figures that are
//! reported from them.
use crate::qps::{count_qps, earliest, hits};
use crate::tally::ErrorTally;
use crate::util::{tally_bump, tally_of};
use std::collections::BTreeMap;
use vstd::arithmetic::div_mod::lemma_fundamental_div_mod;
use vstd::prelude::*;

verus! {

/// A completed request.
#[derive(Debug, Clone, Copy, PartialEq, Eq, Structural)]
pub struct Message {
    /// The number the request was given when it completed.
    pub query_id: usize,
    /// When the request was sent, in nanoseconds.
    pub sent: u64,
    /// When its response had been read, in nanoseconds.
    pub received: u64,
}

/// What the load generator reports while it runs.
#[derive(Debug, Clone)]
pub enum Event {
    /// A request is about to be sent.
    RequestStart,
    /// A request completed.
    RequestDone(Message),
    /// A request failed; the text describes the failure.
    RequestErrored(String),
    /// A bencher has sent all its requests and seen them finish.
    TrialDone,
    /// A request waited this many nanoseconds for a free connection.
    WaitForConn(u64),
}

/// What the progress display should do in answer to an event.
#[derive(Debug, Clone, Copy, PartialEq, Eq, Structural)]
pub enum Progress {
    /// Count one more request as sent.
    Advance,
    /// Mark the run as finished.
    Finish,
    /// Nothing changes on the display.
    Unchanged,
}

/// The content of a report.
pub struct ReportView {
    /// The completed requests, in the order in which they were reported.
    pub messages: Seq<Message>,
    /// How many times each failure text was reported.
    pub errors: Map<Seq<char>, u64>,
    /// The connection wait times, in whole microseconds, in the order in
    /// which they were reported.
    pub waits: Seq<u64>,
}

/// The content of a report in which nothing has been recorded.
pub open spec fn empty_report() -> ReportView {
    ReportView { messages: Seq::empty(), errors: Map::empty(), waits: Seq::empty() }
}

/// The report after one more event.
pub open spec fn after_event(v: ReportView, e: Event) -> ReportView {
    match e {
        Event::RequestDone(m) => ReportView {
            messages: v.messages.push(m),
            errors: v.errors,
            waits: v.waits,
        },
        Event::RequestErrored(text) => ReportView {
            messages: v.messages,
            errors: tally_bump(v.errors, text@),
            waits: v.waits,
        },
        Event::WaitForConn(nanos) => ReportView {
            messages: v.messages,
            errors: v.errors,
            waits: v.waits.push((nanos / 1000) as u64),
        },
        _ => v,
    }
}

/// What the progress display does in answer to an event.
pub open spec fn progress_for(e: Event) -> Progress {
    match e {
        Event::RequestStart => Progress::Advance,
        Event::TrialDone => Progress::Finish,
        _ => Progress::Unchanged,
    }
}

/// An event can be taken unless it would push a failure count past `u64::MAX`.
pub open spec fn can_take(v: ReportView, e: Event) -> bool {
    e matches Event::RequestErrored(text) ==> tally_of(v.errors, text@) < u64::MAX
}

/// The send timestamps of the completed requests.
pub open spec fn sent_of(ms: Seq<Message>) -> Seq<u64> {
    Seq::new(ms.len(), |i: int| ms[i].sent)
}

/// The receive timestamps of the completed requests.
pub open spec fn received_of(ms: Seq<Message>) -> Seq<u64> {
    Seq::new(ms.len(), |i: int| ms[i].received)
}

/// The latency of a completed request in whole microseconds; zero when
/// the receive timestamp is not after the send timestamp.
pub open spec fn latency_micros(m: Message) -> u64 {
    if m.received >= m.sent {
        ((m.received - m.sent) / 1000) as u64
    } else {
        0
    }
}

/// A request's latency is the whole number of microseconds between its
/// send and its receipt, however long that is; a receipt that is not after
/// the send gives zero.
pub proof fn lemma_latency_is_whole_micros(m: Message)
    ensures
        m.received >= m.sent ==> latency_micros(m) * 1000 <= m.received - m.sent < (
        latency_micros(m) + 1) * 1000,
        m.received < m.sent ==> latency_micros(m) == 0,
{
    if m.received >= m.sent {
        lemma_fundamental_div_mod(m.received - m.sent, 1000);
    }
}

/// The progress display follows the kind of event alone: only a request
/// being sent advances it, only the end of a trial finishes it, and every
/// other event, whatever it carries, leaves it unchanged.
pub proof fn lemma_progress_by_kind(e: Event)
    ensures
        progress_for(e) == Progress::Advance <==> e is RequestStart,
        progress_for(e) == Progress::Finish <==> e is TrialDone,
        (e is RequestDone || e is RequestErrored || e is WaitForConn) ==> progress_for(e)
            == Progress::Unchanged,
{
}

/// The report after a stream of events, taken in order.
pub open spec fn replay(v: ReportView, events: Seq<Event>) -> ReportView
    decreases events.len(),
{
    if events.len() == 0 {
        v
    } else {
        after_event(replay(v, events.drop_last()), events.last())
    }
}

/// The completed requests of a stream of events, in order.
pub open spec fn completions(events: Seq<Event>) -> Seq<Message>
    decreases events.len(),
{
    if events.len() == 0 {
        Seq::empty()
    } else {
        match events.last() {
            Event::RequestDone(m) => completions(events.drop_last()).push(m),
            _ => completions(events.drop_last()),
        }
    }
}

/// How many failures with this text a stream of events reports.
pub open spec fn failures_of(events: Seq<Event>, text: Seq<char>) -> nat
    decreases events.len(),
{
    if events.len() == 0 {
        0
    } else {
        failures_of(events.drop_last(), text) + match events.last() {
            Event::RequestErrored(t) => if t@ == text {
                1nat
            } else {
                0nat
            },
            _ => 0nat,
        }
    }
}

/// The connection wait times, in whole microseconds, that a stream of events reports.
pub open spec fn waits_of(events: Seq<Event>) -> Seq<u64>
    decreases events.len(),
{
    if events.len() == 0 {
        Seq::empty()
    } else {
        match events.last() {
            Event::WaitForConn(nanos) => waits_of(events.drop_last()).push((nanos / 1000) as u64),
            _ => waits_of(events.drop_last()),
        }
    }
}

/// A report started empty accounts for every event it was given: it
/// holds exactly the completed requests, in order, counts each failure
/// text as often as it was reported, and holds every connection wait
/// time in order. This holds as long as no failure text is reported more than
/// `u64::MAX` times.
pub proof fn lemma_report_accounts_for_events(events: Seq<Event>)
    requires
        forall|text: Seq<char>| #[trigger] failures_of(events, text) <= u64::MAX,
    ensures
        replay(empty_report(), events).messages == completions(events),
        forall|text: Seq<char>|
            #[trigger] tally_of(replay(empty_report(), events).errors, text) == failures_of(
                events,
                text,
            ),
        replay(empty_report(), events).waits == waits_of(events),
    decreases events.len(),
{
    if events.len() > 0 {
        let p = events.drop_last();
        assert forall|text: Seq<char>| #[trigger] failures_of(p, text) <= u64::MAX by {
            assert(failures_of(p, text) <= failures_of(events, text));
        }
        lemma_report_accounts_for_events(p);
        let before = replay(empty_report(), p);
        let after = replay(empty_report(), events);
        assert forall|text: Seq<char>|
            #[trigger] tally_of(after.errors, text) == failures_of(events, text) by {
            assert(tally_of(before.errors, text) == failures_of(p, text));
            assert(failures_of(p, text) <= failures_of(events, text));
        }
    }
}

/// Accumulates the events of a run.
pub struct Report {
    messages: Vec<Message>,
    errors: ErrorTally,
    waits: Vec<u64>,
}

impl View for Report {
    type V = ReportView;

    closed spec fn view(&self) -> ReportView {
        ReportView {
            messages: self.messages@,
            errors: self.errors.counts(),
            waits: self.waits@,
        }
    }
}

impl Report {
    /// The failure tally is well formed.
    pub closed spec fn wf(&self) -> bool {
        self.errors.wf()
    }

    /// A report in which nothing has been recorded.
    pub fn new() -> (r: Report)
        ensures
            r.wf(),
            r@ == empty_report(),
    {
        Report { messages: Vec::new(), errors: ErrorTally::new(), waits: Vec::new() }
    }

    /// Takes one event into the report and says what the progress display
    /// should do about it.
    pub fn handle(&mut self, event: Event) -> (p: Progress)
        requires
            old(self).wf(),
            can_take(old(self)@, event),
        ensures
            final(self).wf(),
            final(self)@ == after_event(old(self)@, event),
            p == progress_for(event),
    {
        match event {
            Event::RequestStart => Progress::Advance,
            Event::RequestDone(m) => {
                self.messages.push(m);
                Progress::Unchanged
            },
            Event::RequestErrored(text) => {
                self.errors.record(text);
                Progress::Unchanged
            },
            Event::TrialDone => Progress::Finish,
            Event::WaitForConn(nanos) => {
                self.waits.push(nanos / 1000);
                Progress::Unchanged
            },
        }
    }
    /// How many requests completed.
    pub fn successful(&self) -> (n: usize)
        ensures
            n == self@.messages.len(),
    {
        self.messages.len()
    }

    /// Whether fewer or more requests completed than `num_requests`, in
    /// which case the failures are worth showing.
    pub fn fell_short(&self, num_requests: u64) -> (b: bool)
        ensures
            b == (self@.messages.len() != num_requests),
    {
        (self.messages.len() as u64) != num_requests
    }

    /// The send timestamps of the completed requests, in report order.
    pub fn sent_times(&self) -> (v: Vec<u64>)
        ensures
            v@ == sent_of(self@.messages),
    {
        let mut v: Vec<u64> = Vec::new();
        let mut i: usize = 0;
        while i < self.messages.len()
            invariant
                0 <= i <= self.messages@.len(),
                v@ == sent_of(self.messages@.take(i as int)),
            decreases self.messages@.len() - i,
        {
            v.push(self.messages[i].sent);
            i = i + 1;
            assert(v@ =~= sent_of(self.messages@.take(i as int)));
        }
        assert(self.messages@.take(i as int) == self.messages@);
        v
    }

    /// The receive timestamps of the completed requests, in report order.
    pub fn received_times(&self) -> (v: Vec<u64>)
        ensures
            v@ == received_of(self@.messages),
    {
        let mut v: Vec<u64> = Vec::new();
        let mut i: usize = 0;
        while i < self.messages.len()
            invariant
                0 <= i <= self.messages@.len(),
                v@ == received_of(self.messages@.take(i as int)),
            decreases self.messages@.len() - i,
        {
            v.push(self.messages[i].received);
            i = i + 1;
            assert(v@ =~= received_of(self.messages@.take(i as int)));
        }
        assert(self.messages@.take(i as int) == self.messages@);
        v
    }

    /// Requests sent per second, counted from the first send.
    pub fn sent_qps(&self) -> (r: BTreeMap<u64, u64>)
        requires
            self@.messages.len() > 0,
        ensures
            forall|sec: u64| #[trigger]
                tally_of(r@, sec) == hits(
                    sent_of(self@.messages),
                    earliest(sent_of(self@.messages)),
                    sec,
                ),
            forall|sec: u64| #[trigger]
                r@.contains_key(sec) <==> hits(
                    sent_of(self@.messages),
                    earliest(sent_of(self@.messages)),
                    sec,
                ) > 0,
    {
        count_qps(self.sent_times())
    }

    /// Responses received per second, counted from the first receipt.
    pub fn received_qps(&self) -> (r: BTreeMap<u64, u64>)
        requires
            self@.messages.len() > 0,
        ensures
            forall|sec: u64| #[trigger]
                tally_of(r@, sec) == hits(
                    received_of(self@.messages),
                    earliest(received_of(self@.messages)),
                    sec,
                ),
            forall|sec: u64| #[trigger]
                r@.contains_key(sec) <==> hits(
                    received_of(self@.messages),
                    earliest(received_of(self@.messages)),
                    sec,
                ) > 0,
    {
        count_qps(self.received_times())
    }

    /// Each completed request's query id with its latency in microseconds,
    /// in report order.
    pub fn latencies(&self) -> (v: Vec<(usize, u64)>)
        ensures
            v@.len() == self@.messages.len(),
            forall|i: int|
                0 <= i < v@.len() ==> #[trigger] v@[i] == (
                    self@.messages[i].query_id,
                    latency_micros(self@.messages[i]),
                ),
    {
        let mut v: Vec<(usize, u64)> = Vec::new();
        let mut i: usize = 0;
        while i < self.messages.len()
            invariant
                0 <= i <= self.messages@.len(),
                v@.len() == i,
                forall|j: int|
                    0 <= j < i ==> #[trigger] v@[j] == (
                        self.messages@[j].query_id,
                        latency_micros(self.messages@[j]),
                    ),
            decreases self.messages@.len() - i,
        {
            let m = self.messages[i];
            let micros: u64 = if m.received >= m.sent {
                (m.received - m.sent) / 1000
            } else {
                0
            };
            v.push((m.query_id, micros));
            i = i + 1;
        }
        v
    }

    /// The failures seen, with how often each was seen.
    pub fn errors(&self) -> (t: &ErrorTally)
        requires
            self.wf(),
        ensures
            t.wf(),
            t.counts() == self@.errors,
    {
        &self.errors
    }

    /// The connection wait times, in whole microseconds, in the order in
    /// which they were reported.
    pub fn wait_times(&self) -> (w: &Vec<u64>)
        ensures
            w@ == self@.waits,
    {
        &self.waits
    }
}

} // verus!
