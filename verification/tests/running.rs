use nara::bencher::{BenchStep, Bencher};
use nara::reporter::{Event, Message, Progress, Report};
use nara::server::{Batcher, Server};

fn done(id: usize, sent: u64, received: u64) -> Event {
    Event::RequestDone(Message { query_id: id, sent, received })
}

#[test]
fn report_answers_progress() {
    let mut r = Report::new();
    assert_eq!(r.handle(Event::RequestStart), Progress::Advance);
    assert_eq!(r.handle(done(0, 10, 20)), Progress::Unchanged);
    assert_eq!(r.handle(Event::RequestErrored("boom".to_string())), Progress::Unchanged);
    assert_eq!(r.handle(Event::WaitForConn(3_000)), Progress::Unchanged);
    assert_eq!(r.handle(Event::TrialDone), Progress::Finish);
}

#[test]
fn report_counts_successes_and_failures() {
    let mut r = Report::new();
    for _ in 0..3 {
        r.handle(Event::RequestStart);
    }
    r.handle(done(0, 1_000, 3_000_000));
    r.handle(done(1, 2_000, 1_500_000_000));
    r.handle(Event::RequestErrored("connection refused".to_string()));
    assert_eq!(r.successful(), 2);
    assert!(r.fell_short(3));
    assert!(!r.fell_short(2));
    let errors = r.errors().entries();
    assert_eq!(errors.len(), 1);
    assert_eq!(errors[0], ("connection refused".to_string(), 1));
}

#[test]
fn report_latencies_in_microseconds() {
    let mut r = Report::new();
    r.handle(done(4, 1_000, 3_001_999));
    r.handle(done(2, 5_000, 4_000));
    assert_eq!(r.latencies(), vec![(4, 3_000), (2, 0)]);
}

#[test]
fn report_qps_of_sent_and_received() {
    let mut r = Report::new();
    r.handle(done(0, 0, 2_000_000_000));
    r.handle(done(1, 100, 2_100_000_000));
    r.handle(done(2, 1_000_000_000, 2_200_000_000));
    let sent = r.sent_qps();
    assert_eq!(sent.get(&0), Some(&2));
    assert_eq!(sent.get(&1), Some(&1));
    let recv = r.received_qps();
    assert_eq!(recv.get(&0), Some(&3));
    assert_eq!(recv.len(), 1);
    assert_eq!(r.sent_times(), vec![0, 100, 1_000_000_000]);
    assert_eq!(r.received_times(), vec![2_000_000_000, 2_100_000_000, 2_200_000_000]);
}

#[test]
fn fresh_report_is_empty() {
    let r = Report::new();
    assert_eq!(r.successful(), 0);
    assert!(r.errors().entries().is_empty());
    assert!(r.wait_times().is_empty());
    assert!(r.latencies().is_empty());
}

#[test]
fn report_keeps_completions_in_arrival_order() {
    let mut r = Report::new();
    r.handle(done(1, 0, 1_000));
    r.handle(Event::RequestStart);
    r.handle(done(0, 0, 7_000));
    r.handle(Event::TrialDone);
    assert_eq!(r.successful(), 2);
    assert_eq!(r.latencies(), vec![(1, 1), (0, 7)]);
}

#[test]
fn report_records_wait_times_in_microseconds() {
    let mut r = Report::new();
    r.handle(Event::WaitForConn(5_000));
    r.handle(Event::WaitForConn(12_345));
    r.handle(Event::WaitForConn(999));
    assert_eq!(r.wait_times(), &vec![5, 12, 0]);
}

#[test]
fn bench_schedule_alternates_requests_and_pauses() {
    let b = Bencher { num_requests: 2, url: "http://127.0.0.1:3000".to_string(), delay_for_us: 7, max_conn: 5 };
    let mut run = b.run();
    let mut steps = Vec::new();
    while let Some(s) = run.next_step() {
        steps.push(s);
    }
    assert_eq!(
        steps,
        vec![
            BenchStep::StartRequest,
            BenchStep::Pause(7),
            BenchStep::StartRequest,
            BenchStep::Pause(7),
            BenchStep::AwaitAll,
            BenchStep::Finish,
        ]
    );
    assert_eq!(run.next_step(), None);
}

#[test]
fn bench_schedule_without_requests() {
    let b = Bencher { num_requests: 0, url: String::new(), delay_for_us: 1_000, max_conn: 1 };
    let mut run = b.run();
    assert_eq!(run.next_step(), Some(BenchStep::AwaitAll));
    assert_eq!(run.next_step(), Some(BenchStep::Finish));
    assert_eq!(run.next_step(), None);
}

#[test]
fn batcher_releases_full_batches_last_first() {
    let mut b: Batcher<u32> = Batcher::new(2);
    assert_eq!(b.arrive(1), vec![]);
    assert_eq!(b.arrive(2), vec![(2, 0), (1, 0)]);
    assert_eq!(b.arrive(3), vec![]);
    assert_eq!(b.arrive(4), vec![(4, 1), (3, 1)]);
}

#[test]
fn batcher_of_one_releases_every_arrival() {
    let server = Server { local_port: 3000, batch_size: 1 };
    let mut b: Batcher<&str> = Batcher::new(server.batch_size);
    assert_eq!(b.arrive("a"), vec![("a", 0)]);
    assert_eq!(b.arrive("b"), vec![("b", 1)]);
    assert_eq!(b.arrive("c"), vec![("c", 2)]);
}

#[test]
fn batcher_of_zero_never_releases() {
    let mut b: Batcher<u8> = Batcher::new(0);
    for i in 0..10u8 {
        assert!(b.arrive(i).is_empty());
    }
}
