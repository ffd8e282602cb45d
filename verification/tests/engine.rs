use hb::error::Error;
use hb::error::ErrorKind;
use hb::pool::ConnectionPool;
use hb::queue::RequestQueue;
use hb::request::Content;
use hb::request::Method;
use hb::request::Request;
use hb::request::Scheme;
use hb::request::Url;
use hb::run::finish_request;
use hb::run::next_action;
use hb::run::sort_by_seq_no;
use hb::run::RequestResult;
use hb::run::Response;
use hb::run::Runner;
use hb::run::RunnerBuilder;
use hb::run::WorkerAction;
use hb::time::Seconds;

fn url() -> Url {
    Url {
        scheme: Scheme::Http,
        host: String::from("localhost"),
        port: None,
        path: String::from("/"),
        query: None,
        fragment: None,
    }
}

fn request(start_time: Option<Seconds>) -> Request {
    Request { method: Method::Get, url: url(), content: None, timeout: None, start_time }
}

fn secs(s: u64, nanos: u32) -> Seconds {
    Seconds::from_parts(s, nanos)
}

fn ok_result(seq_no: usize, end_time: Seconds, elapsed: Seconds, status: u16) -> RequestResult {
    RequestResult::Success {
        seq_no,
        end_time,
        elapsed,
        response: Response { status, content_length: 0, content: None },
    }
}

#[test]
fn queue_assigns_seq_nos_in_input_order() {
    let mut q = RequestQueue::new(vec![request(None), request(None), request(None)]);
    assert_eq!(q.len(), 3);
    assert_eq!(q.pop().unwrap().0, 0);
    assert_eq!(q.pop().unwrap().0, 1);
    assert_eq!(q.pop().unwrap().0, 2);
    assert!(q.pop().is_none());
}

#[test]
fn queue_pops_by_start_time_then_seq_no() {
    let mut q = RequestQueue::new(vec![
        request(Some(secs(2, 0))),
        request(Some(secs(1, 0))),
        request(None),
        request(Some(secs(1, 0))),
    ]);
    // None sorts before any timed start; equal times break ties by seq_no.
    assert_eq!(q.pop().unwrap().0, 2);
    assert_eq!(q.pop().unwrap().0, 1);
    assert_eq!(q.pop().unwrap().0, 3);
    assert_eq!(q.pop().unwrap().0, 0);
    assert!(q.pop().is_none());
}

#[test]
fn queue_push_reinserts_under_same_ordering() {
    let mut q = RequestQueue::new(vec![request(Some(secs(5, 0)))]);
    q.push(7, request(None));
    assert_eq!(q.pop().unwrap().0, 7);
    assert_eq!(q.pop().unwrap().0, 0);
}

#[test]
fn worker_finishes_on_empty_queue() {
    let mut q = RequestQueue::new(vec![]);
    assert_eq!(next_action(&mut q, secs(0, 0)), WorkerAction::Finished);
}

#[test]
fn worker_waits_for_future_start_time_and_reinserts() {
    let mut q = RequestQueue::new(vec![request(Some(secs(0, 500_000_000)))]);
    let action = next_action(&mut q, secs(0, 0));
    assert_eq!(action, WorkerAction::Wait { deadline: secs(0, 500_000_000) });
    // The item went back: once the deadline passes it is dispatched.
    let action = next_action(&mut q, secs(0, 500_000_000));
    match action {
        WorkerAction::Execute { seq_no, .. } => assert_eq!(seq_no, 0),
        other => panic!("expected Execute, got {:?}", other),
    }
    assert_eq!(next_action(&mut q, secs(1, 0)), WorkerAction::Finished);
}

#[test]
fn worker_executes_untimed_item_immediately() {
    let mut q = RequestQueue::new(vec![request(None)]);
    match next_action(&mut q, secs(0, 0)) {
        WorkerAction::Execute { seq_no, request } => {
            assert_eq!(seq_no, 0);
            assert_eq!(request.method, Method::Get);
        }
        other => panic!("expected Execute, got {:?}", other),
    }
}

#[test]
fn finish_request_records_exact_times() {
    let response = Response { status: 200, content_length: 2, content: None };
    let r = finish_request(7, secs(1, 0), secs(1, 500_000_000), Ok(response));
    assert!(r.is_ok());
    assert_eq!(r.seq_no(), 7);
    assert_eq!(r.end_time(), secs(1, 500_000_000));
    assert_eq!(r.elapsed(), secs(0, 500_000_000));
    // Time arithmetic: start_time + elapsed == end_time, exactly.
    assert_eq!(r.start_time(), secs(1, 0));
    assert_eq!(r.start_time().add(r.elapsed()), r.end_time());
}

#[test]
fn finish_request_timeout_becomes_error_result() {
    let r = finish_request(0, secs(0, 0), secs(0, 100_000_000), Err(Error::timeout()));
    assert!(!r.is_ok());
    match r {
        RequestResult::Failure { error, .. } => assert_eq!(error.kind(), ErrorKind::Timeout),
        other => panic!("expected Failure, got {:?}", other),
    }
}

#[test]
fn schedule_is_respected_through_dispatch() {
    // A request scheduled at 0.5s popped by an idle worker at 0.7s runs at
    // once; the recorded start time is the dispatch instant, at or after the
    // schedule.
    let mut q = RequestQueue::new(vec![request(Some(secs(0, 500_000_000)))]);
    let now = secs(0, 700_000_000);
    match next_action(&mut q, now) {
        WorkerAction::Execute { seq_no, .. } => {
            let response = Response { status: 200, content_length: 0, content: None };
            let r = finish_request(seq_no, now, secs(0, 900_000_000), Ok(response));
            assert!(r.start_time().nanos >= 500_000_000);
        }
        other => panic!("expected Execute, got {:?}", other),
    }
}

#[test]
fn sort_by_seq_no_orders_results() {
    let sorted = sort_by_seq_no(vec![
        ok_result(2, secs(1, 0), secs(0, 1), 200),
        ok_result(0, secs(2, 0), secs(0, 2), 200),
        ok_result(1, secs(3, 0), secs(0, 3), 200),
    ]);
    let seqs: Vec<usize> = sorted.iter().map(|r| r.seq_no()).collect();
    assert_eq!(seqs, vec![0, 1, 2]);
}

#[test]
fn runner_collects_expected_count_and_sorts() {
    let q = RequestQueue::new(vec![request(None), request(None), request(None)]);
    let mut runner = RunnerBuilder::new().concurrency(1).finish(&q);
    assert!(runner.offer(ok_result(2, secs(1, 0), secs(0, 1), 200)).is_none());
    assert!(runner.offer(ok_result(0, secs(1, 0), secs(0, 2), 200)).is_none());
    let out = runner.offer(ok_result(1, secs(1, 0), secs(0, 3), 200)).unwrap();
    let seqs: Vec<usize> = out.iter().map(|r| r.seq_no()).collect();
    // Seq-no preservation: every input seq_no comes out, in order.
    assert_eq!(seqs, vec![0, 1, 2]);
}

#[test]
fn runner_builder_defaults_match_documentation() {
    let b = RunnerBuilder::new();
    assert_eq!(b.concurrency, 128);
    assert_eq!(b.connection_pool_size, 4096);
    let b = b.concurrency(32).connection_pool_size(16);
    assert_eq!(b.concurrency, 32);
    assert_eq!(b.connection_pool_size, 16);
    let q = RequestQueue::new(vec![request(None)]);
    let runner = Runner::new(&q);
    assert_eq!(runner.expected, 1);
    assert_eq!(runner.config.concurrency, 128);
}

#[test]
fn pool_reuses_most_recent_idle_connection() {
    let mut pool = ConnectionPool::new(4);
    assert!(pool.acquire(1).is_none());
    assert!(pool.release(1, 10));
    assert!(pool.release(1, 11));
    assert!(pool.release(2, 20));
    assert_eq!(pool.acquire(1), Some(11));
    assert_eq!(pool.acquire(1), Some(10));
    assert!(pool.acquire(1).is_none());
    assert_eq!(pool.acquire(2), Some(20));
}

#[test]
fn pool_discards_releases_beyond_cap() {
    let mut pool = ConnectionPool::new(2);
    assert!(pool.release(1, 10));
    assert!(pool.release(1, 11));
    // Pool bound: a third idle connection would exceed the cap.
    assert!(!pool.release(2, 20));
    assert_eq!(pool.idle.len(), 2);
    assert_eq!(pool.acquire(2), None);
}
