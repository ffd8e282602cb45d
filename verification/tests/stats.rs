use hb::error::Error;
use hb::run::RequestResult;
use hb::run::Response;
use hb::summary::unbiased_variance;
use hb::summary::Ratio;
use hb::summary::Summary;
use hb::time::Seconds;
use hb::time_series::TimeSeries;

fn secs(s: u64, nanos: u32) -> Seconds {
    Seconds::from_parts(s, nanos)
}

fn ok_result(seq_no: usize, end_time: Seconds, elapsed: Seconds, status: u16) -> RequestResult {
    RequestResult::Success {
        seq_no,
        end_time,
        elapsed,
        response: Response { status, content_length: 0, content: None },
    }
}

fn err_result(seq_no: usize, end_time: Seconds, elapsed: Seconds) -> RequestResult {
    RequestResult::Failure {
        seq_no,
        end_time,
        elapsed,
        error: Error::other(String::from("boom")),
    }
}

#[test]
fn var_works() {
    let samples = [0.7, -1.6, -0.2, -1.2, -0.1, 3.4, 3.7, 0.8, 0.0, 2.0]
        .iter()
        .map(|s| (s * 1_000_000_000.0) as i64)
        .collect::<Vec<_>>();
    let r = unbiased_variance(&samples);
    let var = r.num as f64 / (r.den as f64 * 1e18);
    assert_eq!((var * 10000.0).floor(), 32005.0);
}

#[test]
fn variance_of_empty_and_single_samples_is_zero() {
    assert_eq!(unbiased_variance(&vec![]), Ratio { num: 0, den: 1 });
    assert_eq!(unbiased_variance(&vec![42]), Ratio { num: 0, den: 1 });
}

#[test]
fn variance_is_an_exact_ratio() {
    // Samples 1, 2, 3: mean 2, squared deviations 1 + 0 + 1, unbiased
    // variance (3*14 - 36) / (3*2) = 6/6 = 1.
    let r = unbiased_variance(&vec![1, 2, 3]);
    assert_eq!(r, Ratio { num: 6, den: 6 });
}

#[test]
fn summary_of_empty_input() {
    let s = Summary::new(vec![]);
    assert_eq!(s.count.total, 0);
    assert_eq!(s.count.ok, 0);
    assert_eq!(s.count.error, 0);
    assert_eq!(s.duration, secs(0, 0));
    assert!(s.status.is_empty());
    assert_eq!(s.latency.min, secs(0, 0));
    assert_eq!(s.latency.max, secs(0, 0));
    assert_eq!(s.latency.var, Ratio { num: 0, den: 1 });
}

#[test]
fn summary_counts_statuses_and_latencies() {
    // Statuses [200, 200, 500, 200] with elapsed [0.1, 0.2, 0.3, 0.4].
    let results = vec![
        ok_result(0, secs(0, 100_000_000), secs(0, 100_000_000), 200),
        ok_result(1, secs(0, 200_000_000), secs(0, 200_000_000), 200),
        ok_result(2, secs(0, 300_000_000), secs(0, 300_000_000), 500),
        ok_result(3, secs(0, 400_000_000), secs(0, 400_000_000), 200),
    ];
    let s = Summary::new(results);
    assert_eq!(s.count.total, 4);
    assert_eq!(s.count.ok, 4);
    assert_eq!(s.count.error, 0);
    // Non-2xx Success results are counted by status too.
    assert_eq!(s.status, vec![(200u16, 3usize), (500u16, 1usize)]);
    assert_eq!(s.duration, secs(0, 400_000_000));
    assert_eq!(s.latency.min, secs(0, 100_000_000));
    assert_eq!(s.latency.median, secs(0, 300_000_000));
    assert_eq!(s.latency.mean, secs(0, 250_000_000));
    assert_eq!(s.latency.max, secs(0, 400_000_000));
}

#[test]
fn summary_separates_ok_and_error_counts() {
    let results = vec![
        ok_result(0, secs(1, 0), secs(0, 100_000_000), 200),
        err_result(1, secs(2, 0), secs(0, 200_000_000)),
        ok_result(2, secs(3, 0), secs(0, 300_000_000), 404),
    ];
    let s = Summary::new(results);
    assert_eq!(s.count.total, 3);
    assert_eq!(s.count.ok, 2);
    assert_eq!(s.count.error, 1);
    // Only ok results count toward the status table.
    assert_eq!(s.status, vec![(200u16, 1usize), (404u16, 1usize)]);
    assert_eq!(s.duration, secs(3, 0));
}

#[test]
fn summary_latency_ordering_holds() {
    let results = vec![
        ok_result(0, secs(1, 0), secs(0, 900_000_000), 200),
        ok_result(1, secs(2, 0), secs(0, 100_000_000), 200),
        ok_result(2, secs(3, 0), secs(0, 500_000_000), 200),
    ];
    let s = Summary::new(results);
    assert!(s.latency.min.nanos <= s.latency.median.nanos);
    assert!(s.latency.median.nanos <= s.latency.max.nanos);
    assert!(s.latency.min.nanos <= s.latency.mean.nanos);
    assert!(s.latency.mean.nanos <= s.latency.max.nanos);
    assert_eq!(s.latency.median, secs(0, 500_000_000));
}

#[test]
fn time_series_of_empty_input_is_empty() {
    let ts = TimeSeries::new(vec![]);
    assert!(ts.0.is_empty());
}

#[test]
fn time_series_buckets_by_start_second() {
    // Start times 0.2, 0.5 and 1.7: two occupied seconds, second 2 omitted.
    let results = vec![
        ok_result(0, secs(0, 400_000_000), secs(0, 200_000_000), 200),
        ok_result(1, secs(0, 800_000_000), secs(0, 300_000_000), 200),
        ok_result(2, secs(1, 800_000_000), secs(0, 100_000_000), 200),
    ];
    let ts = TimeSeries::new(results);
    assert_eq!(ts.0.len(), 2);
    assert_eq!(ts.0[0].time, 0);
    assert_eq!(ts.0[0].requests, 2);
    assert_eq!(ts.0[1].time, 1);
    assert_eq!(ts.0[1].requests, 1);
    assert_eq!(ts.0[1].latency.min, secs(0, 100_000_000));
    assert_eq!(ts.0[1].latency.max, secs(0, 100_000_000));
}

#[test]
fn time_series_bucket_statistics_are_exact() {
    // One second holding latencies 0.1 and 0.3: the median is the element at
    // index floor(2/2) = 1 of the sorted list, the larger one.
    let results = vec![
        ok_result(0, secs(0, 400_000_000), secs(0, 300_000_000), 200),
        ok_result(1, secs(0, 600_000_000), secs(0, 100_000_000), 200),
    ];
    let ts = TimeSeries::new(results);
    assert_eq!(ts.0.len(), 1);
    assert_eq!(ts.0[0].time, 0);
    assert_eq!(ts.0[0].requests, 2);
    assert_eq!(ts.0[0].latency.min, secs(0, 100_000_000));
    assert_eq!(ts.0[0].latency.median, secs(0, 300_000_000));
    assert_eq!(ts.0[0].latency.mean, secs(0, 200_000_000));
    assert_eq!(ts.0[0].latency.max, secs(0, 300_000_000));
}
