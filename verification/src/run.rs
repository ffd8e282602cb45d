//! Per-request outcomes, the worker decision functions, and the runner that
//! collects and orders the results.

use vstd::prelude::*;
use crate::error::Error;
use crate::queue::RequestQueue;
use crate::queue::spec_min_index;
use crate::request::Request;
use crate::time::Seconds;

verus! {

broadcast use vstd::seq_lib::group_to_multiset_ensures;

/// What one HTTP exchange produced. `content` is kept only for non-2xx
/// responses whose body decodes as UTF-8; successful bodies are dropped to
/// keep the output small.
#[derive(Debug, PartialEq)]
pub struct Response {
    pub status: u16,
    pub content_length: u64,
    pub content: Option<String>,
}

impl Clone for Response {
    fn clone(&self) -> (r: Self)
        ensures
            r == *self,
    {
        Response {
            status: self.status,
            content_length: self.content_length,
            content: match &self.content {
                Option::Some(s) => Option::Some(s.clone()),
                Option::None => Option::None,
            },
        }
    }
}

/// Relies on String::from_utf8: it succeeds exactly on valid UTF-8 and then
/// returns the bytes' decoding.
#[verifier::external_body]
fn utf8_string(bytes: Vec<u8>) -> (r: Option<String>)
    ensures
        r is Some <==> vstd::utf8::valid_utf8(bytes@),
        (match r {
            Option::Some(s) => s@ == vstd::utf8::decode_utf8(bytes@),
            Option::None => true,
        }),
{
    match String::from_utf8(bytes) {
        Ok(s) => Option::Some(s),
        Err(_) => Option::None,
    }
}

impl Response {
    /// Builds the recorded response from the status code and the body bytes
    /// actually received.
    pub fn new(status: u16, body: Vec<u8>) -> (r: Response)
        ensures
            r.status == status,
            r.content_length == body@.len(),
            status / 100 == 2 ==> r.content is None,
            status / 100 != 2 ==> (match r.content {
                Option::Some(s) => vstd::utf8::valid_utf8(body@) && s@ == vstd::utf8::decode_utf8(
                    body@,
                ),
                Option::None => !vstd::utf8::valid_utf8(body@),
            }),
    {
        let content_length = body.len() as u64;
        let content = if status / 100 == 2 {
            Option::None
        } else {
            utf8_string(body)
        };
        Response { status, content_length, content }
    }
}

/// One request's outcome: a success with its response, or a failure with
/// its error. Both carry the request's stable sequence number, the
/// completion instant relative to the benchmark start, and the wall time
/// from dispatch to completion.
#[derive(Debug, PartialEq)]
pub enum RequestResult {
    Success { seq_no: usize, end_time: Seconds, elapsed: Seconds, response: Response },
    Failure { seq_no: usize, end_time: Seconds, elapsed: Seconds, error: Error },
}

impl Clone for RequestResult {
    fn clone(&self) -> (r: Self)
        ensures
            r == *self,
    {
        match self {
            RequestResult::Success { seq_no, end_time, elapsed, response } => (RequestResult::Success {
                seq_no: *seq_no,
                end_time: *end_time,
                elapsed: *elapsed,
                response: response.clone(),
            }),
            RequestResult::Failure { seq_no, end_time, elapsed, error } => (RequestResult::Failure {
                seq_no: *seq_no,
                end_time: *end_time,
                elapsed: *elapsed,
                error: error.clone(),
            }),
        }
    }
}

impl RequestResult {
    pub open spec fn spec_is_ok(&self) -> bool {
        match *self {
            RequestResult::Success { .. } => true,
            RequestResult::Failure { .. } => false,
        }
    }

    pub open spec fn spec_seq_no(&self) -> usize {
        match *self {
            RequestResult::Success { seq_no, .. } => seq_no,
            RequestResult::Failure { seq_no, .. } => seq_no,
        }
    }

    pub open spec fn spec_end_time(&self) -> Seconds {
        match *self {
            RequestResult::Success { end_time, .. } => end_time,
            RequestResult::Failure { end_time, .. } => end_time,
        }
    }

    pub open spec fn spec_elapsed(&self) -> Seconds {
        match *self {
            RequestResult::Success { elapsed, .. } => elapsed,
            RequestResult::Failure { elapsed, .. } => elapsed,
        }
    }

    /// A result is well formed when its elapsed time does not exceed its end
    /// time; the engine only produces such results, since a request is
    /// dispatched after the benchmark starts.
    pub open spec fn wf(&self) -> bool {
        self.spec_elapsed().nanos <= self.spec_end_time().nanos
    }

    /// The instant this request was dispatched, relative to the benchmark
    /// start: `end_time - elapsed`.
    pub open spec fn spec_start_time(&self) -> Seconds {
        Seconds { nanos: (self.spec_end_time().nanos - self.spec_elapsed().nanos) as u64 }
    }

    pub fn is_ok(&self) -> (r: bool)
        ensures
            r == self.spec_is_ok(),
    {
        match self {
            RequestResult::Success { .. } => true,
            RequestResult::Failure { .. } => false,
        }
    }

    pub fn seq_no(&self) -> (r: usize)
        ensures
            r == self.spec_seq_no(),
    {
        match self {
            RequestResult::Success { seq_no, .. } => *seq_no,
            RequestResult::Failure { seq_no, .. } => *seq_no,
        }
    }

    pub fn end_time(&self) -> (r: Seconds)
        ensures
            r == self.spec_end_time(),
    {
        match self {
            RequestResult::Success { end_time, .. } => *end_time,
            RequestResult::Failure { end_time, .. } => *end_time,
        }
    }

    pub fn elapsed(&self) -> (r: Seconds)
        ensures
            r == self.spec_elapsed(),
    {
        match self {
            RequestResult::Success { elapsed, .. } => *elapsed,
            RequestResult::Failure { elapsed, .. } => *elapsed,
        }
    }

    pub fn start_time(&self) -> (r: Seconds)
        requires
            self.wf(),
        ensures
            r == self.spec_start_time(),
    {
        self.end_time().sub(self.elapsed())
    }
}

/// Law: time arithmetic. For every well-formed result,
/// `start_time + elapsed == end_time`, exactly.
pub proof fn lemma_time_arithmetic(r: RequestResult)
    requires
        r.wf(),
    ensures
        r.spec_start_time().nanos + r.spec_elapsed().nanos == r.spec_end_time().nanos,
{
}

/// What a worker does next after consulting the queue in its idle state.
#[derive(Debug, PartialEq)]
pub enum WorkerAction {
    /// The queue is empty: the worker terminates.
    Finished,
    /// The least-keyed item is not due yet; it was put back and the worker
    /// sleeps until `deadline` (measured from the benchmark start).
    Wait { deadline: Seconds },
    /// Dispatch this request now.
    Execute { seq_no: usize, request: Request },
}

/// The idle-state transition of a worker: pop the least-keyed item; an empty
/// queue terminates the worker; an item scheduled after `now` (the elapsed
/// time since the benchmark start) is reinserted and waited for; anything
/// else is dispatched.
pub fn next_action(queue: &mut RequestQueue, now: Seconds) -> (r: WorkerAction)
    ensures
        old(queue)@.len() == 0 ==> r is Finished && final(queue)@ == old(queue)@,
        old(queue)@.len() > 0 ==> {
            let mi = spec_min_index(old(queue)@);
            let item = old(queue)@[mi];
            match item.request.start_time {
                Option::Some(s) => if s.nanos > now.nanos {
                    r == (WorkerAction::Wait { deadline: s }) && final(queue)@ == old(
                        queue,
                    )@.remove(mi).push(item)
                } else {
                    r == (WorkerAction::Execute { seq_no: item.seq_no, request: item.request })
                        && final(queue)@ == old(queue)@.remove(mi)
                },
                Option::None => r == (WorkerAction::Execute {
                    seq_no: item.seq_no,
                    request: item.request,
                }) && final(queue)@ == old(queue)@.remove(mi),
            }
        },
        (match r {
            WorkerAction::Execute { request, .. } => match request.start_time {
                Option::Some(s) => s.nanos <= now.nanos,
                Option::None => true,
            },
            _ => true,
        }),
{
    match queue.pop() {
        Option::None => WorkerAction::Finished,
        Option::Some((seq_no, request)) => {
            let due = match request.start_time {
                Option::Some(s) => if s.nanos > now.nanos {
                    Option::Some(s)
                } else {
                    Option::None
                },
                Option::None => Option::None,
            };
            match due {
                Option::Some(deadline) => {
                    queue.push(seq_no, request);
                    WorkerAction::Wait { deadline }
                }
                Option::None => WorkerAction::Execute { seq_no, request },
            }
        }
    }
}

/// Records the outcome of one dispatched request. `request_start` is the
/// instant the request was dispatched and `now` the completion instant, both
/// relative to the benchmark start.
pub fn finish_request(
    seq_no: usize,
    request_start: Seconds,
    now: Seconds,
    outcome: Result<Response, Error>,
) -> (r: RequestResult)
    requires
        request_start.nanos <= now.nanos,
    ensures
        r == (match outcome {
            Result::Ok(response) => RequestResult::Success {
                seq_no,
                end_time: now,
                elapsed: Seconds { nanos: (now.nanos - request_start.nanos) as u64 },
                response,
            },
            Result::Err(error) => RequestResult::Failure {
                seq_no,
                end_time: now,
                elapsed: Seconds { nanos: (now.nanos - request_start.nanos) as u64 },
                error,
            },
        }),
        r.wf(),
        r.spec_start_time() == request_start,
        r.spec_is_ok() <==> outcome is Ok,
{
    let elapsed = now.sub(request_start);
    match outcome {
        Result::Ok(response) => RequestResult::Success { seq_no, end_time: now, elapsed, response },
        Result::Err(error) => RequestResult::Failure { seq_no, end_time: now, elapsed, error },
    }
}

/// Law: schedule respect. A request scheduled at `scheduled` is dispatched at
/// some `request_start` with `scheduled <= request_start` (`next_action` only
/// returns `Execute` once the schedule time has passed), and the recorded
/// result's derived start time equals `request_start`; so every result's
/// start time is at or after its schedule.
pub proof fn lemma_schedule_respected(scheduled: Seconds, request_start: Seconds, r: RequestResult)
    requires
        scheduled.nanos <= request_start.nanos,
        r.wf(),
        r.spec_start_time() == request_start,
    ensures
        r.spec_start_time().nanos >= scheduled.nanos,
{
}

/// Results ordered by their stable sequence numbers.
pub open spec fn sorted_by_seq_no(s: Seq<RequestResult>) -> bool {
    forall|i: int, j: int| 0 <= i < j < s.len() ==> s[i].spec_seq_no() <= s[j].spec_seq_no()
}

/// Sorts results by `seq_no` ascending; the output holds exactly the input
/// results.
pub fn sort_by_seq_no(results: Vec<RequestResult>) -> (r: Vec<RequestResult>)
    ensures
        sorted_by_seq_no(r@),
        r@.to_multiset() == results@.to_multiset(),
        r@.len() == results@.len(),
{
    let mut remaining = results;
    let mut out: Vec<RequestResult> = Vec::new();
    let ghost all = remaining@;
    while remaining.len() > 0
        invariant
            out@.to_multiset().add(remaining@.to_multiset()) == all.to_multiset(),
            out@.len() + remaining@.len() == all.len(),
            sorted_by_seq_no(out@),
            forall|i: int, j: int|
                0 <= i < out@.len() && 0 <= j < remaining@.len() ==> #[trigger] out@[i].spec_seq_no()
                    <= #[trigger] remaining@[j].spec_seq_no(),
        decreases remaining@.len(),
    {
        let n = remaining.len();
        let mut mi: usize = 0;
        let mut k: usize = 1;
        while k < n
            invariant
                1 <= k <= n,
                n == remaining@.len(),
                mi < k,
                forall|j: int|
                    0 <= j < k ==> remaining@[mi as int].spec_seq_no()
                        <= #[trigger] remaining@[j].spec_seq_no(),
            decreases n - k,
        {
            if remaining[k].seq_no() < remaining[mi].seq_no() {
                mi = k;
            }
            k += 1;
        }
        let ghost before = remaining@;
        let ghost outb = out@;
        let x = remaining.remove(mi);
        out.push(x);
        proof {
            assert(out@.to_multiset() =~= outb.to_multiset().insert(x));
            assert(remaining@.to_multiset() =~= before.to_multiset().remove(x));
            assert(out@.to_multiset().add(remaining@.to_multiset()) =~= all.to_multiset());
            assert forall|i: int, j: int|
                0 <= i < out@.len() && 0 <= j < remaining@.len() implies #[trigger] out@[i].spec_seq_no()
                <= #[trigger] remaining@[j].spec_seq_no() by {
                if j < mi {
                    assert(remaining@[j] == before[j]);
                } else {
                    assert(remaining@[j] == before[j + 1]);
                }
            }
        }
    }
    out
}

/// Law: seq-no preservation. When a run of `n` requests yields results whose
/// sequence numbers are pairwise distinct and below `n` (each request is
/// popped and recorded exactly once), the sorted output carries exactly the
/// sequence numbers `0..n-1`, in order.
pub proof fn lemma_seq_no_preservation(results: Seq<RequestResult>, n: nat)
    requires
        results.len() == n,
        sorted_by_seq_no(results),
        forall|i: int| 0 <= i < n ==> (#[trigger] results[i].spec_seq_no()) < n,
        forall|i: int, j: int|
            0 <= i < j < n ==> results[i].spec_seq_no() != results[j].spec_seq_no(),
    ensures
        forall|i: int| 0 <= i < n ==> (#[trigger] results[i].spec_seq_no()) == i,
{
    assert forall|i: int| 0 <= i < n implies (#[trigger] results[i].spec_seq_no()) == i by {
        lemma_seq_no_lower(results, i);
        lemma_seq_no_upper(results, n, i);
    }
}

proof fn lemma_seq_no_lower(results: Seq<RequestResult>, i: int)
    requires
        sorted_by_seq_no(results),
        forall|p: int, q: int|
            0 <= p < q < results.len() ==> results[p].spec_seq_no() != results[q].spec_seq_no(),
        0 <= i < results.len(),
    ensures
        results[i].spec_seq_no() >= i,
    decreases i,
{
    if i > 0 {
        lemma_seq_no_lower(results, i - 1);
    }
}

proof fn lemma_seq_no_upper(results: Seq<RequestResult>, n: nat, i: int)
    requires
        results.len() == n,
        sorted_by_seq_no(results),
        forall|p: int| 0 <= p < n ==> (#[trigger] results[p].spec_seq_no()) < n,
        forall|p: int, q: int|
            0 <= p < q < n ==> results[p].spec_seq_no() != results[q].spec_seq_no(),
        0 <= i < n,
    ensures
        results[i].spec_seq_no() <= i,
    decreases n - i,
{
    if i < n - 1 {
        lemma_seq_no_upper(results, n, i + 1);
    }
}

/// Configuration for a run: how many workers to spawn and how many idle
/// connections the pool may keep.
#[derive(Clone, Copy, Debug, PartialEq, Eq, Structural)]
pub struct RunnerBuilder {
    pub concurrency: usize,
    pub connection_pool_size: usize,
}

impl Default for RunnerBuilder {
    fn default() -> (r: Self)
        ensures
            r.concurrency == 128,
            r.connection_pool_size == 4096,
    {
        RunnerBuilder { concurrency: 128, connection_pool_size: 4096 }
    }
}

impl RunnerBuilder {
    pub fn new() -> (r: Self)
        ensures
            r.concurrency == 128,
            r.connection_pool_size == 4096,
    {
        RunnerBuilder::default()
    }

    pub fn concurrency(self, concurrency: usize) -> (r: Self)
        ensures
            r.concurrency == concurrency,
            r.connection_pool_size == self.connection_pool_size,
    {
        RunnerBuilder { concurrency, ..self }
    }

    pub fn connection_pool_size(self, size: usize) -> (r: Self)
        ensures
            r.concurrency == self.concurrency,
            r.connection_pool_size == size,
    {
        RunnerBuilder { connection_pool_size: size, ..self }
    }

    /// Prepares the collector for a run over the given queue: exactly one
    /// result per queued request will be awaited.
    pub fn finish(self, requests: &RequestQueue) -> (r: Runner)
        ensures
            r.expected == requests@.len(),
            r.results@.len() == 0,
            r.config == self,
    {
        Runner { config: self, expected: requests.len(), results: Vec::new() }
    }
}

/// Collects one result per request from the workers and, once all are in,
/// returns them sorted by sequence number. Spawning the workers and draining
/// the channel they send on is the caller's concern.
#[derive(Debug)]
pub struct Runner {
    pub config: RunnerBuilder,
    pub expected: usize,
    pub results: Vec<RequestResult>,
}

impl Runner {
    pub fn new(requests: &RequestQueue) -> (r: Runner)
        ensures
            r.expected == requests@.len(),
            r.results@.len() == 0,
            r.config == (RunnerBuilder { concurrency: 128, connection_pool_size: 4096 }),
    {
        RunnerBuilder::new().finish(requests)
    }

    /// Takes one result from the channel. Returns the finished, seq-no-sorted
    /// output once the expected count is reached, and `None` while results
    /// are still outstanding.
    pub fn offer(&mut self, result: RequestResult) -> (done: Option<Vec<RequestResult>>)
        requires
            old(self).results@.len() < old(self).expected,
        ensures
            final(self).expected == old(self).expected,
            final(self).config == old(self).config,
            old(self).results@.len() + 1 < old(self).expected ==> done is None
                && final(self).results@ == old(self).results@.push(result),
            old(self).results@.len() + 1 == old(self).expected ==> (match done {
                Option::Some(out) => {
                    &&& sorted_by_seq_no(out@)
                    &&& out@.to_multiset() == old(self).results@.push(result).to_multiset()
                    &&& out@.len() == old(self).expected
                    &&& final(self).results@.len() == 0
                },
                Option::None => false,
            }),
    {
        self.results.push(result);
        if self.results.len() == self.expected {
            let mut collected: Vec<RequestResult> = Vec::new();
            core::mem::swap(&mut collected, &mut self.results);
            Option::Some(sort_by_seq_no(collected))
        } else {
            Option::None
        }
    }
}

} // verus!
