//! The shared request queue: a priority queue keyed lexicographically by
//! `(start_time, seq_no)` ascending, where a missing start time sorts before
//! any timed one.

use vstd::prelude::*;
use crate::request::Request;

verus! {

/// One queued request with its stable sequence number.
#[derive(Debug, PartialEq)]
pub struct QueueItem {
    pub seq_no: usize,
    pub request: Request,
}

impl Clone for QueueItem {
    fn clone(&self) -> (r: Self)
        ensures
            r == *self,
    {
        QueueItem { seq_no: self.seq_no, request: self.request.clone() }
    }
}

/// The start-time component of an item's priority key, with `None` mapped
/// below every real time.
pub open spec fn spec_start_key(a: QueueItem) -> int {
    match a.request.start_time {
        Option::Some(t) => t.nanos as int,
        Option::None => -1,
    }
}

/// The queue's order: by start time ascending, ties broken by lower seq_no.
pub open spec fn key_le(a: QueueItem, b: QueueItem) -> bool {
    spec_start_key(a) < spec_start_key(b) || (spec_start_key(a) == spec_start_key(b)
        && a.seq_no <= b.seq_no)
}

pub open spec fn key_lt(a: QueueItem, b: QueueItem) -> bool {
    spec_start_key(a) < spec_start_key(b) || (spec_start_key(a) == spec_start_key(b)
        && a.seq_no < b.seq_no)
}

fn start_key(a: &QueueItem) -> (r: i128)
    ensures
        r == spec_start_key(*a),
{
    match a.request.start_time {
        Option::Some(t) => t.nanos as i128,
        Option::None => -1,
    }
}

fn key_lt_exec(a: &QueueItem, b: &QueueItem) -> (r: bool)
    ensures
        r == key_lt(*a, *b),
{
    let ka = start_key(a);
    let kb = start_key(b);
    ka < kb || (ka == kb && a.seq_no < b.seq_no)
}

/// The index `pop` takes: the first position holding the least key.
pub open spec fn spec_min_index(s: Seq<QueueItem>) -> int
    decreases s.len(),
{
    if s.len() <= 1 {
        0
    } else {
        let m = spec_min_index(s.drop_last());
        if key_lt(s[s.len() - 1], s[m]) {
            (s.len() - 1) as int
        } else {
            m
        }
    }
}

/// The chosen index is in range and its key is least in the whole sequence.
pub proof fn lemma_min_index_min(s: Seq<QueueItem>)
    requires
        s.len() > 0,
    ensures
        0 <= spec_min_index(s) < s.len(),
        forall|j: int| 0 <= j < s.len() ==> key_le(s[spec_min_index(s)], #[trigger] s[j]),
    decreases s.len(),
{
    if s.len() > 1 {
        lemma_min_index_min(s.drop_last());
        let m = spec_min_index(s.drop_last());
        assert(s.drop_last()[m] == s[m]);
        assert forall|j: int| 0 <= j < s.len() implies key_le(
            s[spec_min_index(s)],
            #[trigger] s[j],
        ) by {
            if j < s.len() - 1 {
                assert(s.drop_last()[j] == s[j]);
            }
        }
    }
}

/// Law: the queue respects its ordering key. If items at positions `a` and
/// `b` have strictly ordered keys (start time ascending, `None` before any
/// time, ties by seq_no), the popped item's key is still strictly below
/// `b`'s: `b` can only come out on a later pop.
pub proof fn lemma_pop_order(s: Seq<QueueItem>, a: int, b: int)
    requires
        0 <= a < s.len(),
        0 <= b < s.len(),
        key_lt(s[a], s[b]),
    ensures
        key_lt(s[spec_min_index(s)], s[b]),
{
    lemma_min_index_min(s);
    assert(key_le(s[spec_min_index(s)], s[a]));
}

/// The priority queue of not-yet-dispatched requests, held as a plain vector
/// whose `pop` scans for the least key. Sharing it among workers (a mutex)
/// is the caller's concern.
#[derive(Debug)]
pub struct RequestQueue {
    items: Vec<QueueItem>,
}

impl View for RequestQueue {
    type V = Seq<QueueItem>;

    closed spec fn view(&self) -> Seq<QueueItem> {
        self.items@
    }
}

impl RequestQueue {
    /// Bulk-loads the input list, assigning each request its index as its
    /// stable sequence number.
    pub fn new(requests: Vec<Request>) -> (r: RequestQueue)
        ensures
            r@.len() == requests@.len(),
            forall|i: int|
                0 <= i < requests@.len() ==> r@[i] == (QueueItem {
                    seq_no: i as usize,
                    request: requests@[i],
                }),
    {
        let mut items: Vec<QueueItem> = Vec::new();
        let n = requests.len();
        let mut i: usize = 0;
        while i < n
            invariant
                i <= n,
                n == requests@.len(),
                items@.len() == i,
                forall|j: int|
                    0 <= j < i ==> items@[j] == (QueueItem {
                        seq_no: j as usize,
                        request: requests@[j],
                    }),
            decreases n - i,
        {
            let request = requests[i].clone();
            items.push(QueueItem { seq_no: i, request });
            i += 1;
        }
        RequestQueue { items }
    }

    pub fn len(&self) -> (r: usize)
        ensures
            r == self@.len(),
    {
        self.items.len()
    }

    /// Inserts an item; used for the initial load's reinsertions when a
    /// popped request's start time has not come yet.
    pub fn push(&mut self, seq_no: usize, request: Request)
        ensures
            final(self)@ == old(self)@.push(QueueItem { seq_no, request }),
    {
        self.items.push(QueueItem { seq_no, request });
    }

    /// Removes and returns the item with the least `(start_time, seq_no)`
    /// key, or `None` when the queue is empty.
    pub fn pop(&mut self) -> (r: Option<(usize, Request)>)
        ensures
            old(self)@.len() == 0 ==> r is None && final(self)@ == old(self)@,
            old(self)@.len() > 0 ==> {
                let mi = spec_min_index(old(self)@);
                &&& r == Option::Some((old(self)@[mi].seq_no, old(self)@[mi].request))
                &&& final(self)@ == old(self)@.remove(mi)
            },
    {
        let n = self.items.len();
        if n == 0 {
            return Option::None;
        }
        let mut best: usize = 0;
        let mut k: usize = 1;
        while k < n
            invariant
                1 <= k <= n,
                n == self.items@.len(),
                best < k,
                best == spec_min_index(self.items@.take(k as int)),
            decreases n - k,
        {
            proof {
                assert(self.items@.take(k as int + 1).drop_last() =~= self.items@.take(k as int));
                assert(self.items@.take(k as int + 1).last() == self.items@[k as int]);
            }
            if key_lt_exec(&self.items[k], &self.items[best]) {
                best = k;
            }
            k += 1;
        }
        proof {
            assert(self.items@.take(n as int) =~= self.items@);
        }
        let item = self.items.remove(best);
        Option::Some((item.seq_no, item.request))
    }
}

} // verus!
