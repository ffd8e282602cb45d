//! Connection-pool bookkeeping: which idle connection, if any, a worker
//! reuses for an endpoint, and whether a released connection is kept.
//!
//! Connections and endpoints are tracked by caller-chosen identifiers; the
//! sockets themselves, and sharing the pool among workers, are the caller's
//! concern. A connection is either held by exactly one worker in flight or
//! sits in the idle list: `acquire` hands one out by removing it, `release`
//! puts one back unless the cap is reached, and a connection dropped after a
//! transport error or timeout simply never comes back.

use vstd::prelude::*;

verus! {

/// The idle-connection cache: one `(endpoint, connection)` pair per idle
/// connection, bounded by `max_pool_size` in total across all endpoints.
#[derive(Debug)]
pub struct ConnectionPool {
    pub idle: Vec<(u64, u64)>,
    pub max_pool_size: usize,
}

/// The position of the most recently released idle connection for
/// `endpoint`, or -1 when none is idle there.
pub open spec fn spec_last_match(s: Seq<(u64, u64)>, endpoint: u64) -> int
    decreases s.len(),
{
    if s.len() == 0 {
        -1
    } else if s.last().0 == endpoint {
        s.len() - 1
    } else {
        spec_last_match(s.drop_last(), endpoint)
    }
}

/// `spec_last_match` is -1 exactly when no pair matches; otherwise it is the
/// greatest matching index.
pub proof fn lemma_last_match(s: Seq<(u64, u64)>, endpoint: u64)
    ensures
        spec_last_match(s, endpoint) == -1 ==> forall|j: int|
            0 <= j < s.len() ==> (#[trigger] s[j]).0 != endpoint,
        spec_last_match(s, endpoint) != -1 ==> {
            let m = spec_last_match(s, endpoint);
            &&& 0 <= m < s.len()
            &&& s[m].0 == endpoint
            &&& forall|j: int| m < j < s.len() ==> (#[trigger] s[j]).0 != endpoint
        },
    decreases s.len(),
{
    if s.len() > 0 && s.last().0 != endpoint {
        lemma_last_match(s.drop_last(), endpoint);
        assert forall|j: int| 0 <= j < s.len() - 1 implies s.drop_last()[j] == s[j] by {}
    }
}

impl ConnectionPool {
    /// The pool never holds more idle connections than its cap.
    pub open spec fn wf(&self) -> bool {
        self.idle@.len() <= self.max_pool_size
    }

    pub fn new(max_pool_size: usize) -> (r: ConnectionPool)
        ensures
            r.idle@.len() == 0,
            r.max_pool_size == max_pool_size,
            r.wf(),
    {
        ConnectionPool { idle: Vec::new(), max_pool_size }
    }

    /// Hands out the most recently released idle connection for `endpoint`,
    /// or `None` when none is idle there, in which case the caller dials a
    /// fresh one.
    pub fn acquire(&mut self, endpoint: u64) -> (r: Option<u64>)
        requires
            old(self).wf(),
        ensures
            final(self).wf(),
            final(self).max_pool_size == old(self).max_pool_size,
            (r is None) <==> spec_last_match(old(self).idle@, endpoint) == -1,
            r is None ==> final(self).idle@ == old(self).idle@,
            (match r {
                Option::Some(conn) => {
                    let m = spec_last_match(old(self).idle@, endpoint);
                    &&& old(self).idle@[m] == (endpoint, conn)
                    &&& final(self).idle@ == old(self).idle@.remove(m)
                },
                Option::None => true,
            }),
    {
        proof {
            lemma_last_match(self.idle@, endpoint);
        }
        let n = self.idle.len();
        let mut k: usize = n;
        while k > 0
            invariant
                k <= n,
                n == self.idle@.len(),
                self.idle@ == old(self).idle@,
                self.max_pool_size == old(self).max_pool_size,
                self.wf(),
                forall|j: int| k <= j < n ==> (#[trigger] self.idle@[j]).0 != endpoint,
            decreases k,
        {
            k = k - 1;
            if self.idle[k].0 == endpoint {
                let pair = self.idle.remove(k);
                proof {
                    lemma_last_match(old(self).idle@, endpoint);
                }
                return Option::Some(pair.1);
            }
        }
        Option::None
    }

    /// Returns a connection to the idle list unless that would exceed the
    /// cap, in which case it is discarded and `false` comes back.
    pub fn release(&mut self, endpoint: u64, conn: u64) -> (kept: bool)
        requires
            old(self).wf(),
        ensures
            final(self).wf(),
            final(self).max_pool_size == old(self).max_pool_size,
            kept <==> old(self).idle@.len() < old(self).max_pool_size,
            kept ==> final(self).idle@ == old(self).idle@.push((endpoint, conn)),
            !kept ==> final(self).idle@ == old(self).idle@,
    {
        if self.idle.len() < self.max_pool_size {
            self.idle.push((endpoint, conn));
            true
        } else {
            false
        }
    }
}

/// Law: pool bound. Each worker holds at most one connection in flight, so
/// with `in_flight <= concurrency` outstanding connections and a well-formed
/// pool, the total number of connections never exceeds
/// `max_pool_size + concurrency`.
pub proof fn lemma_pool_bound(pool: ConnectionPool, in_flight: nat, concurrency: nat)
    requires
        pool.wf(),
        in_flight <= concurrency,
    ensures
        pool.idle@.len() + in_flight <= pool.max_pool_size + concurrency,
{
}

} // verus!
