//! Aggregate statistics over a result list: counts, per-status counts,
//! total duration, and latency statistics with an exact unbiased sample
//! variance held as a ratio of integers.

use vstd::prelude::*;
use vstd::arithmetic::div_mod::lemma_div_is_ordered;
use vstd::arithmetic::div_mod::lemma_div_multiples_vanish;
use crate::run::RequestResult;
use crate::time::Seconds;

verus! {

broadcast use vstd::seq_lib::group_to_multiset_ensures;

// ---------- counting ----------

/// How many results are `Success`.
pub open spec fn spec_num_ok(s: Seq<RequestResult>) -> int
    decreases s.len(),
{
    if s.len() == 0 {
        0
    } else {
        spec_num_ok(s.drop_last()) + if s.last().spec_is_ok() {
            1int
        } else {
            0int
        }
    }
}

/// Whether a result is a `Success` with the given HTTP status code.
pub open spec fn spec_ok_with_status(r: RequestResult, code: u16) -> bool {
    match r {
        RequestResult::Success { response, .. } => response.status == code,
        RequestResult::Failure { .. } => false,
    }
}

/// How many results are `Success` with the given status code.
pub open spec fn spec_num_with_status(s: Seq<RequestResult>, code: u16) -> int
    decreases s.len(),
{
    if s.len() == 0 {
        0
    } else {
        spec_num_with_status(s.drop_last(), code) + if spec_ok_with_status(s.last(), code) {
            1int
        } else {
            0int
        }
    }
}

proof fn lemma_num_with_status_le(s: Seq<RequestResult>, code: u16)
    ensures
        0 <= spec_num_with_status(s, code) <= s.len(),
    decreases s.len(),
{
    if s.len() > 0 {
        lemma_num_with_status_le(s.drop_last(), code);
    }
}

/// Extending a prefix by one result bumps exactly the matching counters.
proof fn lemma_count_step(s: Seq<RequestResult>, i: int)
    requires
        0 <= i < s.len(),
    ensures
        spec_num_ok(s.take(i + 1)) == spec_num_ok(s.take(i)) + (if s[i].spec_is_ok() {
            1int
        } else {
            0int
        }),
        forall|code: u16|
            #[trigger] spec_num_with_status(s.take(i + 1), code) == spec_num_with_status(
                s.take(i),
                code,
            ) + (if spec_ok_with_status(s[i], code) {
                1int
            } else {
                0int
            }),
{
    assert(s.take(i + 1).drop_last() =~= s.take(i));
    assert(s.take(i + 1).last() == s[i]);
}

/// The three counters of a run: `total == ok + error` always holds.
#[derive(Clone, Copy, Debug, PartialEq, Eq, Structural)]
pub struct Count {
    pub total: usize,
    pub ok: usize,
    pub error: usize,
}

impl Count {
    fn new(results: &Vec<RequestResult>) -> (c: Count)
        ensures
            c.total == results@.len(),
            c.ok == spec_num_ok(results@),
            c.total == c.ok + c.error,
    {
        let n = results.len();
        let mut ok: usize = 0;
        let mut i: usize = 0;
        while i < n
            invariant
                i <= n,
                n == results@.len(),
                ok == spec_num_ok(results@.take(i as int)),
                ok <= i,
            decreases n - i,
        {
            proof {
                lemma_count_step(results@, i as int);
            }
            if results[i].is_ok() {
                ok += 1;
            }
            i += 1;
        }
        proof {
            assert(results@.take(n as int) =~= results@);
        }
        Count { total: n, ok, error: n - ok }
    }
}

// ---------- per-status table ----------

/// The sum of the table's counter column.
pub open spec fn spec_sum_counts(t: Seq<(u16, usize)>) -> int
    decreases t.len(),
{
    if t.len() == 0 {
        0
    } else {
        spec_sum_counts(t.drop_last()) + t.last().1
    }
}

proof fn lemma_sum_counts_update(t: Seq<(u16, usize)>, i: int, v: (u16, usize))
    requires
        0 <= i < t.len(),
    ensures
        spec_sum_counts(t.update(i, v)) == spec_sum_counts(t) - t[i].1 + v.1,
    decreases t.len(),
{
    if i == t.len() - 1 {
        assert(t.update(i, v).drop_last() =~= t.drop_last());
    } else {
        assert(t.update(i, v).drop_last() =~= t.drop_last().update(i, v));
        lemma_sum_counts_update(t.drop_last(), i, v);
    }
}

proof fn lemma_sum_counts_insert(t: Seq<(u16, usize)>, i: int, v: (u16, usize))
    requires
        0 <= i <= t.len(),
    ensures
        spec_sum_counts(t.insert(i, v)) == spec_sum_counts(t) + v.1,
    decreases t.len(),
{
    if i == t.len() {
        assert(t.insert(i, v).drop_last() =~= t);
    } else {
        assert(t.insert(i, v).drop_last() =~= t.drop_last().insert(i, v));
        lemma_sum_counts_insert(t.drop_last(), i, v);
    }
}

/// The table's keys are strictly ascending and every counter is positive.
pub open spec fn status_table_wf(t: Seq<(u16, usize)>) -> bool {
    &&& forall|i: int, j: int| 0 <= i < j < t.len() ==> (#[trigger] t[i]).0 < (#[trigger] t[j]).0
    &&& forall|i: int| 0 <= i < t.len() ==> (#[trigger] t[i]).1 > 0
}

/// The table maps each status code that occurs among `Success` results to
/// its exact count, holds nothing else, and its counters sum to the number
/// of `Success` results.
pub open spec fn status_correct(t: Seq<(u16, usize)>, s: Seq<RequestResult>) -> bool {
    &&& status_table_wf(t)
    &&& forall|i: int|
        0 <= i < t.len() ==> (#[trigger] t[i]).1 == spec_num_with_status(s, t[i].0)
    &&& forall|code: u16|
        #[trigger] spec_num_with_status(s, code) > 0 ==> exists|i: int|
            0 <= i < t.len() && (#[trigger] t[i]).0 == code
    &&& spec_sum_counts(t) == spec_num_ok(s)
}

/// The status of a result: the code of a `Success`, nothing for a
/// `Failure`.
pub open spec fn spec_result_status(r: RequestResult) -> Option<u16> {
    match r {
        RequestResult::Success { response, .. } => Option::Some(response.status),
        RequestResult::Failure { .. } => Option::None,
    }
}

/// A failed result leaves the table correct for the extended prefix.
proof fn lemma_table_skip(t: Seq<(u16, usize)>, s: Seq<RequestResult>, i: int)
    requires
        0 <= i < s.len(),
        status_correct(t, s.take(i)),
        spec_result_status(s[i]) is None,
    ensures
        status_correct(t, s.take(i + 1)),
{
    lemma_count_step(s, i);
    assert forall|code: u16| #[trigger] spec_num_with_status(s.take(i + 1), code) > 0
        implies exists|k: int| 0 <= k < t.len() && (#[trigger] t[k]).0 == code by {
        assert(spec_num_with_status(s.take(i), code) > 0);
    }
}

/// Bumping the entry that already holds the new result's status keeps the
/// table correct.
proof fn lemma_table_update(t: Seq<(u16, usize)>, s: Seq<RequestResult>, i: int, code: u16, pos: int)
    requires
        0 <= i < s.len() <= usize::MAX,
        status_correct(t, s.take(i)),
        spec_result_status(s[i]) == Option::Some(code),
        0 <= pos < t.len(),
        t[pos].0 == code,
    ensures
        status_correct(t.update(pos, (code, (t[pos].1 + 1) as usize)), s.take(i + 1)),
        t[pos].1 <= i,
{
    lemma_count_step(s, i);
    lemma_num_with_status_le(s.take(i), code);
    let t2 = t.update(pos, (code, (t[pos].1 + 1) as usize));
    lemma_sum_counts_update(t, pos, (code, (t[pos].1 + 1) as usize));
    assert(t[pos].1 == spec_num_with_status(s.take(i), code));
    assert(spec_num_with_status(s.take(i + 1), code) == spec_num_with_status(s.take(i), code) + 1);
    assert(s.take(i).len() == i);
    assert(t[pos].1 <= i);
    assert(t2[pos].1 == t[pos].1 + 1);
    assert forall|k: int| 0 <= k < t2.len() implies (#[trigger] t2[k]).1 == spec_num_with_status(
        s.take(i + 1),
        t2[k].0,
    ) by {
        if k == pos {
            assert(t2[k].0 == code);
            assert(t2[k].1 == spec_num_with_status(s.take(i + 1), code));
        }
        if k != pos {
            assert(t2[k] == t[k]);
            if k < pos {
                assert(t[k].0 < t[pos].0);
            } else {
                assert(t[pos].0 < t[k].0);
            }
            assert(spec_num_with_status(s.take(i + 1), t[k].0) == spec_num_with_status(
                s.take(i),
                t[k].0,
            ));
        }
    }
    assert forall|code2: u16| #[trigger] spec_num_with_status(s.take(i + 1), code2) > 0
        implies exists|k: int| 0 <= k < t2.len() && (#[trigger] t2[k]).0 == code2 by {
        if code2 == code {
            assert(t2[pos].0 == code2);
        } else {
            assert(spec_num_with_status(s.take(i), code2) > 0);
            let k = choose|k: int| 0 <= k < t.len() && (#[trigger] t[k]).0 == code2;
            assert(t2[k].0 == code2);
        }
    }
}

/// Inserting a one-count entry for a status the table lacks, at its sorted
/// position, keeps the table correct.
proof fn lemma_table_insert(t: Seq<(u16, usize)>, s: Seq<RequestResult>, i: int, code: u16, pos: int)
    requires
        0 <= i < s.len(),
        status_correct(t, s.take(i)),
        spec_result_status(s[i]) == Option::Some(code),
        0 <= pos <= t.len(),
        forall|j: int| 0 <= j < pos ==> (#[trigger] t[j]).0 < code,
        pos < t.len() ==> t[pos].0 > code,
    ensures
        status_correct(t.insert(pos, (code, 1usize)), s.take(i + 1)),
{
    lemma_count_step(s, i);
    let t2 = t.insert(pos, (code, 1usize));
    lemma_sum_counts_insert(t, pos, (code, 1usize));
    lemma_num_with_status_le(s.take(i), code);
    if spec_num_with_status(s.take(i), code) > 0 {
        assert(exists|k: int| 0 <= k < t.len() && (#[trigger] t[k]).0 == code);
        let k = choose|k: int| 0 <= k < t.len() && (#[trigger] t[k]).0 == code;
        assert(0 <= k < t.len() && t[k].0 == code);
        if k < pos {
            assert(t[k].0 < code);
        } else {
            if k > pos {
                assert(t[pos].0 < t[k].0);
            }
            assert(t[pos].0 > code);
        }
        assert(false);
    }
    assert(spec_num_with_status(s.take(i), code) == 0);
    assert forall|k: int| 0 <= k < t2.len() implies (#[trigger] t2[k]).1 == spec_num_with_status(
        s.take(i + 1),
        t2[k].0,
    ) by {
        if k == pos {
            assert(t2[k] == (code, 1usize));
        } else if k < pos {
            assert(t2[k] == t[k]);
            assert(t[k].0 < code);
            assert(spec_num_with_status(s.take(i + 1), t[k].0) == spec_num_with_status(
                s.take(i),
                t[k].0,
            ));
        } else {
            assert(t2[k] == t[k - 1]);
            if k - 1 > pos {
                assert(t[pos].0 < t[k - 1].0);
            }
            assert(t[k - 1].0 != code);
            assert(spec_num_with_status(s.take(i + 1), t[k - 1].0) == spec_num_with_status(
                s.take(i),
                t[k - 1].0,
            ));
        }
    }
    assert forall|code2: u16| #[trigger] spec_num_with_status(s.take(i + 1), code2) > 0
        implies exists|k: int| 0 <= k < t2.len() && (#[trigger] t2[k]).0 == code2 by {
        if code2 == code {
            assert(t2[pos].0 == code2);
        } else {
            assert(spec_num_with_status(s.take(i), code2) > 0);
            let k = choose|k: int| 0 <= k < t.len() && (#[trigger] t[k]).0 == code2;
            if k < pos {
                assert(t2[k].0 == code2);
            } else {
                assert(t2[k + 1].0 == code2);
            }
        }
    }
    assert forall|a: int, b: int| 0 <= a < b < t2.len() implies (#[trigger] t2[a]).0 < (
    #[trigger] t2[b]).0 by {
        if b < pos {
            assert(t2[a] == t[a] && t2[b] == t[b]);
        } else if a < pos && b == pos {
            assert(t[a].0 < code);
        } else if a < pos && b > pos {
            assert(t[a].0 < code);
            assert(t2[b] == t[b - 1]);
            if b - 1 > pos {
                assert(t[pos].0 < t[b - 1].0);
            }
        } else if a == pos {
            assert(t2[b] == t[b - 1]);
            if b - 1 > pos {
                assert(t[pos].0 < t[b - 1].0);
            }
        } else {
            assert(t2[a] == t[a - 1] && t2[b] == t[b - 1]);
        }
    }
}

fn status_counts(results: &Vec<RequestResult>) -> (tbl: Vec<(u16, usize)>)
    ensures
        status_correct(tbl@, results@),
{
    let n = results.len();
    let mut tbl: Vec<(u16, usize)> = Vec::new();
    let mut i: usize = 0;
    while i < n
        invariant
            i <= n,
            n == results@.len(),
            status_correct(tbl@, results@.take(i as int)),
        decreases n - i,
    {
        let code_opt = match &results[i] {
            RequestResult::Success { response, .. } => Option::Some(response.status),
            RequestResult::Failure { .. } => Option::None,
        };
        match code_opt {
            Option::None => {
                proof {
                    lemma_table_skip(tbl@, results@, i as int);
                }
            }
            Option::Some(code) => {
                let m = tbl.len();
                let mut pos: usize = 0;
                while pos < m && tbl[pos].0 < code
                    invariant
                        pos <= m,
                        m == tbl@.len(),
                        i < n,
                        n == results@.len(),
                        status_correct(tbl@, results@.take(i as int)),
                        forall|j: int| 0 <= j < pos ==> (#[trigger] tbl@[j]).0 < code,
                    decreases m - pos,
                {
                    pos += 1;
                }
                let ghost told = tbl@;
                if pos < m && tbl[pos].0 == code {
                    proof {
                        lemma_table_update(told, results@, i as int, code, pos as int);
                    }
                    let cur = tbl[pos].1;
                    tbl[pos] = (code, cur + 1);
                } else {
                    proof {
                        lemma_table_insert(told, results@, i as int, code, pos as int);
                    }
                    tbl.insert(pos, (code, 1));
                }
            }
        }
        i += 1;
        proof {
            assert(results@.take(i as int) =~= results@.take(i as int - 1).push(
                results@[i as int - 1],
            ));
        }
    }
    proof {
        assert(results@.take(n as int) =~= results@);
    }
    tbl
}

// ---------- duration ----------

/// `d` is the greatest end time, or zero when there are no results.
pub open spec fn duration_correct(d: Seconds, s: Seq<RequestResult>) -> bool {
    &&& s.len() == 0 ==> d.nanos == 0
    &&& forall|j: int|
        0 <= j < s.len() ==> (#[trigger] s[j].spec_end_time()).nanos <= d.nanos
    &&& s.len() > 0 ==> exists|j: int|
        #![auto]
        0 <= j < s.len() && s[j].spec_end_time() == d
}

fn duration_of(results: &Vec<RequestResult>) -> (d: Seconds)
    ensures
        duration_correct(d, results@),
{
    let n = results.len();
    let mut d = Seconds::zero();
    let mut i: usize = 0;
    while i < n
        invariant
            i <= n,
            n == results@.len(),
            i == 0 ==> d.nanos == 0,
            forall|j: int| 0 <= j < i ==> (#[trigger] results@[j].spec_end_time()).nanos <= d.nanos,
            i > 0 ==> exists|j: int| #![auto] 0 <= j < i && results@[j].spec_end_time() == d,
        decreases n - i,
    {
        let e = results[i].end_time();
        if i == 0 || d.lt(e) {
            d = e;
        }
        i += 1;
    }
    d
}

// ---------- sums and variance ----------

/// An exact non-negative rational, as produced for the sample variance.
#[derive(Clone, Copy, Debug, PartialEq, Eq, Structural)]
pub struct Ratio {
    pub num: i128,
    pub den: u128,
}

pub open spec fn spec_sum(s: Seq<i64>) -> int
    decreases s.len(),
{
    if s.len() == 0 {
        0
    } else {
        spec_sum(s.drop_last()) + s.last()
    }
}

pub open spec fn spec_sum_sq(s: Seq<i64>) -> int
    decreases s.len(),
{
    if s.len() == 0 {
        0
    } else {
        spec_sum_sq(s.drop_last()) + s.last() * s.last()
    }
}

pub open spec fn spec_sum_abs(s: Seq<i64>) -> int
    decreases s.len(),
{
    if s.len() == 0 {
        0
    } else {
        spec_sum_abs(s.drop_last()) + vstd::math::abs(s.last() as int)
    }
}

/// The machine limit under which the variance is computed exactly: the two
/// products the formula takes must fit a 128-bit signed integer.
pub open spec fn variance_fits(s: Seq<i64>) -> bool {
    &&& s.len() * spec_sum_sq(s) <= i128::MAX
    &&& spec_sum_abs(s) * spec_sum_abs(s) <= i128::MAX
}

/// Numerator of the unbiased sample variance: `n * sum(x^2) - sum(x)^2`.
pub open spec fn spec_variance_num(s: Seq<i64>) -> int {
    s.len() * spec_sum_sq(s) - spec_sum(s) * spec_sum(s)
}

/// Denominator of the unbiased sample variance: `n * (n - 1)`.
pub open spec fn spec_variance_den(s: Seq<i64>) -> int {
    s.len() * (s.len() - 1)
}

proof fn lemma_sum_sq_nonneg(s: Seq<i64>)
    ensures
        spec_sum_sq(s) >= 0,
    decreases s.len(),
{
    if s.len() > 0 {
        lemma_sum_sq_nonneg(s.drop_last());
        let x = s.last() as int;
        assert(x * x >= 0) by (nonlinear_arith);
    }
}

proof fn lemma_sum_abs_nonneg(s: Seq<i64>)
    ensures
        spec_sum_abs(s) >= 0,
    decreases s.len(),
{
    if s.len() > 0 {
        lemma_sum_abs_nonneg(s.drop_last());
    }
}

/// A prefix's sum of squares never exceeds the whole sequence's.
proof fn lemma_sum_sq_take_le(s: Seq<i64>, i: int)
    requires
        0 <= i <= s.len(),
    ensures
        spec_sum_sq(s.take(i)) <= spec_sum_sq(s),
    decreases s.len() - i,
{
    if i == s.len() {
        assert(s.take(i) =~= s);
    } else {
        lemma_sum_sq_take_le(s, i + 1);
        assert(s.take(i + 1).drop_last() =~= s.take(i));
        let x = s.take(i + 1).last() as int;
        assert(x * x >= 0) by (nonlinear_arith);
    }
}

proof fn lemma_sum_abs_take_le(s: Seq<i64>, i: int)
    requires
        0 <= i <= s.len(),
    ensures
        spec_sum_abs(s.take(i)) <= spec_sum_abs(s),
    decreases s.len() - i,
{
    if i == s.len() {
        assert(s.take(i) =~= s);
    } else {
        lemma_sum_abs_take_le(s, i + 1);
        assert(s.take(i + 1).drop_last() =~= s.take(i));
    }
}

/// A sum is bounded by the sum of absolute values, either way.
proof fn lemma_abs_sum(s: Seq<i64>)
    ensures
        -spec_sum_abs(s) <= spec_sum(s) <= spec_sum_abs(s),
    decreases s.len(),
{
    if s.len() > 0 {
        lemma_abs_sum(s.drop_last());
    }
}

/// The unbiased sample variance of the samples, as the exact ratio
/// `(n * sum(x^2) - sum(x)^2) / (n * (n - 1))`; zero (as `0/1`) for fewer
/// than two samples.
pub fn unbiased_variance(samples: &Vec<i64>) -> (r: Ratio)
    requires
        variance_fits(samples@),
    ensures
        samples@.len() < 2 ==> r == (Ratio { num: 0, den: 1 }),
        samples@.len() >= 2 ==> r == (Ratio {
            num: spec_variance_num(samples@) as i128,
            den: spec_variance_den(samples@) as u128,
        }),
{
    let n = samples.len();
    if n < 2 {
        return Ratio { num: 0, den: 1 };
    }
    proof {
        lemma_sum_sq_nonneg(samples@);
        lemma_sum_abs_nonneg(samples@);
        assert(spec_sum_sq(samples@) <= n * spec_sum_sq(samples@)) by (nonlinear_arith)
            requires
                n >= 2,
                spec_sum_sq(samples@) >= 0,
        ;
        assert(spec_sum_abs(samples@) <= i128::MAX) by (nonlinear_arith)
            requires
                spec_sum_abs(samples@) >= 0,
                spec_sum_abs(samples@) * spec_sum_abs(samples@) <= i128::MAX,
        ;
    }
    let mut sum: i128 = 0;
    let mut sq: i128 = 0;
    let mut i: usize = 0;
    while i < n
        invariant
            i <= n,
            n == samples@.len(),
            n >= 2,
            variance_fits(samples@),
            spec_sum_sq(samples@) <= i128::MAX,
            spec_sum_abs(samples@) <= i128::MAX,
            sum == spec_sum(samples@.take(i as int)),
            sq == spec_sum_sq(samples@.take(i as int)),
        decreases n - i,
    {
        let x = samples[i];
        proof {
            assert(samples@.take(i as int + 1).drop_last() =~= samples@.take(i as int));
            assert(samples@.take(i as int + 1).last() == samples@[i as int]);
            lemma_sum_sq_take_le(samples@, i as int + 1);
            lemma_sum_sq_nonneg(samples@.take(i as int));
            lemma_sum_abs_take_le(samples@, i as int + 1);
            lemma_abs_sum(samples@.take(i as int + 1));
            lemma_abs_sum(samples@.take(i as int));
            lemma_sum_abs_nonneg(samples@.take(i as int + 1));
            assert((x as int) * (x as int) >= 0) by (nonlinear_arith);
        }
        sum = sum + x as i128;
        sq = sq + (x as i128) * (x as i128);
        i += 1;
    }
    proof {
        assert(samples@.take(n as int) =~= samples@);
        lemma_abs_sum(samples@);
        lemma_sum_abs_nonneg(samples@);
        assert(spec_sum(samples@) * spec_sum(samples@) <= spec_sum_abs(samples@) * spec_sum_abs(
            samples@,
        ) && spec_sum(samples@) * spec_sum(samples@) >= 0) by (nonlinear_arith)
            requires
                -spec_sum_abs(samples@) <= spec_sum(samples@) <= spec_sum_abs(samples@),
        ;
        assert((n as int) * spec_sum_sq(samples@) >= 0) by (nonlinear_arith)
            requires
                spec_sum_sq(samples@) >= 0,
        ;
        assert((n as int) * ((n as int) - 1) <= u128::MAX) by (nonlinear_arith)
            requires
                2 <= n <= u64::MAX,
        ;
    }
    let num = (n as i128) * sq - sum * sum;
    let den = (n as u128) * ((n - 1) as u128);
    Ratio { num, den }
}

// ---------- latency ----------

/// The elapsed time of each result, in nanoseconds.
pub open spec fn spec_lat_nanos(s: Seq<RequestResult>) -> Seq<u64> {
    s.map_values(|r: RequestResult| r.spec_elapsed().nanos)
}

/// The same, as signed samples for the variance formula.
pub open spec fn spec_lat_i64(s: Seq<RequestResult>) -> Seq<i64> {
    s.map_values(|r: RequestResult| r.spec_elapsed().nanos as i64)
}

/// Every elapsed time fits a signed 64-bit value; under this machine limit
/// the latency statistics are computed exactly.
pub open spec fn latencies_fit(s: Seq<RequestResult>) -> bool {
    &&& forall|i: int|
        0 <= i < s.len() ==> (#[trigger] s[i].spec_elapsed()).nanos <= i64::MAX
    &&& variance_fits(spec_lat_i64(s))
}

pub open spec fn spec_sum_u64(s: Seq<u64>) -> int
    decreases s.len(),
{
    if s.len() == 0 {
        0
    } else {
        spec_sum_u64(s.drop_last()) + s.last()
    }
}

pub open spec fn sorted_u64(s: Seq<u64>) -> bool {
    forall|i: int, j: int| 0 <= i < j < s.len() ==> s[i] <= s[j]
}

/// With every elapsed time in signed range, the unsigned and signed views of
/// the latency list have the same sums.
proof fn lemma_lat_sums(s: Seq<RequestResult>)
    requires
        forall|i: int| 0 <= i < s.len() ==> (#[trigger] s[i].spec_elapsed()).nanos <= i64::MAX,
    ensures
        spec_sum_u64(spec_lat_nanos(s)) == spec_sum(spec_lat_i64(s)),
        spec_sum_abs(spec_lat_i64(s)) == spec_sum(spec_lat_i64(s)),
    decreases s.len(),
{
    if s.len() == 0 {
        assert(spec_lat_nanos(s) =~= Seq::<u64>::empty());
        assert(spec_lat_i64(s) =~= Seq::<i64>::empty());
    } else {
        lemma_lat_sums(s.drop_last());
        assert(spec_lat_nanos(s).drop_last() =~= spec_lat_nanos(s.drop_last()));
        assert(spec_lat_i64(s).drop_last() =~= spec_lat_i64(s.drop_last()));
        assert(spec_lat_nanos(s).last() == s.last().spec_elapsed().nanos);
        assert(spec_lat_i64(s).last() == s.last().spec_elapsed().nanos as i64);
    }
}

pub(crate) proof fn lemma_sum_u64_nonneg(s: Seq<u64>)
    ensures
        spec_sum_u64(s) >= 0,
    decreases s.len(),
{
    if s.len() > 0 {
        lemma_sum_u64_nonneg(s.drop_last());
    }
}

/// Partial sums of unsigned values grow monotonically.
pub(crate) proof fn lemma_sum_u64_take_le(s: Seq<u64>, i: int)
    requires
        0 <= i <= s.len(),
    ensures
        0 <= spec_sum_u64(s.take(i)) <= spec_sum_u64(s),
    decreases s.len() - i,
{
    lemma_sum_u64_nonneg(s.take(i));
    if i == s.len() {
        assert(s.take(i) =~= s);
    } else {
        lemma_sum_u64_take_le(s, i + 1);
        assert(s.take(i + 1).drop_last() =~= s.take(i));
    }
}

/// A sum of values all within `[lo, hi]` lies within `[lo*n, hi*n]`.
pub(crate) proof fn lemma_sum_u64_bounds(s: Seq<u64>, lo: u64, hi: u64)
    requires
        forall|j: int| 0 <= j < s.len() ==> lo <= #[trigger] s[j] <= hi,
    ensures
        lo * s.len() <= spec_sum_u64(s) <= hi * s.len(),
    decreases s.len(),
{
    if s.len() == 0 {
        assert(lo * 0 == 0) by (nonlinear_arith);
        assert(hi * 0 == 0) by (nonlinear_arith);
    } else {
        assert forall|j: int| 0 <= j < s.drop_last().len() implies lo <= #[trigger] s.drop_last()[j]
            <= hi by {
            assert(s.drop_last()[j] == s[j]);
        }
        lemma_sum_u64_bounds(s.drop_last(), lo, hi);
        let n = s.len() as int;
        assert(lo * n == lo * (n - 1) + lo && hi * n == hi * (n - 1) + hi) by (nonlinear_arith);
    }
}

/// Latency statistics over the elapsed times: the minimum, the element at
/// index `floor(n/2)` of the sorted list, the floored mean, the maximum, and
/// the unbiased sample variance as an exact ratio.
#[derive(Clone, Copy, Debug, PartialEq, Eq, Structural)]
pub struct Latency {
    pub min: Seconds,
    pub median: Seconds,
    pub mean: Seconds,
    pub max: Seconds,
    pub var: Ratio,
}

/// What `Latency` holds of a result list: all statistics are taken over the
/// multiset of elapsed times; an empty list yields all zeros.
pub open spec fn latency_correct(lat: Latency, s: Seq<RequestResult>) -> bool {
    let lats = spec_lat_nanos(s);
    if s.len() == 0 {
        lat == (Latency {
            min: Seconds { nanos: 0 },
            median: Seconds { nanos: 0 },
            mean: Seconds { nanos: 0 },
            max: Seconds { nanos: 0 },
            var: Ratio { num: 0, den: 1 },
        })
    } else {
        &&& exists|sorted: Seq<u64>|
            #![auto]
            sorted_u64(sorted) && sorted.to_multiset() == lats.to_multiset() && lat.min.nanos
                == sorted[0] && lat.median.nanos == sorted[s.len() as int / 2] && lat.max.nanos
                == sorted[s.len() - 1]
        &&& lat.mean.nanos == spec_sum_u64(lats) / s.len() as int
        &&& lat.min.nanos <= lat.median.nanos <= lat.max.nanos
        &&& lat.min.nanos <= lat.mean.nanos <= lat.max.nanos
        &&& (s.len() < 2 ==> lat.var == (Ratio { num: 0, den: 1 }))
        &&& (s.len() >= 2 ==> lat.var == (Ratio {
            num: spec_variance_num(spec_lat_i64(s)) as i128,
            den: spec_variance_den(spec_lat_i64(s)) as u128,
        }))
    }
}

/// Sorts unsigned values ascending, preserving the multiset.
pub(crate) fn sort_u64(values: Vec<u64>) -> (r: Vec<u64>)
    ensures
        sorted_u64(r@),
        r@.to_multiset() == values@.to_multiset(),
        r@.len() == values@.len(),
{
    let mut remaining = values;
    let mut out: Vec<u64> = Vec::new();
    let ghost all = remaining@;
    while remaining.len() > 0
        invariant
            out@.to_multiset().add(remaining@.to_multiset()) == all.to_multiset(),
            out@.len() + remaining@.len() == all.len(),
            sorted_u64(out@),
            forall|i: int, j: int|
                0 <= i < out@.len() && 0 <= j < remaining@.len() ==> #[trigger] out@[i]
                    <= #[trigger] remaining@[j],
        decreases remaining@.len(),
    {
        let n = remaining.len();
        let mut mi: usize = 0;
        let mut k: usize = 1;
        while k < n
            invariant
                1 <= k <= n,
                n == remaining@.len(),
                mi < k,
                forall|j: int| 0 <= j < k ==> remaining@[mi as int] <= #[trigger] remaining@[j],
            decreases n - k,
        {
            if remaining[k] < remaining[mi] {
                mi = k;
            }
            k += 1;
        }
        let ghost before = remaining@;
        let ghost outb = out@;
        let x = remaining.remove(mi);
        out.push(x);
        proof {
            assert(out@.to_multiset() =~= outb.to_multiset().insert(x));
            assert(remaining@.to_multiset() =~= before.to_multiset().remove(x));
            assert(out@.to_multiset().add(remaining@.to_multiset()) =~= all.to_multiset());
            assert forall|i: int, j: int|
                0 <= i < out@.len() && 0 <= j < remaining@.len() implies #[trigger] out@[i]
                <= #[trigger] remaining@[j] by {
                if j < mi {
                    assert(remaining@[j] == before[j]);
                } else {
                    assert(remaining@[j] == before[j + 1]);
                }
            }
        }
    }
    out
}

impl Latency {
    fn new(results: &Vec<RequestResult>) -> (lat: Latency)
        requires
            latencies_fit(results@),
        ensures
            latency_correct(lat, results@),
    {
        let n = results.len();
        if n == 0 {
            return Latency {
                min: Seconds::zero(),
                median: Seconds::zero(),
                mean: Seconds::zero(),
                max: Seconds::zero(),
                var: Ratio { num: 0, den: 1 },
            };
        }
        let mut lats: Vec<u64> = Vec::new();
        let mut signed: Vec<i64> = Vec::new();
        let mut i: usize = 0;
        while i < n
            invariant
                i <= n,
                n == results@.len(),
                latencies_fit(results@),
                lats@ =~= spec_lat_nanos(results@.take(i as int)),
                signed@ =~= spec_lat_i64(results@.take(i as int)),
            decreases n - i,
        {
            let e = results[i].elapsed();
            lats.push(e.nanos);
            signed.push(e.nanos as i64);
            proof {
                assert(spec_lat_nanos(results@.take(i as int + 1)) =~= spec_lat_nanos(
                    results@.take(i as int),
                ).push(results@[i as int].spec_elapsed().nanos));
                assert(spec_lat_i64(results@.take(i as int + 1)) =~= spec_lat_i64(
                    results@.take(i as int),
                ).push(results@[i as int].spec_elapsed().nanos as i64));
            }
            i += 1;
        }
        proof {
            assert(results@.take(n as int) =~= results@);
            assert(signed@ =~= spec_lat_i64(results@));
            assert(lats@ =~= spec_lat_nanos(results@));
        }
        let var = unbiased_variance(&signed);
        // The mean: sum the unsigned values inside the signed bound proved
        // through the variance's machine limit.
        proof {
            lemma_lat_sums(results@);
            lemma_sum_abs_nonneg(spec_lat_i64(results@));
            assert(spec_sum_abs(spec_lat_i64(results@)) <= i128::MAX) by (nonlinear_arith)
                requires
                    spec_sum_abs(spec_lat_i64(results@)) >= 0,
                    spec_sum_abs(spec_lat_i64(results@)) * spec_sum_abs(spec_lat_i64(results@))
                        <= i128::MAX,
            ;
        }
        let mut sum: i128 = 0;
        let mut k: usize = 0;
        while k < n
            invariant
                k <= n,
                n == lats@.len(),
                lats@ == spec_lat_nanos(results@),
                spec_sum_u64(lats@) <= i128::MAX,
                sum == spec_sum_u64(lats@.take(k as int)),
            decreases n - k,
        {
            proof {
                assert(lats@.take(k as int + 1).drop_last() =~= lats@.take(k as int));
                assert(lats@.take(k as int + 1).last() == lats@[k as int]);
                lemma_sum_u64_take_le(lats@, k as int + 1);
                lemma_sum_u64_take_le(lats@, k as int);
            }
            sum = sum + lats[k] as i128;
            k += 1;
        }
        proof {
            assert(lats@.take(n as int) =~= lats@);
        }
        let sorted = sort_u64(lats);
        let min = sorted[0];
        let median = sorted[n / 2];
        let max = sorted[n - 1];
        proof {
            // Every latency lies between the sorted extremes.
            assert forall|j: int| 0 <= j < n implies min <= #[trigger] spec_lat_nanos(results@)[j]
                <= max by {
                let lq = spec_lat_nanos(results@);
                assert(lq.to_multiset().count(lq[j]) > 0);
                assert(sorted@.to_multiset().count(lq[j]) > 0);
                assert(sorted@.contains(lq[j]));
                let k2 = choose|k2: int| 0 <= k2 < sorted@.len() && sorted@[k2] == lq[j];
                assert(sorted@[0] <= sorted@[k2] <= sorted@[sorted@.len() - 1]);
            }
            lemma_sum_u64_bounds(spec_lat_nanos(results@), min, max);
            lemma_div_is_ordered(
                min as int * n as int,
                spec_sum_u64(spec_lat_nanos(results@)),
                n as int,
            );
            lemma_div_is_ordered(
                spec_sum_u64(spec_lat_nanos(results@)),
                max as int * n as int,
                n as int,
            );
            lemma_div_multiples_vanish(min as int, n as int);
            lemma_div_multiples_vanish(max as int, n as int);
            assert(min as int * n as int == n as int * min as int && max as int * n as int
                == n as int * max as int) by (nonlinear_arith);
        }
        let mean = (sum / (n as i128)) as u64;
        Latency {
            min: Seconds::from_nanos(min),
            median: Seconds::from_nanos(median),
            mean: Seconds::from_nanos(mean),
            max: Seconds::from_nanos(max),
            var,
        }
    }
}

// ---------- the summary ----------

/// The aggregate report over a finished run's results. The requests-per-
/// second rate is `count.total / duration` and the standard deviation is the
/// square root of `latency.var`; both are left to the caller's floating-point
/// presentation layer, since they are not exact.
#[derive(Debug)]
pub struct Summary {
    pub count: Count,
    pub status: Vec<(u16, usize)>,
    pub duration: Seconds,
    pub latency: Latency,
}

impl Summary {
    /// Computes every aggregate of the result list. The totals always add
    /// up: `total == ok + error`, the status counters sum to `ok`, and the
    /// latency order `min <= median <= max`, `min <= mean <= max` holds.
    pub fn new(results: Vec<RequestResult>) -> (r: Summary)
        requires
            latencies_fit(results@),
        ensures
            r.count.total == results@.len(),
            r.count.ok == spec_num_ok(results@),
            r.count.total == r.count.ok + r.count.error,
            status_correct(r.status@, results@),
            spec_sum_counts(r.status@) == r.count.ok,
            duration_correct(r.duration, results@),
            latency_correct(r.latency, results@),
    {
        let count = Count::new(&results);
        let duration = duration_of(&results);
        let latency = Latency::new(&results);
        let status = status_counts(&results);
        Summary { count, status, duration, latency }
    }
}

} // verus!
