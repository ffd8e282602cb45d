//! One-second time-series buckets: results are grouped by the whole second
//! of their start time, and each occupied second reports its request count
//! and latency statistics. Seconds without requests are omitted.

use vstd::prelude::*;
use crate::run::RequestResult;
use crate::summary::lemma_sum_u64_bounds;
use crate::summary::lemma_sum_u64_take_le;
use crate::summary::sort_u64;
use crate::summary::sorted_u64;
use crate::summary::spec_sum_u64;
use crate::time::NANOS_PER_SEC;
use crate::time::Seconds;

verus! {

broadcast use vstd::seq_lib::group_to_multiset_ensures;

/// The whole second a result's start time falls in.
pub open spec fn spec_bucket(r: RequestResult) -> int {
    (r.spec_start_time().nanos as int) / (NANOS_PER_SEC as int)
}

/// The elapsed times of the results whose start time falls in second `t`,
/// in input order.
pub open spec fn spec_bucket_lats(s: Seq<RequestResult>, t: int) -> Seq<u64>
    decreases s.len(),
{
    if s.len() == 0 {
        Seq::<u64>::empty()
    } else {
        let rest = spec_bucket_lats(s.drop_last(), t);
        if spec_bucket(s.last()) == t {
            rest.push(s.last().spec_elapsed().nanos)
        } else {
            rest
        }
    }
}

/// Extending a prefix by one result extends exactly its bucket's latencies.
proof fn lemma_bucket_step(s: Seq<RequestResult>, i: int)
    requires
        0 <= i < s.len(),
    ensures
        forall|t: int|
            #[trigger] spec_bucket_lats(s.take(i + 1), t) == (if spec_bucket(s[i]) == t {
                spec_bucket_lats(s.take(i), t).push(s[i].spec_elapsed().nanos)
            } else {
                spec_bucket_lats(s.take(i), t)
            }),
{
    assert(s.take(i + 1).drop_last() =~= s.take(i));
    assert(s.take(i + 1).last() == s[i]);
}

/// Latency statistics of one bucket.
#[derive(Clone, Copy, Debug, PartialEq, Eq, Structural)]
pub struct Latency {
    pub min: Seconds,
    pub mean: Seconds,
    pub median: Seconds,
    pub max: Seconds,
}

/// One occupied second: how many requests started in it and their latency
/// statistics.
#[derive(Clone, Copy, Debug, PartialEq, Eq, Structural)]
pub struct Item {
    pub time: usize,
    pub requests: usize,
    pub latency: Latency,
}

/// What an item's latency block holds of its bucket's latency list.
pub open spec fn latency_stats_ok(lat: Latency, lats: Seq<u64>) -> bool {
    &&& exists|sorted: Seq<u64>|
        #![auto]
        sorted_u64(sorted) && sorted.to_multiset() == lats.to_multiset() && lat.min.nanos
            == sorted[0] && lat.median.nanos == sorted[lats.len() as int / 2] && lat.max.nanos
            == sorted[lats.len() - 1]
    &&& lat.mean.nanos == spec_sum_u64(lats) / (lats.len() as int)
    &&& lat.min.nanos <= lat.median.nanos <= lat.max.nanos
    &&& lat.min.nanos <= lat.mean.nanos <= lat.max.nanos
}

/// Some item reports the second `t`.
pub open spec fn series_has_time(items: Seq<Item>, t: int) -> bool {
    exists|i: int| 0 <= i < items.len() && (#[trigger] items[i]).time as int == t
}

/// Every result's bucket second appears among the items.
pub open spec fn series_covers(items: Seq<Item>, s: Seq<RequestResult>) -> bool {
    forall|j: int|
        #![trigger s[j]]
        0 <= j < s.len() ==> series_has_time(items, spec_bucket(s[j]))
}

/// What the finished series holds of the results: items stand in strictly
/// increasing time order, every occupied second appears, and each item
/// reports its bucket's exact request count and latency statistics.
pub open spec fn time_series_correct(items: Seq<Item>, s: Seq<RequestResult>) -> bool {
    &&& forall|a: int, b: int|
        0 <= a < b < items.len() ==> (#[trigger] items[a]).time < (#[trigger] items[b]).time
    &&& forall|i: int|
        0 <= i < items.len() ==> (#[trigger] items[i]).requests == spec_bucket_lats(
            s,
            items[i].time as int,
        ).len() && items[i].requests > 0
    &&& series_covers(items, s)
    &&& forall|i: int|
        0 <= i < items.len() ==> latency_stats_ok(
            (#[trigger] items[i]).latency,
            spec_bucket_lats(s, items[i].time as int),
        )
}

/// The machine limits under which the series is computed exactly: results
/// are well formed, each elapsed time fits a signed 64-bit value, and each
/// bucket index fits the platform's word.
pub open spec fn buckets_fit(s: Seq<RequestResult>) -> bool {
    &&& forall|j: int| 0 <= j < s.len() ==> (#[trigger] s[j]).wf()
    &&& forall|j: int|
        0 <= j < s.len() ==> (#[trigger] s[j].spec_elapsed()).nanos <= i64::MAX
    &&& forall|j: int| 0 <= j < s.len() ==> #[trigger] spec_bucket(s[j]) <= usize::MAX
}

/// Some group carries the second `t`.
spec fn groups_has_time(g: Seq<(usize, Vec<u64>)>, t: int) -> bool {
    exists|i: int| 0 <= i < g.len() && (#[trigger] g[i]).0 as int == t
}

/// The grouping phase's working state: per occupied second, the latencies
/// seen so far, keyed by strictly ascending seconds.
spec fn groups_correct(g: Seq<(usize, Vec<u64>)>, s: Seq<RequestResult>) -> bool {
    &&& forall|a: int, b: int|
        0 <= a < b < g.len() ==> (#[trigger] g[a]).0 < (#[trigger] g[b]).0
    &&& forall|i: int|
        0 <= i < g.len() ==> (#[trigger] g[i]).1@ == spec_bucket_lats(s, g[i].0 as int)
            && g[i].1@.len() > 0
    &&& forall|j: int|
        #![trigger s[j]]
        0 <= j < s.len() ==> groups_has_time(g, spec_bucket(s[j]))
}

proof fn lemma_groups_keep_exists(
    gold: Seq<(usize, Vec<u64>)>,
    gnew: Seq<(usize, Vec<u64>)>,
    s: Seq<RequestResult>,
    i: int,
    pos: int,
)
    requires
        0 <= i < s.len(),
        groups_correct(gold, s.take(i)),
        0 <= pos <= gold.len(),
        gnew.len() >= gold.len(),
        forall|k: int| 0 <= k < pos ==> #[trigger] gnew[k] == gold[k],
        forall|k: int|
            pos <= k < gold.len() ==> (#[trigger] gold[k]).0 == gnew[k].0 || (k + 1 < gnew.len()
                && gold[k].0 == gnew[k + 1].0),
        groups_has_time(gnew, spec_bucket(s[i])),
    ensures
        forall|j: int|
            #![trigger s.take(i + 1)[j]]
            0 <= j < s.take(i + 1).len() ==> groups_has_time(gnew, spec_bucket(s.take(i + 1)[j])),
{
    assert forall|j: int| #![trigger s.take(i + 1)[j]] 0 <= j < s.take(i + 1).len()
        implies groups_has_time(gnew, spec_bucket(s.take(i + 1)[j])) by {
        if j < i {
            assert(s.take(i + 1)[j] == s.take(i)[j]);
            assert(groups_has_time(gold, spec_bucket(s.take(i)[j])));
            let k = choose|k: int|
                0 <= k < gold.len() && (#[trigger] gold[k]).0 as int == spec_bucket(s.take(i)[j]);
            if k < pos {
                assert(gnew[k].0 == gold[k].0);
            } else {
                assert(gold[k].0 == gnew[k].0 || (k + 1 < gnew.len() && gold[k].0 == gnew[k
                    + 1].0));
            }
        } else {
            assert(s.take(i + 1)[j] == s[i]);
        }
    }
}

fn group_by_second(results: &Vec<RequestResult>) -> (groups: Vec<(usize, Vec<u64>)>)
    requires
        buckets_fit(results@),
    ensures
        groups_correct(groups@, results@),
{
    let n = results.len();
    let mut groups: Vec<(usize, Vec<u64>)> = Vec::new();
    let mut i: usize = 0;
    while i < n
        invariant
            i <= n,
            n == results@.len(),
            buckets_fit(results@),
            groups_correct(groups@, results@.take(i as int)),
        decreases n - i,
    {
        proof {
            lemma_bucket_step(results@, i as int);
        }
        let time = results[i].start_time().secs() as usize;
        let lat = results[i].elapsed().nanos;
        proof {
            assert(time as int == spec_bucket(results@[i as int]));
        }
        let m = groups.len();
        let mut pos: usize = 0;
        while pos < m && groups[pos].0 < time
            invariant
                pos <= m,
                m == groups@.len(),
                i < n,
                n == results@.len(),
                buckets_fit(results@),
                groups_correct(groups@, results@.take(i as int)),
                forall|j: int| 0 <= j < pos ==> (#[trigger] groups@[j]).0 < time,
            decreases m - pos,
        {
            pos += 1;
        }
        proof {
            lemma_bucket_step(results@, i as int);
        }
        let ghost gold = groups@;
        if pos < m && groups[pos].0 == time {
            let pair = groups.remove(pos);
            let mut lats = pair.1;
            lats.push(lat);
            groups.insert(pos, (time, lats));
            proof {
                assert(groups@ =~= gold.update(pos as int, (time, groups@[pos as int].1)));
                assert(groups@[pos as int].1@ =~= gold[pos as int].1@.push(lat));
                assert forall|k: int| 0 <= k < groups@.len() implies (#[trigger] groups@[k]).1@
                    == spec_bucket_lats(results@.take(i as int + 1), groups@[k].0 as int)
                    && groups@[k].1@.len() > 0 by {
                    if k != pos as int {
                        assert(groups@[k] == gold[k]);
                        if k < pos as int {
                            assert(gold[k].0 < gold[pos as int].0);
                        } else {
                            assert(gold[pos as int].0 < gold[k].0);
                        }
                    }
                }
                lemma_groups_keep_exists(
                    gold,
                    groups@,
                    results@,
                    i as int,
                    pos as int,
                );
            }
        } else {
            let mut lats: Vec<u64> = Vec::new();
            lats.push(lat);
            groups.insert(pos, (time, lats));
            proof {
                assert(groups@ =~= gold.insert(pos as int, (time, groups@[pos as int].1)));
                assert(groups@[pos as int].1@ =~= Seq::<u64>::empty().push(lat));
                let p = pos as int;
                lemma_bucket_empty(gold, results@.take(i as int), time as int, p);
                assert forall|k: int| 0 <= k < groups@.len() implies (#[trigger] groups@[k]).1@
                    == spec_bucket_lats(results@.take(i as int + 1), groups@[k].0 as int)
                    && groups@[k].1@.len() > 0 by {
                    if k < p {
                        assert(groups@[k] == gold[k]);
                        assert(gold[k].0 < time);
                    } else if k > p {
                        assert(groups@[k] == gold[k - 1]);
                        if k - 1 > p {
                            assert(gold[p].0 < gold[k - 1].0);
                        }
                        assert(gold[k - 1].0 != time);
                    }
                }
                assert forall|a: int, b: int| 0 <= a < b < groups@.len() implies (
                #[trigger] groups@[a]).0 < (#[trigger] groups@[b]).0 by {
                    if b < p {
                        assert(groups@[a] == gold[a] && groups@[b] == gold[b]);
                    } else if a < p && b == p {
                        assert(gold[a].0 < time);
                    } else if a < p && b > p {
                        assert(gold[a].0 < time);
                        if b - 1 > p {
                            assert(gold[p].0 < gold[b - 1].0);
                        }
                    } else if a == p {
                        if b - 1 > p {
                            assert(gold[p].0 < gold[b - 1].0);
                        }
                    } else {
                        assert(groups@[a] == gold[a - 1] && groups@[b] == gold[b - 1]);
                    }
                }
                lemma_groups_keep_exists(
                    gold,
                    groups@,
                    results@,
                    i as int,
                    pos as int,
                );
            }
        }
        i += 1;
        proof {
            assert(results@.take(i as int) == results@.take(i as int - 1 + 1));
        }
    }
    proof {
        assert(results@.take(n as int) =~= results@);
    }
    groups
}

/// A non-empty bucket holds the elapsed time of some result in it.
proof fn lemma_bucket_nonempty_member(s: Seq<RequestResult>, t: int)
    requires
        spec_bucket_lats(s, t).len() > 0,
    ensures
        exists|j: int| 0 <= j < s.len() && spec_bucket(#[trigger] s[j]) == t,
    decreases s.len(),
{
    if s.len() > 0 {
        if spec_bucket(s.last()) == t {
            assert(spec_bucket(s[s.len() - 1]) == t);
        } else {
            lemma_bucket_nonempty_member(s.drop_last(), t);
            let j = choose|j: int|
                0 <= j < s.drop_last().len() && spec_bucket(#[trigger] s.drop_last()[j]) == t;
            assert(s.drop_last()[j] == s[j]);
        }
    }
}

/// A second missing from a correct grouping, at its would-be sorted
/// position, has an empty bucket.
proof fn lemma_bucket_empty(g: Seq<(usize, Vec<u64>)>, s: Seq<RequestResult>, t: int, pos: int)
    requires
        groups_correct(g, s),
        0 <= pos <= g.len(),
        forall|j: int| 0 <= j < pos ==> (#[trigger] g[j]).0 < t,
        pos < g.len() ==> g[pos].0 > t,
    ensures
        spec_bucket_lats(s, t) == Seq::<u64>::empty(),
{
    if spec_bucket_lats(s, t).len() > 0 {
        lemma_bucket_nonempty_member(s, t);
        let j = choose|j: int| 0 <= j < s.len() && spec_bucket(#[trigger] s[j]) == t;
        let k = choose|k: int|
            0 <= k < g.len() && (#[trigger] g[k]).0 as int == spec_bucket(s[j]);
        if k < pos {
            assert(g[k].0 < t);
        } else {
            if k > pos {
                assert(g[pos].0 < g[k].0);
            }
            assert(g[pos].0 > t);
        }
        assert(false);
    }
    assert(spec_bucket_lats(s, t) =~= Seq::<u64>::empty());
}

/// Every latency in a bucket obeys the elapsed-time bound of the whole
/// list.
proof fn lemma_bucket_lats_bounded(s: Seq<RequestResult>, t: int)
    requires
        forall|j: int| 0 <= j < s.len() ==> (#[trigger] s[j].spec_elapsed()).nanos <= i64::MAX,
    ensures
        forall|j: int|
            0 <= j < spec_bucket_lats(s, t).len() ==> #[trigger] spec_bucket_lats(s, t)[j]
                <= i64::MAX,
    decreases s.len(),
{
    if s.len() > 0 {
        assert forall|j: int| 0 <= j < s.drop_last().len() implies (
        #[trigger] s.drop_last()[j].spec_elapsed()).nanos <= i64::MAX by {
            assert(s.drop_last()[j] == s[j]);
        }
        lemma_bucket_lats_bounded(s.drop_last(), t);
        let rest = spec_bucket_lats(s.drop_last(), t);
        assert forall|j: int| 0 <= j < spec_bucket_lats(s, t).len() implies
            #[trigger] spec_bucket_lats(s, t)[j] <= i64::MAX by {
            if spec_bucket(s.last()) == t {
                assert(spec_bucket_lats(s, t) == rest.push(s.last().spec_elapsed().nanos));
                if j < rest.len() {
                    assert(spec_bucket_lats(s, t)[j] == rest[j]);
                } else {
                    assert(spec_bucket_lats(s, t)[j] == s.last().spec_elapsed().nanos);
                    assert(s.last() == s[s.len() - 1]);
                }
            } else {
                assert(spec_bucket_lats(s, t) == rest);
            }
        }
    }
}

/// Items carrying exactly the grouped seconds cover every result's bucket.
proof fn lemma_series_complete(items: Seq<Item>, g: Seq<(usize, Vec<u64>)>, s: Seq<RequestResult>)
    requires
        groups_correct(g, s),
        items.len() == g.len(),
        forall|x: int| 0 <= x < items.len() ==> (#[trigger] items[x]).time == g[x].0,
    ensures
        series_covers(items, s),
{
    assert forall|j: int| #![trigger s[j]] 0 <= j < s.len() implies series_has_time(
        items,
        spec_bucket(s[j]),
    ) by {
        let kk = choose|kk: int|
            #![trigger g[kk]]
            0 <= kk < g.len() && g[kk].0 as int == spec_bucket(s[j]);
        assert(items[kk].time as int == spec_bucket(s[j]));
    }
}

/// The time-series report: one item per occupied second, ascending.
#[derive(Debug)]
pub struct TimeSeries(pub Vec<Item>);

impl TimeSeries {
    /// Buckets the results by the whole second of their start time and
    /// reports each occupied second's request count and latency statistics.
    pub fn new(results: Vec<RequestResult>) -> (r: TimeSeries)
        requires
            buckets_fit(results@),
        ensures
            time_series_correct(r.0@, results@),
    {
        let groups = group_by_second(&results);
        let g = groups.len();
        let mut items: Vec<Item> = Vec::new();
        let mut k: usize = 0;
        while k < g
            invariant
                k <= g,
                g == groups@.len(),
                buckets_fit(results@),
                groups_correct(groups@, results@),
                items@.len() == k,
                forall|x: int|
                    0 <= x < k ==> (#[trigger] items@[x]).time == groups@[x].0 && items@[x].requests
                        == groups@[x].1@.len() && latency_stats_ok(
                        items@[x].latency,
                        spec_bucket_lats(results@, items@[x].time as int),
                    ),
            decreases g - k,
        {
            let time = groups[k].0;
            let lats = copy_lats(&groups[k].1);
            proof {
                assert(lats@ == groups@[k as int].1@);
                assert(lats@ == spec_bucket_lats(results@, time as int));
            }
            proof {
                lemma_bucket_lats_bounded(results@, time as int);
            }
            let item = bucket_item(time, lats);
            items.push(item);
            k += 1;
        }
        proof {
            lemma_series_complete(items@, groups@, results@);
            assert forall|a: int, b: int| 0 <= a < b < items@.len() implies (
            #[trigger] items@[a]).time < (#[trigger] items@[b]).time by {
                assert(items@[a].time == groups@[a].0);
                assert(items@[b].time == groups@[b].0);
                assert(groups@[a].0 < groups@[b].0);
            }
            assert forall|x: int| 0 <= x < items@.len() implies (#[trigger] items@[x]).requests
                == spec_bucket_lats(results@, items@[x].time as int).len() && items@[x].requests
                > 0 by {
                assert(groups@[x].1@ == spec_bucket_lats(results@, groups@[x].0 as int));
            }
            assert forall|x: int| 0 <= x < items@.len() implies latency_stats_ok(
                (#[trigger] items@[x]).latency,
                spec_bucket_lats(results@, items@[x].time as int),
            ) by {
                assert(items@[x].time == groups@[x].0);
            }
        }
        TimeSeries(items)
    }
}

fn copy_lats(v: &Vec<u64>) -> (r: Vec<u64>)
    ensures
        r@ == v@,
{
    let n = v.len();
    let mut r: Vec<u64> = Vec::new();
    let mut i: usize = 0;
    while i < n
        invariant
            i <= n,
            n == v@.len(),
            r@ =~= v@.take(i as int),
        decreases n - i,
    {
        r.push(v[i]);
        i += 1;
    }
    proof {
        assert(v@.take(n as int) =~= v@);
    }
    r
}

/// Builds one item from a bucket's latency list.
fn bucket_item(time: usize, lats: Vec<u64>) -> (item: Item)
    requires
        lats@.len() > 0,
        forall|j: int| 0 <= j < lats@.len() ==> #[trigger] lats@[j] <= i64::MAX,
    ensures
        item.time == time,
        item.requests == lats@.len(),
        latency_stats_ok(item.latency, lats@),
{
    let n = lats.len();
    proof {
        lemma_sum_u64_bounds(lats@, 0, i64::MAX as u64);
        assert((i64::MAX as int) * (lats@.len() as int) <= i128::MAX) by (nonlinear_arith)
            requires
                lats@.len() <= u64::MAX,
        ;
    }
    let mut sum: i128 = 0;
    let mut k: usize = 0;
    while k < n
        invariant
            k <= n,
            n == lats@.len(),
            spec_sum_u64(lats@) <= i128::MAX,
            sum == spec_sum_u64(lats@.take(k as int)),
        decreases n - k,
    {
        proof {
            assert(lats@.take(k as int + 1).drop_last() =~= lats@.take(k as int));
            assert(lats@.take(k as int + 1).last() == lats@[k as int]);
            lemma_sum_u64_take_le(lats@, k as int + 1);
            lemma_sum_u64_take_le(lats@, k as int);
        }
        sum = sum + lats[k] as i128;
        k += 1;
    }
    proof {
        assert(lats@.take(n as int) =~= lats@);
    }
    let ghost lat_seq = lats@;
    let sorted = sort_u64(lats);
    let min = sorted[0];
    let median = sorted[n / 2];
    let max = sorted[n - 1];
    proof {
        assert forall|j: int| 0 <= j < n implies min <= #[trigger] lat_seq[j] <= max by {
            assert(lat_seq.to_multiset().count(lat_seq[j]) > 0);
            assert(sorted@.to_multiset().count(lat_seq[j]) > 0);
            assert(sorted@.contains(lat_seq[j]));
            let k2 = choose|k2: int| 0 <= k2 < sorted@.len() && sorted@[k2] == lat_seq[j];
            assert(sorted@[0] <= sorted@[k2] <= sorted@[sorted@.len() - 1]);
        }
        lemma_sum_u64_bounds(lat_seq, min, max);
        vstd::arithmetic::div_mod::lemma_div_is_ordered(
            min as int * n as int,
            spec_sum_u64(lat_seq),
            n as int,
        );
        vstd::arithmetic::div_mod::lemma_div_is_ordered(
            spec_sum_u64(lat_seq),
            max as int * n as int,
            n as int,
        );
        vstd::arithmetic::div_mod::lemma_div_multiples_vanish(min as int, n as int);
        vstd::arithmetic::div_mod::lemma_div_multiples_vanish(max as int, n as int);
        assert(min as int * n as int == n as int * min as int && max as int * n as int == n as int
            * max as int) by (nonlinear_arith);
    }
    let mean = (sum / (n as i128)) as u64;
    Item {
        time,
        requests: n,
        latency: Latency {
            min: Seconds::from_nanos(min),
            mean: Seconds::from_nanos(mean),
            median: Seconds::from_nanos(median),
            max: Seconds::from_nanos(max),
        },
    }
}

} // verus!
