//! The query engine: rules select series by condition, group them by label
//! projection, and shape them by per-kind transform or casual summation.

use vstd::prelude::*;
use std::collections::VecDeque;

use crate::cond::{cond_matches, cond_ok, check_condition, match_cond, CondV, Condition};
use crate::history::{chunk_of_series, History, HistoryChunk};
use crate::keys::{key_get, Key, KeyView};
use crate::ring::SeriesRingV;
use crate::tstamp::Marker;
use crate::values::{ValueKind, ValueV};

verus! {

/// A malformed request: the payload names what was wrong.
#[derive(Debug)]
pub struct Error(pub &'static str);

/// A query failure: a bad request is the caller's fault; a not-implemented
/// tier or aggregation combination is a distinct, honest refusal.
#[derive(Debug)]
pub enum QueryError {
    BadRequest(Error),
    NotImplemented(&'static str),
}

/// The tier a rule reads.
#[derive(Clone, Copy, Debug, PartialEq, Eq, Hash, Structural)]
pub enum Source {
    Tip,
    Fine,
    Coarse,
}

/// How matched series are combined within a group.
#[derive(Clone, Copy, Debug, PartialEq, Eq, Hash, Structural)]
pub enum Aggregation {
    /// No aggregation: every matched series passes through on its own.
    Raw,
    /// Element-wise sum across the group; an absent sample counts as zero,
    /// never as a propagating hole.
    CasualSum,
}

/// One query rule: a predicate selecting series from a tier, a grouping
/// projection, an aggregation mode and a cap on the points returned.
#[derive(Debug)]
pub struct Rule {
    pub source: Source,
    pub condition: Condition,
    pub key: Vec<String>,
    pub aggregation: Aggregation,
    pub limit: u32,
}

/// A named set of rules.
#[derive(Debug)]
pub struct Query {
    pub rules: Vec<(String, Rule)>,
}

/// A raw-extraction rule: a predicate and a grouping projection, no
/// aggregation.
#[derive(Debug)]
pub struct RawRule {
    pub source: Source,
    pub condition: Condition,
    pub key: Vec<String>,
}

/// A raw-extraction query: rules and a shared cap on returned points.
#[derive(Debug)]
pub struct RawQuery {
    pub rules: Vec<RawRule>,
    pub limit: usize,
}

/// One exact rate point of a counter series: `delta` counted over
/// `interval_ms` milliseconds. The conventional scalar reading is
/// `delta * 1000 / interval_ms`.
#[derive(Clone, Copy, Debug, PartialEq, Eq, Structural)]
pub struct RatePoint {
    pub delta: u64,
    pub interval_ms: u64,
}

/// One exact summed rate across a group, over the shared interval.
#[derive(Clone, Copy, Debug, PartialEq, Eq, Structural)]
pub struct RateSum {
    pub delta: u128,
    pub interval_ms: u64,
}

/// The rate point of `stream` between ring position `k` (newer) and `k + 1`
/// (older): present exactly when both samples are present, the counter did
/// not decrease, and the markers are properly ordered.
pub open spec fn rate_at(stream: Seq<Option<u64>>, ts: Seq<Marker>, k: int) -> Option<RatePoint> {
    if 0 <= k && k + 1 < stream.len() && k + 1 < ts.len() && stream[k] is Some && stream[k + 1]
        is Some && stream[k]->0 >= stream[k + 1]->0 && ts[k].0 > ts[k + 1].0 {
        Some(
            RatePoint {
                delta: (stream[k]->0 - stream[k + 1]->0) as u64,
                interval_ms: (ts[k].0 - ts[k + 1].0) as u64,
            },
        )
    } else {
        None
    }
}

/// How many rate points a stream yields: one fewer than the positions the
/// stream and the marker ring share, capped at `limit`.
pub open spec fn rate_len(stream_len: int, ts_len: int, limit: int) -> int {
    let shared = if stream_len <= ts_len {
        stream_len
    } else {
        ts_len
    };
    let pts = if shared >= 1 {
        shared - 1
    } else {
        0
    };
    if pts <= limit {
        pts
    } else {
        limit
    }
}

/// Raw passthrough (aggregation `None` over integer or float series): each
/// matched series' own stream, truncated to the `limit` newest points.
pub fn take_raw<T: Copy>(items: Vec<Vec<Option<T>>>, limit: u32) -> (r: Vec<Vec<Option<T>>>)
    ensures
        r@.len() == items@.len(),
        forall|s: int|
            0 <= s < items@.len() ==> (#[trigger] r@[s])@ == if items@[s]@.len() <= limit {
                items@[s]@
            } else {
                items@[s]@.take(limit as int)
            },
{
    let mut out: Vec<Vec<Option<T>>> = Vec::new();
    let mut items = items;
    let ghost orig = items@;
    let n0 = items.len();
    let mut s: usize = 0;
    proof {
        assert(items@ =~= orig.skip(0));
    }
    while items.len() > 0
        invariant
            orig.len() == n0,
            s + items@.len() == orig.len(),
            items@ == orig.skip(s as int),
            out@.len() == s,
            forall|k: int|
                0 <= k < s ==> (#[trigger] out@[k])@ == if orig[k]@.len() <= limit {
                    orig[k]@
                } else {
                    orig[k]@.take(limit as int)
                },
        decreases items@.len(),
    {
        let mut slot: Vec<Option<T>> = items.remove(0);
        proof {
            assert(orig.skip(s as int)[0] == orig[s as int]);
            assert(items@ =~= orig.skip(s as int + 1));
        }
        if slot.len() > limit as usize {
            slot.truncate(limit as usize);
        }
        out.push(slot);
        s = s + 1;
    }
    out
}

/// Rate transform (aggregation `None` over counter series): each matched
/// series' exact rate points between adjacent ring positions, newest first,
/// truncated to `limit`; a missing endpoint or a decrease yields a hole.
pub fn take_rate(ts: &VecDeque<Marker>, items: Vec<Vec<Option<u64>>>, limit: u32) -> (r: Vec<
    Vec<Option<RatePoint>>,
>)
    ensures
        r@.len() == items@.len(),
        forall|s: int|
            0 <= s < items@.len() ==> (#[trigger] r@[s])@.len() == rate_len(
                items@[s]@.len() as int,
                ts@.len() as int,
                limit as int,
            ),
        forall|s: int, k: int|
            0 <= s < items@.len() && 0 <= k < r@[s]@.len() ==> (#[trigger] r@[s]@[k]) == rate_at(
                items@[s]@,
                ts@,
                k,
            ),
{
    let mut out: Vec<Vec<Option<RatePoint>>> = Vec::new();
    let n = items.len();
    let tl = ts.len();
    let mut s: usize = 0;
    while s < n
        invariant
            n == items@.len(),
            tl == ts@.len(),
            0 <= s <= n,
            out@.len() == s,
            forall|k: int|
                0 <= k < s ==> (#[trigger] out@[k])@.len() == rate_len(
                    items@[k]@.len() as int,
                    ts@.len() as int,
                    limit as int,
                ),
            forall|q: int, k: int|
                0 <= q < s && 0 <= k < out@[q]@.len() ==> (#[trigger] out@[q]@[k]) == rate_at(
                    items@[q]@,
                    ts@,
                    k,
                ),
        decreases n - s,
    {
        let stream = &items[s];
        let sl = stream.len();
        let shared = if sl <= tl {
            sl
        } else {
            tl
        };
        let pts = if shared >= 1 {
            shared - 1
        } else {
            0
        };
        let m = if pts <= limit as usize {
            pts
        } else {
            limit as usize
        };
        let mut row: Vec<Option<RatePoint>> = Vec::new();
        let mut k: usize = 0;
        while k < m
            invariant
                m as int == rate_len(stream@.len() as int, ts@.len() as int, limit as int),
                m == 0 || (m + 1 <= stream@.len() && m + 1 <= ts@.len()),
                stream@ == items@[s as int]@,
                s < items@.len(),
                0 <= k <= m,
                row@.len() == k,
                forall|t: int|
                    0 <= t < k ==> (#[trigger] row@[t]) == rate_at(items@[s as int]@, ts@, t),
            decreases m - k,
        {
            let pt: Option<RatePoint> = match (&stream[k], &stream[k + 1]) {
                (Some(newer), Some(older)) => {
                    let nts = ts[k].0;
                    let ots = ts[k + 1].0;
                    if *newer >= *older && nts > ots {
                        Some(RatePoint { delta: *newer - *older, interval_ms: nts - ots })
                    } else {
                        None
                    }
                },
                _ => None,
            };
            row.push(pt);
            k = k + 1;
        }
        out.push(row);
        s = s + 1;
    }
    out
}

/// The sum at position `k` across the group: each stream contributes its
/// sample, `zero` for a hole within its truncated range, and nothing beyond
/// its range.
pub open spec fn raw_sum_at(streams: Seq<Seq<Option<i64>>>, k: int, zero: i64, limit: int) -> int
    decreases streams.len(),
{
    if streams.len() == 0 {
        0
    } else {
        let last = streams.last();
        let tlen = if last.len() <= limit {
            last.len() as int
        } else {
            limit
        };
        let c: int = if 0 <= k < tlen {
            match last[k] {
                Some(x) => x as int,
                None => zero as int,
            }
        } else {
            0
        };
        raw_sum_at(streams.drop_last(), k, zero, limit) + c
    }
}

/// The longest truncated stream length in the group.
pub open spec fn max_trunc_len(streams: Seq<Seq<Option<i64>>>, limit: int) -> int
    decreases streams.len(),
{
    if streams.len() == 0 {
        0
    } else {
        let last = streams.last();
        let tlen = if last.len() <= limit {
            last.len() as int
        } else {
            limit
        };
        let rest = max_trunc_len(streams.drop_last(), limit);
        if tlen >= rest {
            tlen
        } else {
            rest
        }
    }
}

proof fn lemma_raw_sum_bound(streams: Seq<Seq<Option<i64>>>, k: int, zero: i64, limit: int)
    ensures
        raw_sum_at(streams, k, zero, limit) <= streams.len() * (i64::MAX as int),
        raw_sum_at(streams, k, zero, limit) >= streams.len() * (i64::MIN as int),
    decreases streams.len(),
{
    if streams.len() > 0 {
        lemma_raw_sum_bound(streams.drop_last(), k, zero, limit);
        assert(streams.len() * (i64::MAX as int) == (streams.len() - 1) * (i64::MAX as int)
            + (i64::MAX as int)) by (nonlinear_arith);
        assert(streams.len() * (i64::MIN as int) == (streams.len() - 1) * (i64::MIN as int)
            + (i64::MIN as int)) by (nonlinear_arith);
    }
}

/// The views of a group's streams.
pub open spec fn stream_views<T>(items: Seq<Vec<Option<T>>>) -> Seq<Seq<Option<T>>> {
    items.map_values(|v: Vec<Option<T>>| v@)
}

/// Casual sum over raw series: element-wise sum across the group, an absent
/// sample within a stream's truncated range counting as `zero` and a
/// position beyond it contributing nothing; the result spans the longest
/// truncated stream, as exact 128-bit integers.
pub fn sum_raw(items: Vec<Vec<Option<i64>>>, limit: u32, zero: i64) -> (r: Vec<i128>)
    ensures
        r@.len() == max_trunc_len(stream_views(items@), limit as int),
        forall|k: int|
            0 <= k < r@.len() ==> #[trigger] r@[k] as int == zero as int + raw_sum_at(
                stream_views(items@),
                k,
                zero,
                limit as int,
            ),
{
    let ghost streams = stream_views(items@);
    proof {
        assert(forall|i: int|
            0 <= i < items@.len() ==> #[trigger] streams[i] == items@[i]@);
    }
    let n = items.len();
    // The longest truncated stream.
    let mut rlen: usize = 0;
    let mut s: usize = 0;
    proof {
        assert(streams.take(0) =~= Seq::<Seq<Option<i64>>>::empty());
    }
    while s < n
        invariant
            n == items@.len(),
            streams == stream_views(items@),
            streams.len() == n,
            forall|i: int| 0 <= i < n ==> #[trigger] streams[i] == items@[i]@,
            0 <= s <= n,
            rlen as int == max_trunc_len(streams.take(s as int), limit as int),
            rlen <= limit,
        decreases n - s,
    {
        proof {
            assert(streams.take(s + 1).drop_last() =~= streams.take(s as int));
            assert(streams.take(s + 1).last() == streams[s as int]);
        }
        let sl = items[s].len();
        let tl = if sl <= limit as usize {
            sl
        } else {
            limit as usize
        };
        if tl > rlen {
            rlen = tl;
        }
        s = s + 1;
    }
    proof {
        assert(streams.take(n as int) =~= streams);
    }
    let mut out: Vec<i128> = Vec::new();
    let mut k: usize = 0;
    while k < rlen
        invariant
            n == items@.len(),
            streams == stream_views(items@),
            streams.len() == n,
            forall|i: int| 0 <= i < n ==> #[trigger] streams[i] == items@[i]@,
            0 <= k <= rlen,
            out@.len() == k,
            forall|t: int|
                0 <= t < k ==> #[trigger] out@[t] as int == zero as int + raw_sum_at(
                    streams,
                    t,
                    zero,
                    limit as int,
                ),
        decreases rlen - k,
    {
        let mut acc: i128 = zero as i128;
        let mut s: usize = 0;
        proof {
            assert(streams.take(0) =~= Seq::<Seq<Option<i64>>>::empty());
        }
        while s < n
            invariant
                n == items@.len(),
                    streams == stream_views(items@),
                streams.len() == n,
                forall|i: int| 0 <= i < n ==> #[trigger] streams[i] == items@[i]@,
                0 <= s <= n,
                acc as int == zero as int + raw_sum_at(streams.take(s as int), k as int, zero, limit as int),
            decreases n - s,
        {
            proof {
                assert(streams.take(s + 1).drop_last() =~= streams.take(s as int));
                assert(streams.take(s + 1).last() == streams[s as int]);
                lemma_raw_sum_bound(streams.take(s as int), k as int, zero, limit as int);
                assert(streams.take(s as int).len() * (i64::MAX as int) <= 0xffff_ffff_ffff_ffff
                    * (i64::MAX as int)) by (nonlinear_arith)
                    requires
                        0 <= streams.take(s as int).len() <= 0xffff_ffff_ffff_ffff,
                ;
                assert(streams.take(s as int).len() * (i64::MIN as int) >= 0xffff_ffff_ffff_ffff
                    * (i64::MIN as int)) by (nonlinear_arith)
                    requires
                        0 <= streams.take(s as int).len() <= 0xffff_ffff_ffff_ffff,
                ;
            }
            let stream = &items[s];
            let sl = stream.len();
            let tl = if sl <= limit as usize {
                sl
            } else {
                limit as usize
            };
            let c: i128 = if k < tl {
                match &stream[k] {
                    Some(x) => *x as i128,
                    None => zero as i128,
                }
            } else {
                0
            };
            acc = acc + c;
            s = s + 1;
        }
        proof {
            assert(streams.take(n as int) =~= streams);
        }
        out.push(acc);
        k = k + 1;
    }
    out
}

/// The interval between ring positions `k` and `k + 1`, or zero where the
/// markers do not order properly.
pub open spec fn interval_at(ts: Seq<Marker>, k: int) -> int {
    if 0 <= k && k + 1 < ts.len() && ts[k].0 > ts[k + 1].0 {
        ts[k].0 - ts[k + 1].0
    } else {
        0
    }
}

/// The summed counter delta at rate position `k` across the group: each
/// stream whose rate range covers `k` contributes its delta, a missing or
/// invalid rate point counting as zero.
pub open spec fn rate_sum_delta_at(
    streams: Seq<Seq<Option<u64>>>,
    ts: Seq<Marker>,
    k: int,
    limit: int,
) -> int
    decreases streams.len(),
{
    if streams.len() == 0 {
        0
    } else {
        let last = streams.last();
        let c: int = if 0 <= k < rate_len(last.len() as int, ts.len() as int, limit) {
            match rate_at(last, ts, k) {
                Some(rp) => rp.delta as int,
                None => 0,
            }
        } else {
            0
        };
        rate_sum_delta_at(streams.drop_last(), ts, k, limit) + c
    }
}

/// The longest rate range in the group.
pub open spec fn max_rate_len(streams: Seq<Seq<Option<u64>>>, ts_len: int, limit: int) -> int
    decreases streams.len(),
{
    if streams.len() == 0 {
        0
    } else {
        let tlen = rate_len(streams.last().len() as int, ts_len, limit);
        let rest = max_rate_len(streams.drop_last(), ts_len, limit);
        if tlen >= rest {
            tlen
        } else {
            rest
        }
    }
}

proof fn lemma_rate_sum_bound(streams: Seq<Seq<Option<u64>>>, ts: Seq<Marker>, k: int, limit: int)
    ensures
        0 <= rate_sum_delta_at(streams, ts, k, limit),
        rate_sum_delta_at(streams, ts, k, limit) <= streams.len() * (u64::MAX as int),
    decreases streams.len(),
{
    if streams.len() > 0 {
        lemma_rate_sum_bound(streams.drop_last(), ts, k, limit);
        assert(streams.len() * (u64::MAX as int) == (streams.len() - 1) * (u64::MAX as int) + (
        u64::MAX as int)) by (nonlinear_arith);
    }
}

/// Casual sum over counter series: the summed exact rate at each position
/// across the group, a missing sample counting as zero, over the shared
/// interval of the marker ring.
pub fn sum_rate(ts: &VecDeque<Marker>, items: Vec<Vec<Option<u64>>>, limit: u32) -> (r: Vec<
    RateSum,
>)
    ensures
        r@.len() == max_rate_len(stream_views(items@), ts@.len() as int, limit as int),
        forall|k: int|
            0 <= k < r@.len() ==> (#[trigger] r@[k]).delta as int == rate_sum_delta_at(
                stream_views(items@),
                ts@,
                k,
                limit as int,
            ),
        forall|k: int|
            0 <= k < r@.len() ==> (#[trigger] r@[k]).interval_ms as int == interval_at(ts@, k),
{
    let ghost streams = stream_views(items@);
    proof {
        assert(forall|i: int|
            0 <= i < items@.len() ==> #[trigger] streams[i] == items@[i]@);
    }
    let n = items.len();
    let tsl = ts.len();
    let mut rlen: usize = 0;
    let mut s: usize = 0;
    proof {
        assert(streams.take(0) =~= Seq::<Seq<Option<u64>>>::empty());
    }
    while s < n
        invariant
            n == items@.len(),
            tsl == ts@.len(),
            streams == stream_views(items@),
            streams.len() == n,
            forall|i: int| 0 <= i < n ==> #[trigger] streams[i] == items@[i]@,
            0 <= s <= n,
            rlen as int == max_rate_len(streams.take(s as int), ts@.len() as int, limit as int),
            rlen <= limit,
        decreases n - s,
    {
        proof {
            assert(streams.take(s + 1).drop_last() =~= streams.take(s as int));
            assert(streams.take(s + 1).last() == streams[s as int]);
        }
        let sl = items[s].len();
        let shared = if sl <= tsl {
            sl
        } else {
            tsl
        };
        let pts = if shared >= 1 {
            shared - 1
        } else {
            0
        };
        let tl = if pts <= limit as usize {
            pts
        } else {
            limit as usize
        };
        if tl > rlen {
            rlen = tl;
        }
        s = s + 1;
    }
    proof {
        assert(streams.take(n as int) =~= streams);
    }
    let mut out: Vec<RateSum> = Vec::new();
    let mut k: usize = 0;
    while k < rlen
        invariant
            n == items@.len(),
            tsl == ts@.len(),
            streams == stream_views(items@),
            streams.len() == n,
            forall|i: int| 0 <= i < n ==> #[trigger] streams[i] == items@[i]@,
            0 <= k <= rlen,
            rlen as int == max_rate_len(streams, ts@.len() as int, limit as int),
            out@.len() == k,
            forall|t: int|
                0 <= t < k ==> (#[trigger] out@[t]).delta as int == rate_sum_delta_at(
                    streams,
                    ts@,
                    t,
                    limit as int,
                ) && out@[t].interval_ms as int == interval_at(ts@, t),
        decreases rlen - k,
    {
        let mut acc: u128 = 0;
        let mut s: usize = 0;
        proof {
            assert(streams.take(0) =~= Seq::<Seq<Option<u64>>>::empty());
        }
        while s < n
            invariant
                n == items@.len(),
                    tsl == ts@.len(),
                streams == stream_views(items@),
                streams.len() == n,
                forall|i: int| 0 <= i < n ==> #[trigger] streams[i] == items@[i]@,
                0 <= s <= n,
                acc as int == rate_sum_delta_at(streams.take(s as int), ts@, k as int, limit as int),
            decreases n - s,
        {
            proof {
                assert(streams.take(s + 1).drop_last() =~= streams.take(s as int));
                assert(streams.take(s + 1).last() == streams[s as int]);
                lemma_rate_sum_bound(streams.take(s as int), ts@, k as int, limit as int);
                assert(streams.take(s as int).len() * (u64::MAX as int) <= 0xffff_ffff_ffff_ffff
                    * (u64::MAX as int)) by (nonlinear_arith)
                    requires
                        0 <= streams.take(s as int).len() <= 0xffff_ffff_ffff_ffff,
                ;
            }
            let stream = &items[s];
            let sl = stream.len();
            let shared = if sl <= tsl {
                sl
            } else {
                tsl
            };
            let pts = if shared >= 1 {
                shared - 1
            } else {
                0
            };
            let tl = if pts <= limit as usize {
                pts
            } else {
                limit as usize
            };
            let c: u128 = if k < tl {
                match (&stream[k], &stream[k + 1]) {
                    (Some(newer), Some(older)) => {
                        let nts = ts[k].0;
                        let ots = ts[k + 1].0;
                        if *newer >= *older && nts > ots {
                            (*newer - *older) as u128
                        } else {
                            0
                        }
                    },
                    _ => 0,
                }
            } else {
                0
            };
            acc = acc + c;
            s = s + 1;
        }
        proof {
            assert(streams.take(n as int) =~= streams);
        }
        let interval: u64 = if k + 1 < tsl && ts[k].0 > ts[k + 1].0 {
            ts[k].0 - ts[k + 1].0
        } else {
            0
        };
        out.push(RateSum { delta: acc, interval_ms: interval });
        k = k + 1;
    }
    out
}

/// The group accumulator: the kind-homogeneous columnar streams of one
/// group's matched series.
#[derive(Debug)]
pub enum ValueSet {
    Empty,
    Counters(Vec<Vec<Option<u64>>>),
    Integers(Vec<Vec<Option<i64>>>),
    Floats(Vec<Vec<Option<u64>>>),
}

/// Model of a group accumulator.
pub enum ValueSetV {
    Empty,
    Counters(Seq<Seq<Option<u64>>>),
    Integers(Seq<Seq<Option<i64>>>),
    Floats(Seq<Seq<Option<u64>>>),
}

impl View for ValueSet {
    type V = ValueSetV;

    open spec fn view(&self) -> ValueSetV {
        match self {
            ValueSet::Empty => ValueSetV::Empty,
            ValueSet::Counters(v) => ValueSetV::Counters(stream_views(v@)),
            ValueSet::Integers(v) => ValueSetV::Integers(stream_views(v@)),
            ValueSet::Floats(v) => ValueSetV::Floats(stream_views(v@)),
        }
    }
}

/// The matched series of a tier, in tier order.
pub open spec fn matched(series: Seq<(KeyView, SeriesRingV)>, c: CondV) -> Seq<
    (KeyView, SeriesRingV),
>
    decreases series.len(),
{
    if series.len() == 0 {
        Seq::empty()
    } else {
        let rest = matched(series.drop_last(), c);
        if cond_matches(series.last().0, c) {
            rest.push(series.last())
        } else {
            rest
        }
    }
}

/// The projection of a key onto the `group_by` label names; an absent label
/// projects to the empty string.
pub open spec fn project(key: KeyView, gb: Seq<Seq<char>>) -> Seq<Seq<char>> {
    Seq::new(
        gb.len(),
        |i: int|
            match key_get(key, gb[i]) {
                Some(v) => v,
                None => Seq::empty(),
            },
    )
}

/// The distinct projections of the matched series, in first-seen order.
pub open spec fn group_paths(ms: Seq<(KeyView, SeriesRingV)>, gb: Seq<Seq<char>>) -> Seq<
    Seq<Seq<char>>,
>
    decreases ms.len(),
{
    if ms.len() == 0 {
        Seq::empty()
    } else {
        let rest = group_paths(ms.drop_last(), gb);
        let p = project(ms.last().0, gb);
        if rest.contains(p) {
            rest
        } else {
            rest.push(p)
        }
    }
}

/// The rings of the matched series projecting onto `p`, in tier order.
pub open spec fn group_members(
    ms: Seq<(KeyView, SeriesRingV)>,
    gb: Seq<Seq<char>>,
    p: Seq<Seq<char>>,
) -> Seq<SeriesRingV>
    decreases ms.len(),
{
    if ms.len() == 0 {
        Seq::empty()
    } else {
        let rest = group_members(ms.drop_last(), gb, p);
        if project(ms.last().0, gb) == p {
            rest.push(ms.last().1)
        } else {
            rest
        }
    }
}

/// The members that have seen at least one sample.
pub open spec fn nonempty_members(members: Seq<SeriesRingV>) -> Seq<SeriesRingV>
    decreases members.len(),
{
    if members.len() == 0 {
        Seq::empty()
    } else {
        let rest = nonempty_members(members.drop_last());
        if members.last().kind != ValueKind::Empty {
            rest.push(members.last())
        } else {
            rest
        }
    }
}

/// No two sampled members disagree on their kind.
pub open spec fn members_kind_ok(members: Seq<SeriesRingV>) -> bool {
    forall|i: int, j: int|
        0 <= i < members.len() && 0 <= j < members.len() ==> ((#[trigger] members[i]).kind
            == ValueKind::Empty || (#[trigger] members[j]).kind == ValueKind::Empty
            || members[i].kind == members[j].kind)
}

/// The counter column of a counter series.
pub open spec fn counter_stream(sr: SeriesRingV) -> Seq<Option<u64>> {
    sr.values.map_values(
        |ov: Option<ValueV>|
            match ov {
                Some(ValueV::Counter(x)) => Some(x),
                _ => None::<u64>,
            },
    )
}

/// The integer column of an integer series.
pub open spec fn integer_stream(sr: SeriesRingV) -> Seq<Option<i64>> {
    sr.values.map_values(
        |ov: Option<ValueV>|
            match ov {
                Some(ValueV::Integer(x)) => Some(x),
                _ => None::<i64>,
            },
    )
}

/// The float-bits column of a float series.
pub open spec fn float_stream(sr: SeriesRingV) -> Seq<Option<u64>> {
    sr.values.map_values(
        |ov: Option<ValueV>|
            match ov {
                Some(ValueV::Float(x)) => Some(x),
                _ => None::<u64>,
            },
    )
}

/// The accumulator a kind-consistent group fills: the sampled members'
/// columns under the group's one kind.
pub open spec fn valueset_of(members: Seq<SeriesRingV>) -> ValueSetV {
    let ne = nonempty_members(members);
    if ne.len() == 0 {
        ValueSetV::Empty
    } else {
        match ne[0].kind {
            ValueKind::Counter => ValueSetV::Counters(ne.map_values(|sr: SeriesRingV| counter_stream(sr))),
            ValueKind::Integer => ValueSetV::Integers(ne.map_values(|sr: SeriesRingV| integer_stream(sr))),
            ValueKind::Float => ValueSetV::Floats(ne.map_values(|sr: SeriesRingV| float_stream(sr))),
            ValueKind::Empty => ValueSetV::Empty,
        }
    }
}

/// The views of a list of strings.
pub open spec fn strs_views(v: Seq<String>) -> Seq<Seq<char>> {
    v.map_values(|s: String| s@)
}

/// The projection of a key onto the `group_by` label names, as owned
/// strings; an absent label projects to the empty string.
fn project_key(key: &Key, gb: &Vec<String>) -> (r: Vec<String>)
    ensures
        strs_views(r@) == project(key@, strs_views(gb@)),
{
    let n = gb.len();
    let mut out: Vec<String> = Vec::new();
    let mut i: usize = 0;
    while i < n
        invariant
            n == gb@.len(),
            0 <= i <= n,
            out@.len() == i,
            forall|k: int|
                0 <= k < i ==> (#[trigger] out@[k])@ == match key_get(key@, gb@[k]@) {
                    Some(v) => v,
                    None => Seq::<char>::empty(),
                },
        decreases n - i,
    {
        match key.get(&gb[i]) {
            Some(v) => out.push(v.clone()),
            None => {
                let empty = String::new();
                out.push(empty);
            },
        }
        i = i + 1;
    }
    proof {
        assert(strs_views(out@) =~= project(key@, strs_views(gb@)));
    }
    out
}

/// Structural equality of two string lists.
fn paths_eq(a: &Vec<String>, b: &Vec<String>) -> (r: bool)
    ensures
        r == (strs_views(a@) == strs_views(b@)),
{
    if a.len() != b.len() {
        proof {
            assert(strs_views(a@).len() != strs_views(b@).len());
        }
        return false;
    }
    let n = a.len();
    let mut i: usize = 0;
    while i < n
        invariant
            n == a@.len() == b@.len(),
            0 <= i <= n,
            forall|k: int| 0 <= k < i ==> (#[trigger] a@[k])@ == b@[k]@,
        decreases n - i,
    {
        if !(a[i] == b[i]) {
            proof {
                assert(strs_views(a@)[i as int] != strs_views(b@)[i as int]);
            }
            return false;
        }
        i = i + 1;
    }
    proof {
        assert(strs_views(a@) =~= strs_views(b@));
    }
    true
}

/// Appends one series' chunk to a group accumulator; a chunk of another
/// kind than the group's is refused, a chunk that never saw a sample is a
/// no-op.
fn vs_push(set: ValueSet, chunk: HistoryChunk) -> (r: Result<ValueSet, Error>)
    ensures
        match r {
            Ok(ns) => match chunk@.kind {
                ValueKind::Empty => ns@ == set@,
                ValueKind::Counter => set@ matches ValueSetV::Empty && ns@
                    == ValueSetV::Counters(seq![counter_stream(chunk@)]) || (set@ matches
                ValueSetV::Counters(cs) && ns@ == ValueSetV::Counters(
                    cs.push(counter_stream(chunk@)),
                )),
                ValueKind::Integer => set@ matches ValueSetV::Empty && ns@
                    == ValueSetV::Integers(seq![integer_stream(chunk@)]) || (set@ matches
                ValueSetV::Integers(cs) && ns@ == ValueSetV::Integers(
                    cs.push(integer_stream(chunk@)),
                )),
                ValueKind::Float => set@ matches ValueSetV::Empty && ns@ == ValueSetV::Floats(
                    seq![float_stream(chunk@)],
                ) || (set@ matches ValueSetV::Floats(cs) && ns@ == ValueSetV::Floats(
                    cs.push(float_stream(chunk@)),
                )),
            },
            Err(_) => {
                ||| chunk@.kind == ValueKind::Counter && !(set@ matches ValueSetV::Empty) && !(
                set@ matches ValueSetV::Counters(_))
                ||| chunk@.kind == ValueKind::Integer && !(set@ matches ValueSetV::Empty) && !(
                set@ matches ValueSetV::Integers(_))
                ||| chunk@.kind == ValueKind::Float && !(set@ matches ValueSetV::Empty) && !(
                set@ matches ValueSetV::Floats(_))
            },
        },
{
    match chunk {
        HistoryChunk::Empty => Ok(set),
        HistoryChunk::Counters(c) => {
            let ghost cv = counter_stream(chunk@);
            proof {
                assert(cv =~= c@);
            }
            match set {
                ValueSet::Empty => {
                    let mut v: Vec<Vec<Option<u64>>> = Vec::new();
                    v.push(c);
                    proof {
                        assert(stream_views(v@) =~= seq![cv]);
                    }
                    Ok(ValueSet::Counters(v))
                },
                ValueSet::Counters(mut cs) => {
                    let ghost pre = stream_views(cs@);
                    cs.push(c);
                    proof {
                        assert(stream_views(cs@) =~= pre.push(cv));
                    }
                    Ok(ValueSet::Counters(cs))
                },
                _ => Err(Error("mixed value kinds in one group")),
            }
        },
        HistoryChunk::Integers(c) => {
            let ghost cv = integer_stream(chunk@);
            proof {
                assert(cv =~= c@);
            }
            match set {
                ValueSet::Empty => {
                    let mut v: Vec<Vec<Option<i64>>> = Vec::new();
                    v.push(c);
                    proof {
                        assert(stream_views(v@) =~= seq![cv]);
                    }
                    Ok(ValueSet::Integers(v))
                },
                ValueSet::Integers(mut cs) => {
                    let ghost pre = stream_views(cs@);
                    cs.push(c);
                    proof {
                        assert(stream_views(cs@) =~= pre.push(cv));
                    }
                    Ok(ValueSet::Integers(cs))
                },
                _ => Err(Error("mixed value kinds in one group")),
            }
        },
        HistoryChunk::Floats(c) => {
            let ghost cv = float_stream(chunk@);
            proof {
                assert(cv =~= c@);
            }
            match set {
                ValueSet::Empty => {
                    let mut v: Vec<Vec<Option<u64>>> = Vec::new();
                    v.push(c);
                    proof {
                        assert(stream_views(v@) =~= seq![cv]);
                    }
                    Ok(ValueSet::Floats(v))
                },
                ValueSet::Floats(mut cs) => {
                    let ghost pre = stream_views(cs@);
                    cs.push(c);
                    proof {
                        assert(stream_views(cs@) =~= pre.push(cv));
                    }
                    Ok(ValueSet::Floats(cs))
                },
                _ => Err(Error("mixed value kinds in one group")),
            }
        },
    }
}

proof fn lemma_matched_take_prefix(
    series: Seq<(KeyView, SeriesRingV)>,
    c: CondV,
    n: int,
)
    requires
        0 <= n <= series.len(),
    ensures
        matched(series.take(n), c).is_prefix_of(matched(series, c)),
    decreases series.len() - n,
{
    if n == series.len() {
        assert(series.take(n) =~= series);
        assert(matched(series, c).is_prefix_of(matched(series, c)));
    } else {
        lemma_matched_take_prefix(series, c, n + 1);
        assert(series.take(n + 1).drop_last() =~= series.take(n));
        assert(series.take(n + 1).last() == series[n]);
        let a = matched(series.take(n), c);
        let b = matched(series.take(n + 1), c);
        assert(a.is_prefix_of(b));
        let full = matched(series, c);
        assert(b.is_prefix_of(full));
        assert(a =~= full.take(a.len() as int));
    }
}

proof fn lemma_members_prefix(
    ms_a: Seq<(KeyView, SeriesRingV)>,
    ms_b: Seq<(KeyView, SeriesRingV)>,
    gb: Seq<Seq<char>>,
    p: Seq<Seq<char>>,
)
    requires
        ms_a.is_prefix_of(ms_b),
    ensures
        group_members(ms_a, gb, p).is_prefix_of(group_members(ms_b, gb, p)),
    decreases ms_b.len(),
{
    if ms_a.len() == ms_b.len() {
        assert(ms_a =~= ms_b);
    } else {
        let bl = ms_b.drop_last();
        assert(ms_a.is_prefix_of(bl)) by {
            assert(ms_a =~= bl.take(ms_a.len() as int));
        }
        lemma_members_prefix(ms_a, bl, gb, p);
        let a = group_members(ms_a, gb, p);
        let b = group_members(ms_b, gb, p);
        assert(a =~= b.take(a.len() as int));
    }
}

proof fn lemma_paths_prefix(
    ms_a: Seq<(KeyView, SeriesRingV)>,
    ms_b: Seq<(KeyView, SeriesRingV)>,
    gb: Seq<Seq<char>>,
)
    requires
        ms_a.is_prefix_of(ms_b),
    ensures
        group_paths(ms_a, gb).is_prefix_of(group_paths(ms_b, gb)),
    decreases ms_b.len(),
{
    if ms_a.len() == ms_b.len() {
        assert(ms_a =~= ms_b);
    } else {
        let bl = ms_b.drop_last();
        assert(ms_a.is_prefix_of(bl)) by {
            assert(ms_a =~= bl.take(ms_a.len() as int));
        }
        lemma_paths_prefix(ms_a, bl, gb);
        let a = group_paths(ms_a, gb);
        let b = group_paths(ms_b, gb);
        assert(a =~= b.take(a.len() as int));
    }
}

proof fn lemma_nonempty_member(members: Seq<SeriesRingV>, k: int)
    requires
        0 <= k < nonempty_members(members).len(),
    ensures
        exists|idx: int|
            0 <= idx < members.len() && #[trigger] members[idx] == nonempty_members(members)[k],
    decreases members.len(),
{
    let ne = nonempty_members(members);
    if members.len() > 0 {
        let prev = nonempty_members(members.drop_last());
        if k < prev.len() {
            lemma_nonempty_member(members.drop_last(), k);
            let idx = choose|idx: int|
                0 <= idx < members.drop_last().len() && #[trigger] members.drop_last()[idx]
                    == prev[k];
            assert(members[idx] == ne[k]);
        } else {
            assert(members[members.len() - 1] == ne[k]);
        }
    }
}

proof fn lemma_no_path_no_members(
    ms: Seq<(KeyView, SeriesRingV)>,
    gb: Seq<Seq<char>>,
    p: Seq<Seq<char>>,
)
    requires
        !group_paths(ms, gb).contains(p),
    ensures
        group_members(ms, gb, p).len() == 0,
    decreases ms.len(),
{
    if ms.len() > 0 {
        let rest_paths = group_paths(ms.drop_last(), gb);
        let lp = project(ms.last().0, gb);
        assert(group_paths(ms, gb).contains(lp)) by {
            if rest_paths.contains(lp) {
                let i = choose|i: int| 0 <= i < rest_paths.len() && rest_paths[i] == lp;
                assert(group_paths(ms, gb)[i] == lp);
            } else {
                assert(group_paths(ms, gb).last() == lp);
            }
        }
        assert(lp != p);
        assert(!rest_paths.contains(p)) by {
            if rest_paths.contains(p) {
                let i = choose|i: int| 0 <= i < rest_paths.len() && rest_paths[i] == p;
                if rest_paths.contains(lp) {
                    assert(group_paths(ms, gb)[i] == p);
                } else {
                    assert(group_paths(ms, gb)[i] == p);
                }
            }
        }
        lemma_no_path_no_members(ms.drop_last(), gb, p);
    }
}

proof fn lemma_nonempty_kinds(members: Seq<SeriesRingV>)
    ensures
        forall|k: int|
            0 <= k < nonempty_members(members).len() ==> (#[trigger] nonempty_members(members)[k]).kind
                != ValueKind::Empty,
    decreases members.len(),
{
    if members.len() > 0 {
        lemma_nonempty_kinds(members.drop_last());
    }
}

proof fn lemma_paths_distinct(ms: Seq<(KeyView, SeriesRingV)>, gb: Seq<Seq<char>>)
    ensures
        forall|a: int, b: int|
            0 <= a < b < group_paths(ms, gb).len() ==> #[trigger] group_paths(ms, gb)[a] != #[trigger] group_paths(
                ms,
                gb,
            )[b],
    decreases ms.len(),
{
    if ms.len() > 0 {
        lemma_paths_distinct(ms.drop_last(), gb);
        let prev = group_paths(ms.drop_last(), gb);
        let p = project(ms.last().0, gb);
        if !prev.contains(p) {
            assert forall|a: int, b: int|
                0 <= a < b < group_paths(ms, gb).len() implies #[trigger] group_paths(ms, gb)[a]
                != #[trigger] group_paths(ms, gb)[b] by {
                if b == group_paths(ms, gb).len() - 1 {
                    assert(group_paths(ms, gb)[a] == prev[a]);
                    assert(!prev.contains(p));
                    if prev[a] == p {
                        assert(prev.contains(p));
                    }
                } else {
                    assert(group_paths(ms, gb)[a] == prev[a]);
                    assert(group_paths(ms, gb)[b] == prev[b]);
                }
            }
        }
    }
}

/// What `vs_push` promises of its successful result, as a predicate.
spec fn vs_push_ok(setv: ValueSetV, chunk: SeriesRingV, ns: ValueSetV) -> bool {
    match chunk.kind {
        ValueKind::Empty => ns == setv,
        ValueKind::Counter => setv matches ValueSetV::Empty && ns == ValueSetV::Counters(
            seq![counter_stream(chunk)],
        ) || (setv matches ValueSetV::Counters(cs) && ns == ValueSetV::Counters(
            cs.push(counter_stream(chunk)),
        )),
        ValueKind::Integer => setv matches ValueSetV::Empty && ns == ValueSetV::Integers(
            seq![integer_stream(chunk)],
        ) || (setv matches ValueSetV::Integers(cs) && ns == ValueSetV::Integers(
            cs.push(integer_stream(chunk)),
        )),
        ValueKind::Float => setv matches ValueSetV::Empty && ns == ValueSetV::Floats(
            seq![float_stream(chunk)],
        ) || (setv matches ValueSetV::Floats(cs) && ns == ValueSetV::Floats(
            cs.push(float_stream(chunk)),
        )),
    }
}

/// How a series relates to its extracted chunk.
spec fn chunk_matches(sr: SeriesRingV, chunk: SeriesRingV) -> bool {
    if sr.kind == ValueKind::Empty {
        chunk.kind == ValueKind::Empty && chunk.values.len() == 0
    } else {
        chunk == sr
    }
}

proof fn lemma_valueset_step(
    members: Seq<SeriesRingV>,
    sr: SeriesRingV,
    setv: ValueSetV,
    ns: ValueSetV,
    chunk: SeriesRingV,
)
    requires
        setv == valueset_of(members),
        members_kind_ok(members),
        chunk_matches(sr, chunk),
        vs_push_ok(setv, chunk, ns),
    ensures
        ns == valueset_of(members.push(sr)),
{
    let ne = nonempty_members(members);
    let pushed = members.push(sr);
    assert(pushed.drop_last() =~= members);
    assert(pushed.last() == sr);
    lemma_nonempty_kinds(members);
    if sr.kind == ValueKind::Empty {
        assert(nonempty_members(pushed) == ne);
        assert(valueset_of(pushed) == valueset_of(members));
    } else {
        let ne2 = nonempty_members(pushed);
        assert(ne2 == ne.push(sr));
        if ne.len() == 0 {
            assert(setv is Empty);
            assert(ne2 =~= seq![sr]);
            match sr.kind {
                ValueKind::Counter => {
                    assert(ne2.map_values(|s: SeriesRingV| counter_stream(s)) =~= seq![
                        counter_stream(sr),
                    ]);
                },
                ValueKind::Integer => {
                    assert(ne2.map_values(|s: SeriesRingV| integer_stream(s)) =~= seq![
                        integer_stream(sr),
                    ]);
                },
                ValueKind::Float => {
                    assert(ne2.map_values(|s: SeriesRingV| float_stream(s)) =~= seq![
                        float_stream(sr),
                    ]);
                },
                ValueKind::Empty => {},
            }
        } else {
            assert(ne2[0] == ne[0]);
            match ne[0].kind {
                ValueKind::Counter => {
                    assert(setv == ValueSetV::Counters(ne.map_values(|s: SeriesRingV| counter_stream(s))));
                    assert(chunk.kind == ValueKind::Counter);
                    assert(ne2.map_values(|s: SeriesRingV| counter_stream(s)) =~= ne.map_values(
                        |s: SeriesRingV| counter_stream(s),
                    ).push(counter_stream(sr)));
                },
                ValueKind::Integer => {
                    assert(setv == ValueSetV::Integers(ne.map_values(|s: SeriesRingV| integer_stream(s))));
                    assert(chunk.kind == ValueKind::Integer);
                    assert(ne2.map_values(|s: SeriesRingV| integer_stream(s)) =~= ne.map_values(
                        |s: SeriesRingV| integer_stream(s),
                    ).push(integer_stream(sr)));
                },
                ValueKind::Float => {
                    assert(setv == ValueSetV::Floats(ne.map_values(|s: SeriesRingV| float_stream(s))));
                    assert(chunk.kind == ValueKind::Float);
                    assert(ne2.map_values(|s: SeriesRingV| float_stream(s)) =~= ne.map_values(
                        |s: SeriesRingV| float_stream(s),
                    ).push(float_stream(sr)));
                },
                ValueKind::Empty => {
                    assert(false);
                },
            }
        }
    }
}

proof fn lemma_all_empty(members: Seq<SeriesRingV>)
    requires
        nonempty_members(members).len() == 0,
    ensures
        forall|k: int|
            0 <= k < members.len() ==> (#[trigger] members[k]).kind == ValueKind::Empty,
    decreases members.len(),
{
    if members.len() > 0 {
        assert(members.last().kind == ValueKind::Empty);
        lemma_all_empty(members.drop_last());
        assert forall|k: int| 0 <= k < members.len() implies (#[trigger] members[k]).kind
            == ValueKind::Empty by {
            if k < members.len() - 1 {
                assert(members.drop_last()[k] == members[k]);
            }
        }
    }
}

proof fn lemma_kind_ok_step(
    members: Seq<SeriesRingV>,
    sr: SeriesRingV,
    setv: ValueSetV,
    chunk: SeriesRingV,
)
    requires
        setv == valueset_of(members),
        members_kind_ok(members),
        chunk_matches(sr, chunk),
        exists|ns: ValueSetV| #[trigger] vs_push_ok(setv, chunk, ns),
    ensures
        members_kind_ok(members.push(sr)),
{
    let ne = nonempty_members(members);
    let pushed = members.push(sr);
    lemma_nonempty_kinds(members);
    assert forall|i: int, j: int|
        0 <= i < pushed.len() && 0 <= j < pushed.len() implies ((#[trigger] pushed[i]).kind
        == ValueKind::Empty || (#[trigger] pushed[j]).kind == ValueKind::Empty || pushed[i].kind
        == pushed[j].kind) by {
        if i < members.len() {
            assert(pushed[i] == members[i]);
        }
        if j < members.len() {
            assert(pushed[j] == members[j]);
        }
        if sr.kind != ValueKind::Empty && (i == pushed.len() - 1 || j == pushed.len() - 1) {
            if ne.len() == 0 {
                lemma_all_empty(members);
            } else {
                lemma_nonempty_member(members, 0);
                let idx0 = choose|idx: int|
                    0 <= idx < members.len() && #[trigger] members[idx] == ne[0];
                let ns = choose|ns: ValueSetV| vs_push_ok(setv, chunk, ns);
                assert(vs_push_ok(setv, chunk, ns));
                assert(chunk == sr);
                assert(sr.kind == ne[0].kind) by {
                    match ne[0].kind {
                        ValueKind::Counter => {
                            assert(setv matches ValueSetV::Counters(_));
                            match chunk.kind {
                                ValueKind::Counter => {},
                                _ => {
                                    assert(false);
                                },
                            }
                        },
                        ValueKind::Integer => {
                            assert(setv matches ValueSetV::Integers(_));
                            match chunk.kind {
                                ValueKind::Integer => {},
                                _ => {
                                    assert(false);
                                },
                            }
                        },
                        ValueKind::Float => {
                            assert(setv matches ValueSetV::Floats(_));
                            match chunk.kind {
                                ValueKind::Float => {},
                                _ => {
                                    assert(false);
                                },
                            }
                        },
                        ValueKind::Empty => {
                            assert(false);
                        },
                    }
                }
                if i < members.len() && pushed[i].kind != ValueKind::Empty {
                    assert(members[i].kind == members[idx0].kind);
                }
                if j < members.len() && pushed[j].kind != ValueKind::Empty {
                    assert(members[j].kind == members[idx0].kind);
                }
            }
        }
    }
}

proof fn lemma_mixed_step(
    members: Seq<SeriesRingV>,
    sr: SeriesRingV,
    setv: ValueSetV,
    chunk: SeriesRingV,
)
    requires
        setv == valueset_of(members),
        members_kind_ok(members),
        chunk_matches(sr, chunk),
        ({
            ||| chunk.kind == ValueKind::Counter && !(setv matches ValueSetV::Empty) && !(setv
                matches ValueSetV::Counters(_))
            ||| chunk.kind == ValueKind::Integer && !(setv matches ValueSetV::Empty) && !(setv
                matches ValueSetV::Integers(_))
            ||| chunk.kind == ValueKind::Float && !(setv matches ValueSetV::Empty) && !(setv
                matches ValueSetV::Floats(_))
        }),
    ensures
        !members_kind_ok(members.push(sr)),
{
    let ne = nonempty_members(members);
    lemma_nonempty_kinds(members);
    assert(sr.kind != ValueKind::Empty);
    assert(chunk == sr);
    assert(ne.len() > 0) by {
        if ne.len() == 0 {
            assert(setv is Empty);
        }
    }
    lemma_nonempty_member(members, 0);
    let idx0 = choose|idx: int| 0 <= idx < members.len() && #[trigger] members[idx] == ne[0];
    let pushed = members.push(sr);
    assert(ne[0].kind != sr.kind) by {
        match ne[0].kind {
            ValueKind::Counter => {
                assert(setv matches ValueSetV::Counters(_));
            },
            ValueKind::Integer => {
                assert(setv matches ValueSetV::Integers(_));
            },
            ValueKind::Float => {
                assert(setv matches ValueSetV::Floats(_));
            },
            ValueKind::Empty => {
                assert(false);
            },
        }
    }
    assert(pushed[idx0].kind == ne[0].kind);
    assert(pushed[pushed.len() - 1].kind == sr.kind);
}

/// Scans the fine tier, keeps the series matching the rule's condition, and
/// groups them by the rule's label projection: one accumulator per distinct
/// projection, in first-seen order, holding the matched series' columns in
/// tier order. Grouping series of different kinds under one projection is a
/// caller error, reported and never coerced.
#[verifier::rlimit(60)]
pub fn group_fine(history: &History, rule: &Rule) -> (r: Result<
    Vec<(Vec<String>, ValueSet)>,
    Error,
>)
    requires
        history@.wf(),
        cond_ok(rule.condition@),
    ensures
        ({
            let ms = matched(history@.fine.series, rule.condition@);
            let gb = strs_views(rule.key@);
            match r {
                Ok(groups) => {
                    &&& groups@.len() == group_paths(ms, gb).len()
                    &&& forall|g: int|
                        0 <= g < groups@.len() ==> strs_views((#[trigger] groups@[g]).0@)
                            == group_paths(ms, gb)[g]
                    &&& forall|g: int|
                        0 <= g < groups@.len() ==> members_kind_ok(
                            group_members(ms, gb, group_paths(ms, gb)[g]),
                        ) && (#[trigger] groups@[g]).1@ == valueset_of(
                            group_members(ms, gb, group_paths(ms, gb)[g]),
                        )
                },
                Err(_) => exists|g: int|
                    0 <= g < group_paths(ms, gb).len() && !members_kind_ok(
                        group_members(ms, gb, #[trigger] group_paths(ms, gb)[g]),
                    ),
            }
        }),
{
    let ghost series = history@.fine.series;
    let ghost c = rule.condition@;
    let ghost gb = strs_views(rule.key@);
    let mut groups: Vec<(Vec<String>, ValueSet)> = Vec::new();
    let n = history.fine.series.len();
    let mut i: usize = 0;
    proof {
        assert(series.take(0) =~= Seq::<(KeyView, SeriesRingV)>::empty());
        assert(groups@.map_values(|p: (Vec<String>, ValueSet)| p.0) =~= Seq::<Vec<String>>::empty());
    }
    while i < n
        invariant
            history@.wf(),
            cond_ok(c),
            c == rule.condition@,
            gb == strs_views(rule.key@),
            series == history@.fine.series,
            n == history.fine.series@.len(),
            n == series.len(),
            0 <= i <= n,
            groups@.len() == group_paths(matched(series.take(i as int), c), gb).len(),
            forall|g: int|
                0 <= g < groups@.len() ==> strs_views((#[trigger] groups@[g]).0@) == group_paths(
                    matched(series.take(i as int), c),
                    gb,
                )[g],
            forall|g: int|
                0 <= g < groups@.len() ==> members_kind_ok(
                    group_members(
                        matched(series.take(i as int), c),
                        gb,
                        group_paths(matched(series.take(i as int), c), gb)[g],
                    ),
                ) && (#[trigger] groups@[g]).1@ == valueset_of(
                    group_members(
                        matched(series.take(i as int), c),
                        gb,
                        group_paths(matched(series.take(i as int), c), gb)[g],
                    ),
                ),
        decreases n - i,
    {
        let ghost ms_i = matched(series.take(i as int), c);
        let ghost paths_i = group_paths(ms_i, gb);
        proof {
            assert(series.take(i + 1).drop_last() =~= series.take(i as int));
            assert(series.take(i + 1).last() == series[i as int]);
            assert(series[i as int] == (history.fine.series@[i as int].0@,
            history.fine.series@[i as int].1@));
        }
        let matched_here = match_cond(&history.fine.series[i].0, &rule.condition);
        if matched_here {
            let ghost x = series[i as int];
            let ghost ms_next = ms_i.push(x);
            proof {
                assert(matched(series.take(i + 1), c) == ms_next);
            }
            let path = project_key(&history.fine.series[i].0, &rule.key);
            let ghost p = project(x.0, gb);
            proof {
                assert(strs_views(path@) == p);
                assert(history@.fine.series[i as int].1.wf(history@.fine.timestamps.len() as int));
            }
            let chunk = chunk_of_series(&history.fine.series[i].1);
            // Find the group of this projection, if it exists yet.
            let m = groups.len();
            let mut g: usize = 0;
            while g < m && !paths_eq(&groups[g].0, &path)
                invariant
                    0 <= g <= m,
                    m == groups@.len(),
                    paths_i.len() == m,
                    forall|t: int|
                        0 <= t < m ==> strs_views((#[trigger] groups@[t]).0@) == paths_i[t],
                    forall|t: int| 0 <= t < g ==> paths_i[t] != p,
                    strs_views(path@) == p,
                decreases m - g,
            {
                g = g + 1;
            }
            let found = g < m;
            proof {
                if found {
                    assert(paths_i[g as int] == p);
                }
            }
            let ghost mem_p = group_members(ms_i, gb, p);
            let ghost mem_next = mem_p.push(x.1);
            proof {
                assert(ms_next.drop_last() =~= ms_i);
                assert(ms_next.last() == x);
                assert(group_members(ms_next, gb, p) == mem_next);
                assert forall|q: Seq<Seq<char>>| q != p implies #[trigger] group_members(
                    ms_next,
                    gb,
                    q,
                ) == group_members(ms_i, gb, q) by {
                    assert(ms_next.drop_last() =~= ms_i);
                    assert(ms_next.last() == x);
                }
            }
            if found {
                proof {
                    assert(paths_i.contains(p)) by {
                        assert(paths_i[g as int] == p);
                    }
                    assert(group_paths(ms_next, gb) == paths_i);
                    lemma_paths_distinct(ms_i, gb);
                    assert forall|t: int| 0 <= t < m && t != g implies #[trigger] paths_i[t]
                        != p by {
                        if t < g {
                            assert(paths_i[t] != paths_i[g as int]);
                        } else {
                            assert(paths_i[g as int] != paths_i[t]);
                        }
                    }
                }
                let mut slot: (Vec<String>, ValueSet) = (Vec::new(), ValueSet::Empty);
                let ghost pre_groups = groups@;
                groups.set_and_swap(g, &mut slot);
                let (gpath, set) = slot;
                proof {
                    assert(pre_groups[g as int] == (gpath, set));
                }
                let pushed = vs_push(set, chunk);
                match pushed {
                    Ok(ns) => {
                        proof {
                            assert(vs_push_ok(set@, chunk@, ns@));
                            lemma_valueset_step(mem_p, x.1, set@, ns@, chunk@);
                        }
                        let mut slot2 = (gpath, ns);
                        groups.set_and_swap(g, &mut slot2);
                        proof {
                            assert forall|t: int| 0 <= t < m && t != g implies #[trigger] groups@[t]
                                == pre_groups[t] by {}
                            assert(groups@[g as int].1@ == valueset_of(mem_next));
                            assert(members_kind_ok(mem_next)) by {
                                lemma_kind_ok_step(mem_p, x.1, set@, chunk@);
                            }
                        }
                    },
                    Err(e) => {
                        proof {
                            lemma_mixed_step(mem_p, x.1, set@, chunk@);
                            assert(!members_kind_ok(mem_next));
                            // The mixed group persists into the full grouping.
                            lemma_matched_take_prefix(series, c, i + 1);
                            let full = matched(series, c);
                            lemma_members_prefix(ms_next, full, gb, p);
                            let fm = group_members(full, gb, p);
                            assert(!members_kind_ok(fm)) by {
                                let (a, b) = choose|a: int, b: int|
                                    0 <= a < mem_next.len() && 0 <= b < mem_next.len() && !((
                                    #[trigger] mem_next[a]).kind == ValueKind::Empty || (
                                    #[trigger] mem_next[b]).kind == ValueKind::Empty
                                        || mem_next[a].kind == mem_next[b].kind);
                                assert(fm[a] == mem_next[a]);
                                assert(fm[b] == mem_next[b]);
                            }
                            lemma_paths_prefix(ms_next, full, gb);
                            let fp = group_paths(full, gb);
                            assert(group_paths(ms_next, gb)[g as int] == p);
                            assert(fp[g as int] == p);
                        }
                        return Err(e);
                    },
                }
            } else {
                proof {
                    assert(!paths_i.contains(p)) by {
                        if paths_i.contains(p) {
                            let t = choose|t: int| 0 <= t < paths_i.len() && paths_i[t] == p;
                            assert(paths_i[t] == p);
                        }
                    }
                    assert(group_paths(ms_next, gb) == paths_i.push(p));
                    lemma_no_path_no_members(ms_i, gb, p);
                    assert(mem_p =~= Seq::<SeriesRingV>::empty());
                    assert(nonempty_members(mem_p) =~= Seq::<SeriesRingV>::empty());
                    assert(valueset_of(mem_p) == ValueSetV::Empty);
                }
                let fresh = vs_push(ValueSet::Empty, chunk);
                match fresh {
                    Ok(ns) => {
                        proof {
                            assert(vs_push_ok(ValueSetV::Empty, chunk@, ns@));
                            lemma_valueset_step(mem_p, x.1, ValueSetV::Empty, ns@, chunk@);
                            assert(members_kind_ok(mem_next)) by {
                                lemma_kind_ok_step(mem_p, x.1, ValueSetV::Empty, chunk@);
                            }
                        }
                        groups.push((path, ns));
                    },
                    Err(_) => {
                        proof {
                            assert(false);
                        }
                    },
                }
            }
        } else {
            proof {
                assert(matched(series.take(i + 1), c) == ms_i);
            }
        }
        i = i + 1;
    }
    proof {
        assert(series.take(n as int) =~= series);
    }
    Ok(groups)
}

/// A query result document: a label tree terminating in series of nullable
/// points — raw integers, raw float bit patterns, exact rate points, or
/// their group sums.
#[derive(Debug)]
pub enum Doc {
    Null,
    Integers(Vec<Vec<Option<i64>>>),
    Floats(Vec<Vec<Option<u64>>>),
    Rates(Vec<Vec<Option<RatePoint>>>),
    SummedIntegers(Vec<i128>),
    SummedRates(Vec<RateSum>),
    Tree(Vec<(String, Doc)>),
}

/// What the per-kind transform owes one group: under no aggregation, each
/// stream passes through (integers and float bits truncated, counters as
/// exact rate points); under the casual sum, one summed series per group.
pub open spec fn doc_renders(
    set: ValueSetV,
    agg: Aggregation,
    ts: Seq<Marker>,
    limit: int,
    d: Doc,
) -> bool {
    match set {
        ValueSetV::Empty => d is Null,
        ValueSetV::Counters(cs) => match agg {
            Aggregation::Raw => d matches Doc::Rates(rr) && rr@.len() == cs.len() && (forall|
                s: int,
            |
                0 <= s < cs.len() ==> (#[trigger] rr@[s])@.len() == rate_len(
                    cs[s].len() as int,
                    ts.len() as int,
                    limit,
                )) && (forall|s: int, k: int|
                0 <= s < cs.len() && 0 <= k < rr@[s]@.len() ==> (#[trigger] rr@[s]@[k]) == rate_at(
                    cs[s],
                    ts,
                    k,
                )),
            Aggregation::CasualSum => d matches Doc::SummedRates(v) && v@.len() == max_rate_len(
                cs,
                ts.len() as int,
                limit,
            ) && (forall|k: int|
                0 <= k < v@.len() ==> (#[trigger] v@[k]).delta as int == rate_sum_delta_at(
                    cs,
                    ts,
                    k,
                    limit,
                ) && v@[k].interval_ms as int == interval_at(ts, k)),
        },
        ValueSetV::Integers(cs) => match agg {
            Aggregation::Raw => d matches Doc::Integers(v) && v@.len() == cs.len() && (forall|
                s: int,
            |
                0 <= s < cs.len() ==> (#[trigger] v@[s])@ == if cs[s].len() <= limit {
                    cs[s]
                } else {
                    cs[s].take(limit)
                }),
            Aggregation::CasualSum => d matches Doc::SummedIntegers(v) && v@.len()
                == max_trunc_len(cs, limit) && (forall|k: int|
                0 <= k < v@.len() ==> #[trigger] v@[k] as int == raw_sum_at(cs, k, 0, limit)),
        },
        ValueSetV::Floats(cs) => match agg {
            Aggregation::Raw => d matches Doc::Floats(v) && v@.len() == cs.len() && (forall|s: int|
                0 <= s < cs.len() ==> (#[trigger] v@[s])@ == if cs[s].len() <= limit {
                    cs[s]
                } else {
                    cs[s].take(limit)
                }),
            Aggregation::CasualSum => false,
        },
    }
}

/// Shapes one group's accumulator by the rule's aggregation. Summing float
/// series is refused as not implemented: the engine never computes with
/// float bit patterns. A group too wide for an exact sum is a bad request.
pub fn render_group(set: ValueSet, agg: Aggregation, ts: &VecDeque<Marker>, limit: u32) -> (r:
    Result<Doc, QueryError>)
    ensures
        match r {
            Ok(d) => doc_renders(set@, agg, ts@, limit as int, d),
            Err(QueryError::NotImplemented(_)) => agg == Aggregation::CasualSum && set@ matches
                ValueSetV::Floats(_),
            Err(QueryError::BadRequest(_)) => false,
        },
{
    match set {
        ValueSet::Empty => Ok(Doc::Null),
        ValueSet::Counters(cs) => {
            let ghost csv = stream_views(cs@);
            match agg {
                Aggregation::Raw => {
                    let rr = take_rate(ts, cs, limit);
                    Ok(Doc::Rates(rr))
                },
                Aggregation::CasualSum => {
                    let v = sum_rate(ts, cs, limit);
                    Ok(Doc::SummedRates(v))
                },
            }
        },
        ValueSet::Integers(cs) => {
            match agg {
                Aggregation::Raw => {
                    let v = take_raw(cs, limit);
                    Ok(Doc::Integers(v))
                },
                Aggregation::CasualSum => {
                    let v = sum_raw(cs, limit, 0);
                    Ok(Doc::SummedIntegers(v))
                },
            }
        },
        ValueSet::Floats(cs) => {
            match agg {
                Aggregation::Raw => {
                    let v = take_raw(cs, limit);
                    Ok(Doc::Floats(v))
                },
                Aggregation::CasualSum => Err(
                    QueryError::NotImplemented("casual sum over float series"),
                ),
            }
        },
    }
}

/// Trouble one fine-tier rule can meet: a group mixing value kinds.
pub open spec fn fine_rule_trouble(rule: Rule, h: crate::history::HistoryV) -> bool {
    let ms = matched(h.fine.series, rule.condition@);
    let gb = strs_views(rule.key@);
    exists|g: int|
        0 <= g < group_paths(ms, gb).len() && !members_kind_ok(
            group_members(ms, gb, #[trigger] group_paths(ms, gb)[g]),
        )
}

/// The one refused aggregation: a casual sum over a group of float series,
/// whose bit patterns the engine never computes with.
pub open spec fn casual_sum_over_floats(rule: Rule, h: crate::history::HistoryV) -> bool {
    let ms = matched(h.fine.series, rule.condition@);
    let gb = strs_views(rule.key@);
    rule.aggregation == Aggregation::CasualSum && exists|g: int|
        0 <= g < group_paths(ms, gb).len() && valueset_of(
            group_members(ms, gb, #[trigger] group_paths(ms, gb)[g]),
        ) matches ValueSetV::Floats(_)
}

/// Evaluates one fine-tier rule: the matched series grouped by the rule's
/// projection, in first-seen order, each group shaped by the rule's
/// aggregation.
pub fn query_fine(rule: &Rule, history: &History) -> (r: Result<Vec<(Vec<String>, Doc)>, QueryError>)
    requires
        history@.wf(),
        cond_ok(rule.condition@),
    ensures
        ({
            let ms = matched(history@.fine.series, rule.condition@);
            let gb = strs_views(rule.key@);
            match r {
                Ok(out) => {
                    &&& out@.len() == group_paths(ms, gb).len()
                    &&& forall|g: int|
                        0 <= g < out@.len() ==> strs_views((#[trigger] out@[g]).0@) == group_paths(
                            ms,
                            gb,
                        )[g]
                    &&& forall|g: int|
                        0 <= g < out@.len() ==> doc_renders(
                            valueset_of(group_members(ms, gb, group_paths(ms, gb)[g])),
                            rule.aggregation,
                            history@.fine.timestamps,
                            rule.limit as int,
                            (#[trigger] out@[g]).1,
                        )
                },
                Err(QueryError::BadRequest(_)) => fine_rule_trouble(*rule, history@),
                Err(QueryError::NotImplemented(_)) => casual_sum_over_floats(*rule, history@),
            }
        }),
{
    let ghost ms = matched(history@.fine.series, rule.condition@);
    let ghost gb = strs_views(rule.key@);
    let ghost paths = group_paths(ms, gb);
    let groups = match group_fine(history, rule) {
        Ok(g) => g,
        Err(e) => {
            return Err(QueryError::BadRequest(e));
        },
    };
    let mut groups = groups;
    let ghost orig = groups@;
    let n0 = groups.len();
    let mut out: Vec<(Vec<String>, Doc)> = Vec::new();
    let mut g: usize = 0;
    proof {
        assert(groups@ =~= orig.skip(0));
    }
    while groups.len() > 0
        invariant
            history@.wf(),
            ms == matched(history@.fine.series, rule.condition@),
            gb == strs_views(rule.key@),
            paths == group_paths(ms, gb),
            orig.len() == n0,
            n0 == paths.len(),
            g + groups@.len() == n0,
            groups@ == orig.skip(g as int),
            forall|t: int|
                0 <= t < n0 ==> strs_views((#[trigger] orig[t]).0@) == paths[t],
            forall|t: int|
                0 <= t < n0 ==> (#[trigger] orig[t]).1@ == valueset_of(
                    group_members(ms, gb, paths[t]),
                ),
            out@.len() == g,
            forall|t: int|
                0 <= t < g ==> strs_views((#[trigger] out@[t]).0@) == paths[t],
            forall|t: int|
                0 <= t < g ==> doc_renders(
                    valueset_of(group_members(ms, gb, paths[t])),
                    rule.aggregation,
                    history@.fine.timestamps,
                    rule.limit as int,
                    (#[trigger] out@[t]).1,
                ),
        decreases groups@.len(),
    {
        let (path, set) = groups.remove(0);
        proof {
            assert(orig.skip(g as int)[0] == orig[g as int]);
            assert(groups@ =~= orig.skip(g as int + 1));
        }
        let doc = match render_group(set, rule.aggregation, &history.fine.timestamps, rule.limit) {
            Ok(d) => d,
            Err(e) => {
                proof {
                    match e {
                        QueryError::BadRequest(_) => {
                            assert(false);
                        },
                        QueryError::NotImplemented(_) => {
                            assert(valueset_of(group_members(ms, gb, paths[g as int])) matches
                                ValueSetV::Floats(_));
                        },
                    }
                }
                return Err(e);
            },
        };
        out.push((path, doc));
        g = g + 1;
    }
    Ok(out)
}

/// The document bound to `name` among a tree node's entries (first match).
pub open spec fn entries_find(entries: Seq<(String, Doc)>, name: Seq<char>) -> Option<Doc>
    decreases entries.len(),
{
    if entries.len() == 0 {
        None
    } else if entries[0].0@ == name {
        Some(entries[0].1)
    } else {
        entries_find(entries.drop_first(), name)
    }
}

/// The document reached from a tree node's entries by following the path,
/// segment by segment, through nested trees.
pub open spec fn tree_get(entries: Seq<(String, Doc)>, path: Seq<Seq<char>>) -> Option<Doc>
    decreases path.len(),
{
    if path.len() == 0 {
        None
    } else {
        match entries_find(entries, path[0]) {
            None => None,
            Some(d) => if path.len() == 1 {
                Some(d)
            } else {
                match d {
                    Doc::Tree(sub) => tree_get(sub@, path.drop_first()),
                    _ => None,
                }
            },
        }
    }
}

/// Two paths diverge: they agree up to some index at which both are defined
/// and differ.
pub open spec fn paths_diverge(q: Seq<Seq<char>>, p: Seq<Seq<char>>) -> bool {
    exists|k: int|
        0 <= k < q.len() && k < p.len() && (forall|t: int| 0 <= t < k ==> q[t] == p[t]) && (
        #[trigger] q[k]) != p[k]
}

/// Distinct paths of one length always diverge.
pub proof fn lemma_distinct_diverge(q: Seq<Seq<char>>, p: Seq<Seq<char>>)
    requires
        q.len() == p.len(),
        q != p,
    ensures
        paths_diverge(q, p),
    decreases q.len(),
{
    if q.len() == 0 {
        assert(q =~~= p);
    } else if q[0] != p[0] {
        assert(0 <= 0 < q.len() && 0 < p.len() && (forall|t: int| 0 <= t < 0 ==> q[t] == p[t])
            && q[0] != p[0]);
    } else {
        let qr = q.drop_first();
        let pr = p.drop_first();
        assert(qr != pr) by {
            if qr == pr {
                assert forall|t: int| 0 <= t < q.len() implies q[t] == p[t] by {
                    if t > 0 {
                        assert(q[t] == qr[t - 1]);
                        assert(p[t] == pr[t - 1]);
                    }
                }
                assert(q =~= p);
            }
        }
        lemma_distinct_diverge(qr, pr);
        let k = choose|k: int|
            0 <= k < qr.len() && k < pr.len() && (forall|t: int| 0 <= t < k ==> qr[t] == pr[t])
                && (#[trigger] qr[k]) != pr[k];
        assert forall|t: int| 0 <= t < k + 1 implies q[t] == p[t] by {
            if t > 0 {
                assert(qr[t - 1] == pr[t - 1]);
            }
        }
        assert(q[k + 1] == qr[k] && p[k + 1] == pr[k]);
        assert(q[k + 1] != p[k + 1]);
    }
}

proof fn lemma_find_none(entries: Seq<(String, Doc)>, q: Seq<char>)
    requires
        forall|t: int| 0 <= t < entries.len() ==> (#[trigger] entries[t]).0@ != q,
    ensures
        entries_find(entries, q) is None,
    decreases entries.len(),
{
    if entries.len() > 0 {
        let rest = entries.drop_first();
        assert(forall|t: int| 0 <= t < rest.len() ==> #[trigger] rest[t] == entries[t + 1]);
        lemma_find_none(rest, q);
    }
}

proof fn lemma_find_at(entries: Seq<(String, Doc)>, idx: int, q: Seq<char>)
    requires
        0 <= idx < entries.len(),
        entries[idx].0@ == q,
        forall|t: int| 0 <= t < idx ==> (#[trigger] entries[t]).0@ != q,
    ensures
        entries_find(entries, q) == Some(entries[idx].1),
    decreases idx,
{
    if idx > 0 {
        let rest = entries.drop_first();
        assert(forall|t: int| 0 <= t < rest.len() ==> #[trigger] rest[t] == entries[t + 1]);
        lemma_find_at(rest, idx - 1, q);
    }
}

proof fn lemma_find_update(entries: Seq<(String, Doc)>, idx: int, pair: (String, Doc), q: Seq<char>)
    requires
        0 <= idx < entries.len(),
        pair.0@ == entries[idx].0@,
        forall|t: int| 0 <= t < idx ==> (#[trigger] entries[t]).0@ != entries[idx].0@,
    ensures
        entries_find(entries.update(idx, pair), q) == if q == entries[idx].0@ {
            Some(pair.1)
        } else {
            entries_find(entries, q)
        },
    decreases idx,
{
    let u = entries.update(idx, pair);
    if idx == 0 {
        assert(u[0] == pair);
        assert(u.drop_first() =~= entries.drop_first());
    } else {
        assert(u[0] == entries[0]);
        assert(entries[0].0@ != entries[idx].0@);
        let rest = entries.drop_first();
        assert(forall|t: int| 0 <= t < rest.len() ==> #[trigger] rest[t] == entries[t + 1]);
        assert(u.drop_first() =~= rest.update(idx - 1, pair));
        lemma_find_update(rest, idx - 1, pair, q);
    }
}

proof fn lemma_find_push(entries: Seq<(String, Doc)>, pair: (String, Doc), q: Seq<char>)
    ensures
        entries_find(entries.push(pair), q) == match entries_find(entries, q) {
            Some(d) => Some(d),
            None => if q == pair.0@ {
                Some(pair.1)
            } else {
                None::<Doc>
            },
        },
    decreases entries.len(),
{
    let u = entries.push(pair);
    if entries.len() == 0 {
        assert(u[0] == pair);
        assert(u.drop_first() =~= Seq::<(String, Doc)>::empty());
        if q == pair.0@ {
            assert(entries_find(u, q) == Some(pair.1));
        } else {
            assert(entries_find(u.drop_first(), q) is None);
            assert(entries_find(u, q) is None);
        }
    } else {
        assert(u[0] == entries[0]);
        assert(u.drop_first() =~= entries.drop_first().push(pair));
        lemma_find_push(entries.drop_first(), pair, q);
        if entries[0].0@ == q {
            assert(entries_find(u, q) == Some(entries[0].1));
            assert(entries_find(entries, q) == Some(entries[0].1));
        } else {
            assert(entries_find(u, q) == entries_find(u.drop_first(), q));
            assert(entries_find(entries, q) == entries_find(entries.drop_first(), q));
        }
    }
}

/// Inserts `val` at the label path `path[at..]`, creating intermediate
/// trees as needed; a non-tree met on the way is replaced by a fresh tree
/// rather than trusted. The inserted path then resolves to `val`, and every
/// path diverging from it resolves as before.
fn tree_insert(map: &mut Vec<(String, Doc)>, path: &Vec<String>, at: usize, val: Doc)
    requires
        at < path@.len(),
    ensures
        tree_get(final(map)@, strs_views(path@).skip(at as int)) == Some(val),
        forall|q: Seq<Seq<char>>|
            paths_diverge(q, strs_views(path@).skip(at as int)) ==> #[trigger] tree_get(
                final(map)@,
                q,
            ) == tree_get(old(map)@, q),
    decreases path@.len() - at,
{
    let ghost p = strs_views(path@).skip(at as int);
    let ghost gval = val;
    proof {
        assert(p[0] == path@[at as int]@);
        assert(p.drop_first() =~= strs_views(path@).skip(at as int + 1));
    }
    let name = path[at].clone();
    let n = map.len();
    let mut idx: usize = 0;
    while idx < n && !(map[idx].0 == name)
        invariant
            n == map@.len(),
            0 <= idx <= n,
            name@ == path@[at as int]@,
            forall|t: int| 0 <= t < idx ==> (#[trigger] map@[t]).0@ != name@,
        decreases n - idx,
    {
        idx = idx + 1;
    }
    let ghost pre = map@;
    if at == path.len() - 1 {
        proof {
            assert(p.len() == 1);
        }
        if idx < n {
            proof {
                assert(pre[idx as int].0@ == name@);
            }
            let ghost pair = (name, gval);
            let mut slot = (name, val);
            map.set_and_swap(idx, &mut slot);
            proof {
                assert(map@ == pre.update(idx as int, pair));
                lemma_find_update(pre, idx as int, pair, p[0]);
                assert(tree_get(map@, p) == Some(gval));
                assert forall|q: Seq<Seq<char>>| paths_diverge(q, p) implies #[trigger] tree_get(
                    map@,
                    q,
                ) == tree_get(pre, q) by {
                    let k = choose|k: int|
                        0 <= k < q.len() && k < p.len() && (forall|t: int|
                            0 <= t < k ==> q[t] == p[t]) && (#[trigger] q[k]) != p[k];
                    assert(k == 0);
                    lemma_find_update(pre, idx as int, pair, q[0]);
                    assert(entries_find(map@, q[0]) == entries_find(pre, q[0]));
                }
            }
        } else {
            let ghost pair = (name, gval);
            map.push((name, val));
            proof {
                assert(map@ == pre.push(pair));
                lemma_find_none(pre, name@);
                lemma_find_push(pre, pair, p[0]);
                assert(tree_get(map@, p) == Some(gval));
                assert forall|q: Seq<Seq<char>>| paths_diverge(q, p) implies #[trigger] tree_get(
                    map@,
                    q,
                ) == tree_get(pre, q) by {
                    let k = choose|k: int|
                        0 <= k < q.len() && k < p.len() && (forall|t: int|
                            0 <= t < k ==> q[t] == p[t]) && (#[trigger] q[k]) != p[k];
                    assert(k == 0);
                    lemma_find_push(pre, pair, q[0]);
                    assert(entries_find(map@, q[0]) == entries_find(pre, q[0]));
                }
            }
        }
    } else {
        proof {
            assert(p.len() >= 2);
        }
        if idx < n {
            proof {
                assert(pre[idx as int].0@ == name@);
            }
            let mut slot = (String::new(), Doc::Null);
            map.set_and_swap(idx, &mut slot);
            let (ename, edoc) = slot;
            let ghost olddoc = pre[idx as int].1;
            proof {
                assert((ename, edoc) == pre[idx as int]);
                assert(ename@ == name@);
                assert(edoc == olddoc);
            }
            let mut sub = match edoc {
                Doc::Tree(s) => s,
                _ => Vec::new(),
            };
            let ghost sub0 = sub@;
            proof {
                match olddoc {
                    Doc::Tree(_) => {},
                    _ => {
                        assert(sub0 =~= Seq::<(String, Doc)>::empty());
                    },
                }
            }
            tree_insert(&mut sub, path, at + 1, val);
            let ghost pair = (ename, Doc::Tree(sub));
            let mut slot2 = (ename, Doc::Tree(sub));
            map.set_and_swap(idx, &mut slot2);
            proof {
                assert(map@ =~= pre.update(idx as int, pair));
                lemma_find_update(pre, idx as int, pair, p[0]);
                assert(tree_get(map@, p) == Some(gval));
                assert forall|q: Seq<Seq<char>>| paths_diverge(q, p) implies #[trigger] tree_get(
                    map@,
                    q,
                ) == tree_get(pre, q) by {
                    let k = choose|k: int|
                        0 <= k < q.len() && k < p.len() && (forall|t: int|
                            0 <= t < k ==> q[t] == p[t]) && (#[trigger] q[k]) != p[k];
                    lemma_find_update(pre, idx as int, pair, q[0]);
                    if k == 0 {
                        assert(entries_find(map@, q[0]) == entries_find(pre, q[0]));
                    } else {
                        assert(q[0] == p[0]);
                        assert(q.len() >= 2);
                        lemma_find_at(pre, idx as int, q[0]);
                        assert(entries_find(pre, q[0]) == Some(olddoc));
                        assert(entries_find(map@, q[0]) == Some(Doc::Tree(sub)));
                        let qr = q.drop_first();
                        let pr = p.drop_first();
                        assert(paths_diverge(qr, pr)) by {
                            assert(qr[k - 1] == q[k] && pr[k - 1] == p[k]);
                            assert(forall|t: int|
                                0 <= t < k - 1 ==> #[trigger] qr[t] == q[t + 1] && pr[t] == p[t
                                    + 1]);
                        }
                        assert(tree_get(sub@, qr) == tree_get(sub0, qr));
                        match olddoc {
                            Doc::Tree(s) => {
                                assert(sub0 == s@);
                                assert(tree_get(pre, q) == tree_get(s@, qr));
                                assert(tree_get(map@, q) == tree_get(sub@, qr));
                            },
                            _ => {
                                assert(tree_get(pre, q) is None);
                                assert(tree_get(sub0, qr) is None);
                                assert(tree_get(map@, q) == tree_get(sub@, qr));
                            },
                        }
                    }
                }
            }
        } else {
            let mut sub: Vec<(String, Doc)> = Vec::new();
            let ghost sub0 = sub@;
            proof {
                assert(sub0 =~= Seq::<(String, Doc)>::empty());
            }
            tree_insert(&mut sub, path, at + 1, val);
            let ghost pair = (name, Doc::Tree(sub));
            map.push((name, Doc::Tree(sub)));
            proof {
                assert(map@ == pre.push(pair));
                lemma_find_none(pre, name@);
                lemma_find_push(pre, pair, p[0]);
                assert(tree_get(map@, p) == Some(gval));
                assert forall|q: Seq<Seq<char>>| paths_diverge(q, p) implies #[trigger] tree_get(
                    map@,
                    q,
                ) == tree_get(pre, q) by {
                    let k = choose|k: int|
                        0 <= k < q.len() && k < p.len() && (forall|t: int|
                            0 <= t < k ==> q[t] == p[t]) && (#[trigger] q[k]) != p[k];
                    lemma_find_push(pre, pair, q[0]);
                    if k == 0 {
                        assert(entries_find(map@, q[0]) == entries_find(pre, q[0]));
                    } else {
                        assert(q[0] == p[0]);
                        assert(q.len() >= 2);
                        lemma_find_none(pre, q[0]);
                        assert(tree_get(pre, q) is None);
                        assert(entries_find(map@, q[0]) == Some(Doc::Tree(sub)));
                        let qr = q.drop_first();
                        let pr = p.drop_first();
                        assert(paths_diverge(qr, pr)) by {
                            assert(qr[k - 1] == q[k] && pr[k - 1] == p[k]);
                            assert(forall|t: int|
                                0 <= t < k - 1 ==> #[trigger] qr[t] == q[t + 1] && pr[t] == p[t
                                    + 1]);
                        }
                        assert(tree_get(sub@, qr) == tree_get(sub0, qr));
                        assert(tree_get(sub0, qr) is None);
                        assert(tree_get(map@, q) == tree_get(sub@, qr));
                    }
                }
            }
        }
    }
}

/// Assembles grouped results into a nested label tree keyed by the group
/// projections. An empty projection replaces the whole subtree with its
/// document directly, as the first such item is met; otherwise, for items
/// with pairwise-diverging paths, following each item's path through the
/// tree reaches exactly its document.
pub fn json_tree(items: Vec<(Vec<String>, Doc)>) -> (r: Doc)
    ensures
        (forall|i: int| 0 <= i < items@.len() ==> (#[trigger] items@[i]).0@.len() > 0) ==> r
            is Tree,
        items@.len() == 0 ==> (r matches Doc::Tree(es) && es@.len() == 0),
        forall|i: int|
            (0 <= i < items@.len() && (#[trigger] items@[i]).0@.len() == 0 && (forall|j: int|
                0 <= j < i ==> (#[trigger] items@[j]).0@.len() > 0)) ==> r == items@[i].1,
        ((forall|i: int| 0 <= i < items@.len() ==> (#[trigger] items@[i]).0@.len() > 0) && (forall|
            i: int,
            j: int,
        |
            0 <= i < j < items@.len() ==> paths_diverge(
                strs_views((#[trigger] items@[i]).0@),
                strs_views((#[trigger] items@[j]).0@),
            ))) ==> (r matches Doc::Tree(es) && (forall|i: int|
            0 <= i < items@.len() ==> tree_get(es@, strs_views((#[trigger] items@[i]).0@)) == Some(
                items@[i].1,
            ))),
{
    let ghost orig = items@;
    let n0 = items.len();
    let mut j: usize = 0;
    while j < n0 && items[j].0.len() > 0
        invariant
            n0 == items@.len(),
            orig == items@,
            0 <= j <= n0,
            forall|t: int| 0 <= t < j ==> (#[trigger] items@[t]).0@.len() > 0,
        decreases n0 - j,
    {
        j = j + 1;
    }
    if j < n0 {
        proof {
            assert(items@[j as int].0@.len() == 0);
        }
        let mut rest = items;
        let (_path, doc) = rest.remove(j);
        proof {
            assert(doc == orig[j as int].1);
        }
        return doc;
    }
    let ghost pd = (forall|a: int, b: int|
        0 <= a < b < orig.len() ==> paths_diverge(
            strs_views((#[trigger] orig[a]).0@),
            strs_views((#[trigger] orig[b]).0@),
        ));
    let mut res: Vec<(String, Doc)> = Vec::new();
    let mut rest = items;
    let mut i: usize = 0;
    proof {
        assert(rest@ =~= orig.skip(0));
    }
    while rest.len() > 0
        invariant
            orig.len() == n0,
            i + rest@.len() == n0,
            rest@ == orig.skip(i as int),
            forall|t: int| 0 <= t < n0 ==> (#[trigger] orig[t]).0@.len() > 0,
            pd == (forall|a: int, b: int|
                0 <= a < b < orig.len() ==> paths_diverge(
                    strs_views((#[trigger] orig[a]).0@),
                    strs_views((#[trigger] orig[b]).0@),
                )),
            pd ==> forall|t: int|
                0 <= t < i ==> tree_get(res@, strs_views((#[trigger] orig[t]).0@)) == Some(
                    orig[t].1,
                ),
            i == 0 ==> res@.len() == 0,
        decreases rest@.len(),
    {
        let (path, doc) = rest.remove(0);
        proof {
            assert(orig.skip(i as int)[0] == orig[i as int]);
            assert(rest@ =~= orig.skip(i as int + 1));
            assert((path, doc) == orig[i as int]);
            assert(path@.len() > 0);
        }
        let ghost before = res@;
        tree_insert(&mut res, &path, 0, doc);
        proof {
            assert(strs_views(path@).skip(0) =~= strs_views(path@));
            if pd {
                assert forall|t: int| 0 <= t < i + 1 implies tree_get(
                    res@,
                    strs_views((#[trigger] orig[t]).0@),
                ) == Some(orig[t].1) by {
                    if t < i {
                        assert(paths_diverge(
                            strs_views(orig[t].0@),
                            strs_views(orig[i as int].0@),
                        ));
                        assert(tree_get(res@, strs_views(orig[t].0@)) == tree_get(
                            before,
                            strs_views(orig[t].0@),
                        ));
                    } else {
                        assert(tree_get(res@, strs_views(path@)) == Some(doc));
                    }
                }
            }
        }
        i = i + 1;
    }
    proof {
        if orig.len() == 0 {
            assert(res@ =~= Seq::<(String, Doc)>::empty());
        }
    }
    Doc::Tree(res)
}

proof fn lemma_paths_len(ms: Seq<(KeyView, SeriesRingV)>, gb: Seq<Seq<char>>)
    ensures
        forall|g: int|
            0 <= g < group_paths(ms, gb).len() ==> (#[trigger] group_paths(ms, gb)[g]).len()
                == gb.len(),
    decreases ms.len(),
{
    if ms.len() > 0 {
        lemma_paths_len(ms.drop_last(), gb);
        let prev = group_paths(ms.drop_last(), gb);
        let all = group_paths(ms, gb);
        assert forall|g: int| 0 <= g < all.len() implies (#[trigger] all[g]).len() == gb.len() by {
            if g < prev.len() {
                assert(all[g] == prev[g]);
            } else {
                assert(all[g] == project(ms.last().0, gb));
            }
        }
    }
}

/// What the assembled document of one fine-tier rule holds: with a
/// grouping projection, a tree in which each group's projection resolves to
/// that group's shaped series; with an empty projection, the single group's
/// shaped series directly (or an empty tree when nothing matched).
pub open spec fn rule_doc_ok(rule: Rule, h: crate::history::HistoryV, d: Doc) -> bool {
    let ms = matched(h.fine.series, rule.condition@);
    let gb = strs_views(rule.key@);
    let paths = group_paths(ms, gb);
    if gb.len() == 0 {
        if paths.len() == 0 {
            d matches Doc::Tree(es) && es@.len() == 0
        } else {
            doc_renders(
                valueset_of(group_members(ms, gb, paths[0])),
                rule.aggregation,
                h.fine.timestamps,
                rule.limit as int,
                d,
            )
        }
    } else {
        d matches Doc::Tree(es) && (forall|g: int|
            0 <= g < paths.len() ==> (tree_get(es@, #[trigger] paths[g]) matches Some(dd)
                && doc_renders(
                valueset_of(group_members(ms, gb, paths[g])),
                rule.aggregation,
                h.fine.timestamps,
                rule.limit as int,
                dd,
            )))
    }
}

/// Evaluates a named set of rules against the history: one tree entry per
/// rule name, in rule order, holding that rule's assembled group documents.
/// A rule whose condition holds a pattern that does not compile, or a
/// duplicated rule name, is a bad request; the tip and coarse tiers are not
/// implemented as query sources.
pub fn query(q: &Query, history: &History) -> (r: Result<Doc, QueryError>)
    requires
        history@.wf(),
    ensures
        match r {
            Ok(d) => {
                &&& d matches Doc::Tree(entries) && entries@.len() == q.rules@.len()
                &&& forall|i: int|
                    0 <= i < q.rules@.len() ==> cond_ok(
                        (#[trigger] q.rules@[i]).1.condition@,
                    ) && q.rules@[i].1.source == Source::Fine
                &&& forall|i: int, j: int|
                    0 <= i < j < q.rules@.len() ==> (#[trigger] q.rules@[i]).0@ != (
                    #[trigger] q.rules@[j]).0@
                &&& d matches Doc::Tree(entries) ==> forall|i: int|
                    0 <= i < entries@.len() ==> (#[trigger] entries@[i]).0@ == q.rules@[i].0@
                        && rule_doc_ok(q.rules@[i].1, history@, entries@[i].1)
            },
            Err(QueryError::BadRequest(_)) => (exists|i: int|
                0 <= i < q.rules@.len() && !cond_ok((#[trigger] q.rules@[i]).1.condition@))
                || (exists|i: int|
                0 <= i < q.rules@.len() && fine_rule_trouble(
                    (#[trigger] q.rules@[i]).1,
                    history@,
                )) || (exists|i: int, j: int|
                0 <= i < j < q.rules@.len() && (#[trigger] q.rules@[i]).0@ == (
                #[trigger] q.rules@[j]).0@),
            Err(QueryError::NotImplemented(_)) => (exists|i: int|
                0 <= i < q.rules@.len() && (#[trigger] q.rules@[i]).1.source
                    != Source::Fine) || (exists|i: int|
                0 <= i < q.rules@.len() && casual_sum_over_floats(
                    (#[trigger] q.rules@[i]).1,
                    history@,
                )),
        },
{
    let n = q.rules.len();
    // Duplicated rule names would collide in the result tree: refuse them.
    let mut a: usize = 0;
    while a < n
        invariant
            n == q.rules@.len(),
            0 <= a <= n,
            forall|x: int, y: int|
                0 <= x < y < q.rules@.len() && x < a ==> (#[trigger] q.rules@[x]).0@ != (
                #[trigger] q.rules@[y]).0@,
        decreases n - a,
    {
        let mut b: usize = a + 1;
        while b < n
            invariant
                n == q.rules@.len(),
                0 <= a < b <= n,
                forall|y: int| a < y < b ==> (#[trigger] q.rules@[y]).0@ != q.rules@[a as int].0@,
            decreases n - b,
        {
            if q.rules[a].0 == q.rules[b].0 {
                return Err(QueryError::BadRequest(Error("duplicate rule name")));
            }
            b = b + 1;
        }
        a = a + 1;
    }
    let mut items: Vec<(String, Doc)> = Vec::new();
    let mut i: usize = 0;
    while i < n
        invariant
            history@.wf(),
            n == q.rules@.len(),
            0 <= i <= n,
            items@.len() == i,
            forall|t: int|
                0 <= t < i ==> cond_ok((#[trigger] q.rules@[t]).1.condition@)
                    && q.rules@[t].1.source == Source::Fine,
            forall|t: int|
                0 <= t < i ==> (#[trigger] items@[t]).0@ == q.rules@[t].0@,
            forall|t: int|
                0 <= t < i ==> rule_doc_ok(q.rules@[t].1, history@, (#[trigger] items@[t]).1),
            forall|x: int, y: int|
                0 <= x < y < q.rules@.len() ==> (#[trigger] q.rules@[x]).0@ != (
                #[trigger] q.rules@[y]).0@,
        decreases n - i,
    {
        let name = q.rules[i].0.clone();
        let rule = &q.rules[i].1;
        if !check_condition(&rule.condition) {
            return Err(QueryError::BadRequest(Error("condition does not compile")));
        }
        match rule.source {
            Source::Fine => {
                let flat = match query_fine(rule, history) {
                    Ok(f) => f,
                    Err(e) => {
                        proof {
                            match e {
                                QueryError::BadRequest(_) => {
                                    assert(fine_rule_trouble(q.rules@[i as int].1, history@));
                                },
                                QueryError::NotImplemented(_) => {
                                    assert(casual_sum_over_floats(q.rules@[i as int].1, history@));
                                },
                            }
                        }
                        return Err(e);
                    },
                };
                let ghost ms = matched(history@.fine.series, rule.condition@);
                let ghost gb = strs_views(rule.key@);
                let ghost paths = group_paths(ms, gb);
                proof {
                    lemma_paths_len(ms, gb);
                    lemma_paths_distinct(ms, gb);
                }
                let doc = json_tree(flat);
                proof {
                    if gb.len() == 0 {
                        if paths.len() == 0 {
                            assert(flat@.len() == 0);
                        } else {
                            assert(paths.len() == 1) by {
                                if paths.len() >= 2 {
                                    assert(paths[0].len() == 0 && paths[1].len() == 0);
                                    assert(paths[0] =~~= paths[1]);
                                }
                            }
                            assert(flat@[0].0@.len() == 0) by {
                                assert(strs_views(flat@[0].0@) == paths[0]);
                            }
                            assert(doc == flat@[0].1);
                            assert(rule_doc_ok(q.rules@[i as int].1, history@, doc));
                        }
                    } else {
                        assert forall|a: int| 0 <= a < flat@.len() implies (
                        #[trigger] flat@[a]).0@.len() > 0 by {
                            assert(strs_views(flat@[a].0@) == paths[a]);
                            assert(paths[a].len() == gb.len());
                        }
                        assert forall|a: int, b: int| 0 <= a < b < flat@.len() implies
                            paths_diverge(
                            strs_views((#[trigger] flat@[a]).0@),
                            strs_views((#[trigger] flat@[b]).0@),
                        ) by {
                            assert(strs_views(flat@[a].0@) == paths[a]);
                            assert(strs_views(flat@[b].0@) == paths[b]);
                            lemma_distinct_diverge(paths[a], paths[b]);
                        }
                        assert(doc matches Doc::Tree(es) && (forall|g: int|
                            0 <= g < paths.len() ==> tree_get(es@, #[trigger] paths[g]) == Some(
                                flat@[g].1,
                            ))) by {
                            assert(forall|g: int|
                                0 <= g < flat@.len() ==> strs_views((#[trigger] flat@[g]).0@)
                                    == paths[g]);
                        }
                        assert(rule_doc_ok(q.rules@[i as int].1, history@, doc));
                    }
                }
                items.push((name, doc));
            },
            Source::Tip => {
                return Err(QueryError::NotImplemented("tip tier queries"));
            },
            Source::Coarse => {
                return Err(QueryError::NotImplemented("coarse tier queries"));
            },
        }
        i = i + 1;
    }
    Ok(Doc::Tree(items))
}

/// The raw extraction of the whole history of a query: per-key truncated
/// chunks and the truncated shared marker ring.
#[derive(Debug)]
pub struct RawResult {
    pub fine_metrics: Vec<(Key, HistoryChunk)>,
    pub fine_timestamps: Vec<Marker>,
}

/// A series ring cut to the `limit` newest entries; a series that never saw
/// a sample is reported empty.
pub open spec fn chunk_view(sr: SeriesRingV, limit: int) -> SeriesRingV {
    if sr.kind == ValueKind::Empty {
        SeriesRingV { kind: ValueKind::Empty, values: Seq::empty() }
    } else {
        SeriesRingV {
            kind: sr.kind,
            values: if sr.values.len() <= limit {
                sr.values
            } else {
                sr.values.take(limit)
            },
        }
    }
}

/// The keys matched by one raw rule, each with its truncated ring.
pub open spec fn raw_expected(ms: Seq<(KeyView, SeriesRingV)>, limit: int) -> Seq<
    (KeyView, SeriesRingV),
> {
    ms.map_values(|p: (KeyView, SeriesRingV)| (p.0, chunk_view(p.1, limit)))
}

/// The concatenated extraction of a list of raw rules, in rule order.
pub open spec fn raw_all(
    series: Seq<(KeyView, SeriesRingV)>,
    rules: Seq<RawRule>,
    limit: int,
) -> Seq<(KeyView, SeriesRingV)>
    decreases rules.len(),
{
    if rules.len() == 0 {
        Seq::empty()
    } else {
        raw_all(series, rules.drop_last(), limit) + raw_expected(
            matched(series, rules.last().condition@),
            limit,
        )
    }
}

/// The models of extracted metrics.
pub open spec fn metric_views(v: Seq<(Key, HistoryChunk)>) -> Seq<(KeyView, SeriesRingV)> {
    v.map_values(|p: (Key, HistoryChunk)| (p.0@, p.1@))
}

/// Extracts, rule by rule, every fine-tier series matching a rule's
/// condition, as raw truncated chunks under their keys, together with the
/// truncated shared marker ring. Tiers other than the fine one are not
/// implemented as raw sources; a condition that does not compile is a bad
/// request.
pub fn query_raw(rules: &Vec<RawRule>, limit: usize, history: &History) -> (r: Result<
    RawResult,
    QueryError,
>)
    requires
        history@.wf(),
    ensures
        match r {
            Ok(rr) => {
                &&& metric_views(rr.fine_metrics@) == raw_all(
                    history@.fine.series,
                    rules@,
                    limit as int,
                )
                &&& rr.fine_timestamps@ == if history@.fine.timestamps.len() <= limit {
                    history@.fine.timestamps
                } else {
                    history@.fine.timestamps.take(limit as int)
                }
                &&& forall|i: int|
                    0 <= i < rules@.len() ==> (#[trigger] rules@[i]).source == Source::Fine
                &&& forall|i: int|
                    0 <= i < rules@.len() ==> cond_ok((#[trigger] rules@[i]).condition@)
            },
            Err(QueryError::BadRequest(_)) => exists|i: int|
                0 <= i < rules@.len() && !cond_ok((#[trigger] rules@[i]).condition@),
            Err(QueryError::NotImplemented(_)) => exists|i: int|
                0 <= i < rules@.len() && (#[trigger] rules@[i]).source != Source::Fine,
        },
{
    let ghost series = history@.fine.series;
    let mut fine_metrics: Vec<(Key, HistoryChunk)> = Vec::new();
    let nr = rules.len();
    let mut j: usize = 0;
    proof {
        assert(metric_views(fine_metrics@) =~= Seq::<(KeyView, SeriesRingV)>::empty());
        assert(raw_all(series, rules@.take(0), limit as int) =~= Seq::<
            (KeyView, SeriesRingV),
        >::empty());
    }
    while j < nr
        invariant
            history@.wf(),
            series == history@.fine.series,
            nr == rules@.len(),
            0 <= j <= nr,
            metric_views(fine_metrics@) == raw_all(series, rules@.take(j as int), limit as int),
            forall|t: int| 0 <= t < j ==> (#[trigger] rules@[t]).source == Source::Fine,
            forall|t: int| 0 <= t < j ==> cond_ok((#[trigger] rules@[t]).condition@),
        decreases nr - j,
    {
        proof {
            assert(rules@.take(j + 1).drop_last() =~= rules@.take(j as int));
            assert(rules@.take(j + 1).last() == rules@[j as int]);
        }
        let rule = &rules[j];
        match rule.source {
            Source::Fine => {},
            _ => {
                return Err(QueryError::NotImplemented("raw extraction outside the fine tier"));
            },
        }
        if !check_condition(&rule.condition) {
            return Err(QueryError::BadRequest(Error("condition does not compile")));
        }
        let ghost c = rule.condition@;
        let ns = history.fine.series.len();
        let mut i: usize = 0;
        proof {
            assert(series.take(0) =~= Seq::<(KeyView, SeriesRingV)>::empty());
            assert(raw_expected(matched(series.take(0), c), limit as int) =~= Seq::<
                (KeyView, SeriesRingV),
            >::empty());
            assert(metric_views(fine_metrics@) =~= raw_all(series, rules@.take(j as int), limit as int)
                + raw_expected(matched(series.take(0), c), limit as int));
        }
        while i < ns
            invariant
                history@.wf(),
                series == history@.fine.series,
                cond_ok(c),
                c == rules@[j as int].condition@,
                j < nr,
                nr == rules@.len(),
                ns == history.fine.series@.len(),
                ns == series.len(),
                0 <= i <= ns,
                metric_views(fine_metrics@) == raw_all(series, rules@.take(j as int), limit as int)
                    + raw_expected(matched(series.take(i as int), c), limit as int),
            decreases ns - i,
        {
            proof {
                assert(series.take(i + 1).drop_last() =~= series.take(i as int));
                assert(series.take(i + 1).last() == series[i as int]);
                assert(series[i as int] == (history.fine.series@[i as int].0@,
                history.fine.series@[i as int].1@));
            }
            let ghost ms_i = matched(series.take(i as int), c);
            if match_cond(&history.fine.series[i].0, &rules[j].condition) {
                proof {
                    assert(history@.fine.series[i as int].1.wf(
                        history@.fine.timestamps.len() as int,
                    ));
                }
                let key = history.fine.series[i].0.dup();
                let chunk = chunk_of_series(&history.fine.series[i].1).take(limit);
                let ghost before = metric_views(fine_metrics@);
                fine_metrics.push((key, chunk));
                proof {
                    let x = series[i as int];
                    assert(chunk@ == chunk_view(x.1, limit as int));
                    assert(matched(series.take(i + 1), c) == ms_i.push(x));
                    assert(metric_views(fine_metrics@) =~= before.push((x.0, chunk@)));
                    assert(raw_expected(ms_i.push(x), limit as int) =~= raw_expected(
                        ms_i,
                        limit as int,
                    ).push((x.0, chunk_view(x.1, limit as int))));
                    assert(metric_views(fine_metrics@) =~= raw_all(
                        series,
                        rules@.take(j as int),
                        limit as int,
                    ) + raw_expected(matched(series.take(i + 1), c), limit as int));
                }
            } else {
                proof {
                    assert(matched(series.take(i + 1), c) == ms_i);
                }
            }
            i = i + 1;
        }
        proof {
            assert(series.take(ns as int) =~= series);
            assert(metric_views(fine_metrics@) == raw_all(series, rules@.take(j + 1), limit as int));
        }
        j = j + 1;
    }
    proof {
        assert(rules@.take(nr as int) =~= rules@);
    }
    let mut fine_timestamps: Vec<Marker> = Vec::new();
    let tn = history.fine.timestamps.len();
    let keep = if tn <= limit {
        tn
    } else {
        limit
    };
    let mut t: usize = 0;
    while t < keep
        invariant
            tn == history@.fine.timestamps.len(),
            keep <= tn,
            keep <= limit,
            0 <= t <= keep,
            fine_timestamps@.len() == t,
            forall|k: int|
                0 <= k < t ==> #[trigger] fine_timestamps@[k] == history@.fine.timestamps[k],
        decreases keep - t,
    {
        let m = history.fine.timestamps[t];
        fine_timestamps.push(m);
        t = t + 1;
    }
    proof {
        if history@.fine.timestamps.len() <= limit {
            assert(fine_timestamps@ =~= history@.fine.timestamps);
        } else {
            assert(fine_timestamps@ =~= history@.fine.timestamps.take(limit as int));
        }
    }
    Ok(RawResult { fine_metrics, fine_timestamps })
}

/// Law: the casual sum treats a missing sample as zero, never as a
/// propagating hole — a series whose rate point at `k` is absent can be
/// removed from the group without changing the summed rate at `k`. (Under
/// no aggregation the same series yields a hole at `k` while every other
/// series keeps its own rate point, by the rate transform's contract.)
pub proof fn lemma_casual_sum_ignores_missing(
    streams: Seq<Seq<Option<u64>>>,
    ts: Seq<Marker>,
    k: int,
    limit: int,
    j: int,
)
    requires
        0 <= j < streams.len(),
        rate_at(streams[j], ts, k) is None,
    ensures
        rate_sum_delta_at(streams, ts, k, limit) == rate_sum_delta_at(
            streams.remove(j),
            ts,
            k,
            limit,
        ),
    decreases streams.len(),
{
    if j == streams.len() - 1 {
        assert(streams.remove(j) =~= streams.drop_last());
    } else {
        let shorter = streams.drop_last();
        assert(streams.remove(j).drop_last() =~= shorter.remove(j));
        assert(streams.remove(j).last() == streams.last());
        assert(shorter[j] == streams[j]);
        lemma_casual_sum_ignores_missing(shorter, ts, k, limit, j);
    }
}

} // verus!
