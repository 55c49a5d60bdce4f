//! One retention tier: a shared, newest-first, bounded marker ring and, per
//! key, a value ring aligned position-for-position with it.

use vstd::prelude::*;
use std::collections::VecDeque;

use crate::keys::{distinct_names, Key, KeyView};
use crate::tstamp::{strictly_newest_first, Marker};
use crate::values::{Value, ValueKind, ValueV};

verus! {

/// Newest-first bounded prepend: `x` moves in front and the tail is evicted
/// past `cap` entries.
pub open spec fn ring_push<T>(r: Seq<T>, x: T, cap: int) -> Seq<T> {
    let s = seq![x] + r;
    if s.len() <= cap {
        s
    } else {
        s.take(cap)
    }
}

/// Model of one key's value ring.
#[verifier::ext_equal]
pub struct SeriesRingV {
    pub kind: ValueKind,
    pub values: Seq<Option<ValueV>>,
}

impl SeriesRingV {
    /// Aligned with a marker ring of length `n` and kind-homogeneous: every
    /// stored sample has the series' kind, holes are `None`.
    pub open spec fn wf(self, n: int) -> bool {
        &&& self.values.len() == n
        &&& forall|i: int|
            0 <= i < self.values.len() ==> match #[trigger] self.values[i] {
                Some(v) => v.numeric_kind() == Some(self.kind),
                None => true,
            }
    }
}

/// One key's value ring. The kind is fixed by the first observed sample; a
/// later sample of another kind is recorded as a hole, never coerced.
#[derive(Debug)]
pub struct SeriesRing {
    pub kind: ValueKind,
    pub values: VecDeque<Option<Value>>,
}

impl View for SeriesRing {
    type V = SeriesRingV;

    open spec fn view(&self) -> SeriesRingV {
        SeriesRingV {
            kind: self.kind,
            values: self.values@.map_values(
                |ov: Option<Value>|
                    match ov {
                        Some(v) => Some(v@),
                        None => None::<ValueV>,
                    },
            ),
        }
    }
}

/// Model of one tier.
#[verifier::ext_equal]
pub struct BufferV {
    pub timestamps: Seq<Marker>,
    pub series: Seq<(KeyView, SeriesRingV)>,
    pub max_len: int,
}

/// Whether some series carries the key `k`.
pub open spec fn series_has_key(series: Seq<(KeyView, SeriesRingV)>, k: KeyView) -> bool {
    exists|i: int| 0 <= i < series.len() && (#[trigger] series[i]).0 == k
}

impl BufferV {
    /// Tier invariant: the marker ring is bounded and strictly newest-first,
    /// keys are well formed and pairwise distinct, and every value ring is
    /// aligned with the marker ring.
    pub open spec fn wf(self) -> bool {
        &&& 1 <= self.max_len
        &&& self.timestamps.len() <= self.max_len
        &&& strictly_newest_first(self.timestamps)
        &&& forall|i: int|
            0 <= i < self.series.len() ==> distinct_names((#[trigger] self.series[i]).0)
        &&& forall|i: int|
            0 <= i < self.series.len() ==> (#[trigger] self.series[i]).1.wf(
                self.timestamps.len() as int,
            )
        &&& forall|i: int, j: int|
            0 <= i < j < self.series.len() ==> (#[trigger] self.series[i]).0 != (
            #[trigger] self.series[j]).0
    }
}

/// The models of a batch of scanned values.
pub open spec fn batch_views(b: Seq<(Key, Value)>) -> Seq<(KeyView, ValueV)> {
    b.map_values(|p: (Key, Value)| (p.0@, p.1@))
}

/// First value bound to key `k` in the batch, if any.
pub open spec fn batch_lookup(batch: Seq<(KeyView, ValueV)>, k: KeyView) -> Option<ValueV>
    decreases batch.len(),
{
    if batch.len() == 0 {
        None
    } else if batch[0].0 == k {
        Some(batch[0].1)
    } else {
        batch_lookup(batch.drop_first(), k)
    }
}

/// A batch fit for a ring tier: well-formed, pairwise-distinct keys and
/// numeric values only.
pub open spec fn batch_wf(batch: Seq<(KeyView, ValueV)>) -> bool {
    &&& forall|i: int, j: int|
        0 <= i < j < batch.len() ==> (#[trigger] batch[i]).0 != (#[trigger] batch[j]).0
    &&& forall|i: int| 0 <= i < batch.len() ==> distinct_names((#[trigger] batch[i]).0)
    &&& forall|i: int| 0 <= i < batch.len() ==> (#[trigger] batch[i]).1.numeric_kind() is Some
}

/// One tick of an already-known series: the new entry (the batch value when
/// present and of the series' kind, a hole otherwise) moves in front and the
/// tail is evicted past `cap`. A series that never saw a sample adopts the
/// kind of its first one.
pub open spec fn series_push(sr: SeriesRingV, found: Option<ValueV>, cap: int) -> SeriesRingV {
    let kind = match found {
        Some(v) => if sr.kind == ValueKind::Empty {
            match v.numeric_kind() {
                Some(k) => k,
                None => ValueKind::Empty,
            }
        } else {
            sr.kind
        },
        None => sr.kind,
    };
    let entry = match found {
        Some(v) => if v.numeric_kind() == Some(kind) {
            Some(v)
        } else {
            None
        },
        None => None,
    };
    SeriesRingV { kind, values: ring_push(sr.values, entry, cap) }
}

/// The ring of a series first observed now, in a tier whose marker ring has
/// `n` entries: its sample in front, holes behind.
pub open spec fn fresh_series(v: ValueV, n: int) -> SeriesRingV {
    SeriesRingV {
        kind: match v.numeric_kind() {
            Some(k) => k,
            None => ValueKind::Empty,
        },
        values: seq![Some(v)] + Seq::new((n - 1) as nat, |i: int| None::<ValueV>),
    }
}

/// The series appended by one tick: one per batch entry whose key the tier
/// did not know yet, in batch order.
pub open spec fn fresh_entries(
    batch: Seq<(KeyView, ValueV)>,
    existing: Seq<(KeyView, SeriesRingV)>,
    n: int,
) -> Seq<(KeyView, SeriesRingV)>
    decreases batch.len(),
{
    if batch.len() == 0 {
        Seq::empty()
    } else {
        let rest = fresh_entries(batch.drop_last(), existing, n);
        if series_has_key(existing, batch.last().0) {
            rest
        } else {
            rest.push((batch.last().0, fresh_series(batch.last().1, n)))
        }
    }
}

proof fn lemma_batch_lookup_numeric(batch: Seq<(KeyView, ValueV)>, k: KeyView)
    requires
        batch_wf(batch),
    ensures
        match batch_lookup(batch, k) {
            Some(v) => v.numeric_kind() is Some,
            None => true,
        },
    decreases batch.len(),
{
    if batch.len() > 0 && batch[0].0 != k {
        let rest = batch.drop_first();
        assert forall|a: int| 0 <= a < rest.len() implies (#[trigger] rest[a]).1.numeric_kind()
            is Some && distinct_names(rest[a].0) by {
            assert(rest[a] == batch[a + 1]);
        }
        assert forall|a: int, b: int| 0 <= a < b < rest.len() implies (#[trigger] rest[a]).0 != (
        #[trigger] rest[b]).0 by {
            assert(rest[a] == batch[a + 1]);
            assert(rest[b] == batch[b + 1]);
        }
        lemma_batch_lookup_numeric(rest, k);
    }
}

proof fn lemma_batch_lookup_skip(batch: Seq<(KeyView, ValueV)>, k: KeyView, i: int)
    requires
        0 <= i < batch.len(),
        batch[i].0 != k,
    ensures
        batch_lookup(batch.skip(i), k) == batch_lookup(batch.skip(i + 1), k),
{
    let s = batch.skip(i);
    assert(s[0] == batch[i]);
    assert(s.drop_first() =~= batch.skip(i + 1));
}

proof fn lemma_ring_push_sorted(ts: Seq<Marker>, m: Marker, cap: int)
    requires
        strictly_newest_first(ts),
        ts.len() == 0 || m.0 > ts[0].0,
        cap >= 1,
    ensures
        strictly_newest_first(ring_push(ts, m, cap)),
        ring_push(ts, m, cap).len() == if ts.len() + 1 <= cap {
            ts.len() + 1
        } else {
            cap as nat
        },
        ring_push(ts, m, cap)[0] == m,
{
    let s = seq![m] + ts;
    assert forall|i: int, j: int| 0 <= i < j < s.len() implies #[trigger] s[i].0 > #[trigger] s[j].0 by {
        if i == 0 {
            assert(s[j] == ts[j - 1]);
            if j > 1 {
                assert(ts[0].0 > ts[j - 1].0);
            }
        } else {
            assert(s[i] == ts[i - 1]);
            assert(s[j] == ts[j - 1]);
        }
    }
    let r = ring_push(ts, m, cap);
    assert forall|i: int, j: int| 0 <= i < j < r.len() implies #[trigger] r[i].0 > #[trigger] r[j].0 by {
        assert(r[i] == s[i]);
        assert(r[j] == s[j]);
    }
}

proof fn lemma_fresh_entries_props(
    batch: Seq<(KeyView, ValueV)>,
    existing: Seq<(KeyView, SeriesRingV)>,
    n: int,
)
    requires
        forall|i: int, j: int|
            0 <= i < j < batch.len() ==> (#[trigger] batch[i]).0 != (#[trigger] batch[j]).0,
    ensures
        forall|k: int|
            0 <= k < fresh_entries(batch, existing, n).len() ==> exists|jj: int|
                0 <= jj < batch.len() && #[trigger] fresh_entries(batch, existing, n)[k] == (
                batch[jj].0,
                fresh_series(batch[jj].1, n),
                ),
        forall|k: int|
            0 <= k < fresh_entries(batch, existing, n).len() ==> !series_has_key(
                existing,
                (#[trigger] fresh_entries(batch, existing, n)[k]).0,
            ),
        forall|k1: int, k2: int|
            0 <= k1 < k2 < fresh_entries(batch, existing, n).len() ==> (
            #[trigger] fresh_entries(batch, existing, n)[k1]).0 != (
            #[trigger] fresh_entries(batch, existing, n)[k2]).0,
    decreases batch.len(),
{
    if batch.len() > 0 {
        let prev = batch.drop_last();
        lemma_fresh_entries_props(prev, existing, n);
        let f = fresh_entries(batch, existing, n);
        let fp = fresh_entries(prev, existing, n);
        if series_has_key(existing, batch.last().0) {
            assert(f == fp);
            assert forall|k: int| 0 <= k < f.len() implies exists|jj: int|
                0 <= jj < batch.len() && #[trigger] f[k] == (batch[jj].0, fresh_series(batch[jj].1, n)) by {
                let jj = choose|jj: int|
                    0 <= jj < prev.len() && #[trigger] fp[k] == (prev[jj].0, fresh_series(prev[jj].1, n));
                assert(prev[jj] == batch[jj]);
                assert(f[k] == (batch[jj].0, fresh_series(batch[jj].1, n)));
            }
        } else {
            assert(f == fp.push((batch.last().0, fresh_series(batch.last().1, n))));
            assert forall|k: int| 0 <= k < f.len() implies exists|jj: int|
                0 <= jj < batch.len() && #[trigger] f[k] == (batch[jj].0, fresh_series(batch[jj].1, n)) by {
                if k < fp.len() {
                    let jj = choose|jj: int|
                        0 <= jj < prev.len() && #[trigger] fp[k] == (prev[jj].0, fresh_series(prev[jj].1, n));
                    assert(prev[jj] == batch[jj]);
                    assert(f[k] == (batch[jj].0, fresh_series(batch[jj].1, n)));
                } else {
                    assert(f[k] == (batch[batch.len() - 1].0, fresh_series(batch[batch.len() - 1].1, n)));
                }
            }
            assert forall|k1: int, k2: int| 0 <= k1 < k2 < f.len() implies (#[trigger] f[k1]).0 != (
            #[trigger] f[k2]).0 by {
                if k2 < fp.len() {
                    assert(f[k1] == fp[k1] && f[k2] == fp[k2]);
                } else {
                    let jj = choose|jj: int|
                        0 <= jj < prev.len() && #[trigger] fp[k1] == (prev[jj].0, fresh_series(prev[jj].1, n));
                    assert(batch[jj].0 != batch.last().0);
                    assert(f[k1] == fp[k1]);
                }
            }
        }
    }
}

/// First batch index carrying `key`, if any.
fn batch_find(batch: &Vec<(Key, Value)>, key: &Key) -> (r: Option<usize>)
    ensures
        match r {
            Some(j) => {
                &&& j < batch@.len()
                &&& batch@[j as int].0@ == key@
                &&& batch_lookup(batch_views(batch@), key@) == Some(batch@[j as int].1@)
            },
            None => batch_lookup(batch_views(batch@), key@) is None,
        },
{
    let ghost bviews = batch_views(batch@);
    let n = batch.len();
    proof {
        assert(bviews.skip(0) =~= bviews);
    }
    let mut i: usize = 0;
    while i < n
        invariant
            n == batch@.len(),
            bviews == batch_views(batch@),
            bviews.len() == n,
            0 <= i <= n,
            batch_lookup(bviews, key@) == batch_lookup(bviews.skip(i as int), key@),
            forall|k: int|
                0 <= k < n ==> #[trigger] bviews[k] == (batch@[k].0@, batch@[k].1@),
        decreases n - i,
    {
        if batch[i].0.same(key) {
            proof {
                assert(bviews.skip(i as int)[0] == bviews[i as int]);
            }
            return Some(i);
        }
        proof {
            lemma_batch_lookup_skip(bviews, key@, i as int);
        }
        i = i + 1;
    }
    proof {
        assert(bviews.skip(n as int) =~= Seq::<(KeyView, ValueV)>::empty());
    }
    None
}

/// The bounded tier structure: a shared marker ring, capped at `max_len`
/// entries, and one aligned value ring per key.
#[derive(Debug)]
pub struct Buffer {
    pub timestamps: VecDeque<Marker>,
    pub series: Vec<(Key, SeriesRing)>,
    pub max_len: usize,
}

impl View for Buffer {
    type V = BufferV;

    open spec fn view(&self) -> BufferV {
        BufferV {
            timestamps: self.timestamps@,
            series: self.series@.map_values(|p: (Key, SeriesRing)| (p.0@, p.1@)),
            max_len: self.max_len as int,
        }
    }
}

impl Buffer {
    /// An empty tier retaining at most `max_len` samples per series.
    pub fn new(max_len: usize) -> (r: Buffer)
        requires
            max_len >= 1,
        ensures
            r@.wf(),
            r@.timestamps.len() == 0,
            r@.series.len() == 0,
            r@.max_len == max_len,
    {
        let r = Buffer { timestamps: VecDeque::new(), series: Vec::new(), max_len };
        proof {
            assert(r@.series =~= Seq::<(KeyView, SeriesRingV)>::empty());
        }
        r
    }

    /// First series index carrying `key` among the first `upto` series.
    fn find_series(&self, upto: usize, key: &Key) -> (r: Option<usize>)
        requires
            upto <= self.series@.len(),
        ensures
            match r {
                Some(j) => j < upto && self@.series[j as int].0 == key@,
                None => forall|i: int| 0 <= i < upto ==> (#[trigger] self@.series[i]).0 != key@,
            },
    {
        let mut i: usize = 0;
        while i < upto
            invariant
                upto <= self.series@.len(),
                0 <= i <= upto,
                forall|k: int| 0 <= k < i ==> (#[trigger] self@.series[k]).0 != key@,
            decreases upto - i,
        {
            if self.series[i].0.same(key) {
                return Some(i);
            }
            i = i + 1;
        }
        None
    }

    /// One scan tick: the marker moves in front of the shared ring (tail
    /// evicted past the count cap) and every series receives its new entry
    /// or a hole, keeping the alignment invariant; keys first observed this
    /// tick are appended with hole-padded rings, in batch order.
    #[verifier::rlimit(60)]
    pub fn push(&mut self, marker: Marker, batch: &Vec<(Key, Value)>)
        requires
            old(self)@.wf(),
            old(self)@.timestamps.len() == 0 || marker.0 > old(self)@.timestamps[0].0,
            batch_wf(batch_views(batch@)),
        ensures
            final(self)@.wf(),
            final(self)@.max_len == old(self)@.max_len,
            final(self)@.timestamps == ring_push(
                old(self)@.timestamps,
                marker,
                old(self)@.max_len,
            ),
            final(self)@.series.len() == old(self)@.series.len() + fresh_entries(
                batch_views(batch@),
                old(self)@.series,
                final(self)@.timestamps.len() as int,
            ).len(),
            forall|i: int|
                0 <= i < old(self)@.series.len() ==> #[trigger] final(self)@.series[i] == (
                old(self)@.series[i].0,
                series_push(
                    old(self)@.series[i].1,
                    batch_lookup(batch_views(batch@), old(self)@.series[i].0),
                    old(self)@.max_len,
                ),
                ),
            final(self)@.series.skip(old(self)@.series.len() as int) == fresh_entries(
                batch_views(batch@),
                old(self)@.series,
                final(self)@.timestamps.len() as int,
            ),
    {
        let ghost old_b = self@;
        let ghost bviews = batch_views(batch@);
        proof {
            assert(forall|k: int|
                0 <= k < bviews.len() ==> #[trigger] bviews[k] == (batch@[k].0@, batch@[k].1@));
        }
        // The shared marker ring.
        self.timestamps.push_front(marker);
        if self.timestamps.len() > self.max_len {
            self.timestamps.truncate(self.max_len);
        }
        proof {
            assert(self@.timestamps =~= ring_push(old_b.timestamps, marker, old_b.max_len));
            lemma_ring_push_sorted(old_b.timestamps, marker, old_b.max_len);
        }
        let new_len = self.timestamps.len();
        // Already-known series: one new entry or hole each.
        let n0 = self.series.len();
        let mut i: usize = 0;
        while i < n0
            invariant
                old_b.wf(),
                batch_wf(bviews),
                bviews == batch_views(batch@),
                bviews.len() == batch@.len(),
                forall|k: int|
                    0 <= k < bviews.len() ==> #[trigger] bviews[k] == (batch@[k].0@, batch@[k].1@),
                n0 == old_b.series.len(),
                0 <= i <= n0,
                self.max_len as int == old_b.max_len,
                self@.timestamps == ring_push(old_b.timestamps, marker, old_b.max_len),
                new_len == self@.timestamps.len(),
                self@.series.len() == n0,
                forall|k: int|
                    i <= k < n0 ==> #[trigger] self@.series[k] == old_b.series[k],
                forall|k: int|
                    0 <= k < i ==> #[trigger] self@.series[k] == (
                    old_b.series[k].0,
                    series_push(
                        old_b.series[k].1,
                        batch_lookup(bviews, old_b.series[k].0),
                        old_b.max_len,
                    ),
                    ),
            decreases n0 - i,
        {
            let found = batch_find(batch, &self.series[i].0);
            let mut slot: (Key, SeriesRing) = (
                Key::metric(""),
                SeriesRing { kind: ValueKind::Empty, values: VecDeque::new() },
            );
            let ghost pre = self.series@;
            let ghost prev_model = self@.series;
            self.series.set_and_swap(i, &mut slot);
            let (key, mut sr) = slot;
            let ghost old_sr = old_b.series[i as int].1;
            let ghost looked = batch_lookup(bviews, old_b.series[i as int].0);
            proof {
                assert(prev_model[i as int] == (pre[i as int].0@, pre[i as int].1@));
                assert(prev_model[i as int] == old_b.series[i as int]);
                assert(key@ == old_b.series[i as int].0);
                assert(sr@ == old_sr);
            }
            let entry: Option<Value> = match found {
                Some(j) => {
                    match batch[j].1.numeric_kind() {
                        Some(vk) => {
                            if sr.kind == ValueKind::Empty {
                                sr.kind = vk;
                            }
                            if vk == sr.kind {
                                Some(batch[j].1.dup())
                            } else {
                                None
                            }
                        },
                        None => None,
                    }
                },
                None => None,
            };
            let ghost pushed = series_push(old_sr, looked, old_b.max_len);
            proof {
                assert(sr.kind == pushed.kind);
                assert((match entry {
                    Some(v) => Some(v@),
                    None => None::<ValueV>,
                }) == (match looked {
                    Some(v) => if v.numeric_kind() == Some(pushed.kind) {
                        Some(v)
                    } else {
                        None::<ValueV>
                    },
                    None => None::<ValueV>,
                }));
            }
            sr.values.push_front(entry);
            if sr.values.len() > self.max_len {
                sr.values.truncate(self.max_len);
            }
            proof {
                assert(sr@.values =~= pushed.values);
                assert(sr@ == pushed);
            }
            let mut slot2 = (key, sr);
            self.series.set_and_swap(i, &mut slot2);
            proof {
                assert(self@.series[i as int] == (key@, pushed));
                assert forall|k: int| 0 <= k < n0 && k != i implies #[trigger] self@.series[k]
                    == prev_model[k] by {
                    assert(self.series@[k] == pre[k]);
                    assert(prev_model[k] == (pre[k].0@, pre[k].1@));
                }
            }
            i = i + 1;
        }
        // Keys first observed this tick.
        let ghost done = self@.series;
        let m = batch.len();
        proof {
            assert(fresh_entries(bviews.take(0), old_b.series, new_len as int) =~= Seq::<
                (KeyView, SeriesRingV),
            >::empty());
            assert(self@.series.skip(n0 as int) =~= fresh_entries(
                bviews.take(0),
                old_b.series,
                new_len as int,
            ));
        }
        let mut j: usize = 0;
        while j < m
            invariant
                old_b.wf(),
                batch_wf(bviews),
                bviews == batch_views(batch@),
                bviews.len() == batch@.len(),
                m == batch@.len(),
                0 <= j <= m,
                forall|k: int|
                    0 <= k < bviews.len() ==> #[trigger] bviews[k] == (batch@[k].0@, batch@[k].1@),
                n0 == old_b.series.len(),
                self.max_len as int == old_b.max_len,
                self@.timestamps == ring_push(old_b.timestamps, marker, old_b.max_len),
                new_len == self@.timestamps.len(),
                new_len >= 1,
                self@.series.len() >= n0,
                forall|k: int|
                    0 <= k < n0 ==> #[trigger] self@.series[k] == done[k],
                forall|k: int|
                    0 <= k < n0 ==> (#[trigger] self@.series[k]).0 == old_b.series[k].0,
                self@.series.skip(n0 as int) == fresh_entries(
                    bviews.take(j as int),
                    old_b.series,
                    new_len as int,
                ),
            decreases m - j,
        {
            proof {
                assert(bviews.take(j + 1).drop_last() =~= bviews.take(j as int));
                assert(bviews.take(j + 1).last() == bviews[j as int]);
            }
            let idx = self.find_series(n0, &batch[j].0);
            match idx {
                Some(_) => {
                    proof {
                        assert(series_has_key(old_b.series, bviews[j as int].0));
                        assert(self@.series.skip(n0 as int) =~= fresh_entries(
                            bviews.take(j + 1),
                            old_b.series,
                            new_len as int,
                        ));
                    }
                },
                None => {
                    proof {
                        assert forall|k: int| 0 <= k < n0 implies (#[trigger] old_b.series[k]).0
                            != bviews[j as int].0 by {
                            assert(self@.series[k].0 != batch@[j as int].0@);
                            assert(self@.series[k].0 == old_b.series[k].0);
                        }
                        assert(!series_has_key(old_b.series, bviews[j as int].0));
                    }
                    let key = batch[j].0.dup();
                    let v = batch[j].1.dup();
                    let kind = match v.numeric_kind() {
                        Some(k) => k,
                        None => ValueKind::Empty,
                    };
                    let mut values: VecDeque<Option<Value>> = VecDeque::new();
                    values.push_back(Some(v));
                    let mut filled: usize = 1;
                    while filled < new_len
                        invariant
                            1 <= filled <= new_len,
                            values@.len() == filled,
                            values@[0] matches Some(vv) && vv@ == bviews[j as int].1,
                            forall|k: int| 1 <= k < filled ==> #[trigger] values@[k] is None,
                            j < bviews.len(),
                        decreases new_len - filled,
                    {
                        values.push_back(None);
                        filled = filled + 1;
                    }
                    let fresh = SeriesRing { kind, values };
                    proof {
                        let want = fresh_series(bviews[j as int].1, new_len as int);
                        assert(fresh@.values.len() == new_len);
                        assert(want.values.len() == new_len);
                        assert(fresh@.values[0] == Some(bviews[j as int].1));
                        assert forall|k: int| 0 < k < new_len implies #[trigger] fresh@.values[k]
                            == want.values[k] by {
                            assert(values@[k] is None);
                            assert(want.values[k] == Seq::new(
                                (new_len - 1) as nat,
                                |t: int| None::<ValueV>,
                            )[k - 1]);
                        }
                        assert(fresh@.values =~= want.values);
                        assert(fresh@.kind == want.kind);
                        assert(fresh@ == want);
                    }
                    let ghost before = self@.series;
                    self.series.push((key, fresh));
                    proof {
                        assert(self@.series =~= before.push((bviews[j as int].0, fresh@)));
                        assert(self@.series.skip(n0 as int) =~= fresh_entries(
                            bviews.take(j + 1),
                            old_b.series,
                            new_len as int,
                        )) by {
                            assert(before.skip(n0 as int).push((bviews[j as int].0, fresh@))
                                =~= self@.series.skip(n0 as int));
                        }
                    }
                },
            }
            j = j + 1;
        }
        proof {
            assert(bviews.take(m as int) =~= bviews);
            lemma_fresh_entries_props(bviews, old_b.series, new_len as int);
            let fin = self@;
            let fe = fresh_entries(bviews, old_b.series, new_len as int);
            assert(fin.series.skip(n0 as int) == fe);
            assert(fin.series.len() == n0 + fe.len());
            assert forall|k: int| 0 <= k < fin.series.len() implies distinct_names(
                (#[trigger] fin.series[k]).0,
            ) && fin.series[k].1.wf(fin.timestamps.len() as int) by {
                if k < n0 {
                    let srp = series_push(
                        old_b.series[k].1,
                        batch_lookup(bviews, old_b.series[k].0),
                        old_b.max_len,
                    );
                    assert(fin.series[k] == (old_b.series[k].0, srp));
                    assert(old_b.series[k].1.wf(old_b.timestamps.len() as int));
                    lemma_batch_lookup_numeric(bviews, old_b.series[k].0);
                    lemma_series_push_wf(
                        old_b.series[k].1,
                        batch_lookup(bviews, old_b.series[k].0),
                        old_b.timestamps.len() as int,
                        old_b.max_len,
                        fin.timestamps.len() as int,
                    );
                } else {
                    assert(fe[k - n0] == fin.series.skip(n0 as int)[k - n0]);
                    let jj = choose|jj: int|
                        0 <= jj < bviews.len() && #[trigger] fe[k - n0] == (
                        bviews[jj].0,
                        fresh_series(bviews[jj].1, fin.timestamps.len() as int),
                        );
                    lemma_fresh_series_wf(bviews[jj].1, fin.timestamps.len() as int);
                }
            }
            assert forall|a: int, b: int| 0 <= a < b < fin.series.len() implies (
            #[trigger] fin.series[a]).0 != (#[trigger] fin.series[b]).0 by {
                if b < n0 {
                    assert(fin.series[a].0 == old_b.series[a].0);
                    assert(fin.series[b].0 == old_b.series[b].0);
                } else if a < n0 {
                    assert(fe[b - n0] == fin.series.skip(n0 as int)[b - n0]);
                    assert(!series_has_key(old_b.series, fe[b - n0].0));
                    assert(fin.series[a].0 == old_b.series[a].0);
                } else {
                    assert(fe[a - n0] == fin.series.skip(n0 as int)[a - n0]);
                    assert(fe[b - n0] == fin.series.skip(n0 as int)[b - n0]);
                }
            }
        }
    }
}

/// Law: ring alignment. A well-formed tier — and `new`, `push` and
/// `truncate_by_time` each leave the tier well formed — has every key's
/// value ring exactly as long as the shared marker ring.
pub proof fn lemma_ring_alignment(b: BufferV)
    requires
        b.wf(),
    ensures
        forall|i: int|
            0 <= i < b.series.len() ==> (#[trigger] b.series[i]).1.values.len()
                == b.timestamps.len(),
{
}

proof fn lemma_gt_chain(ts: Seq<Marker>, i: int, j: int)
    requires
        forall|k: int| 0 <= k < ts.len() - 1 ==> (#[trigger] ts[k]).0 > ts[k + 1].0,
        0 <= i < j < ts.len(),
    ensures
        ts[i].0 > ts[j].0,
    decreases j - i,
{
    if j > i + 1 {
        lemma_gt_chain(ts, i, j - 1);
    }
}

impl Buffer {
    /// Whether this tier satisfies its invariant; for a tier built by this
    /// library the answer is always yes, but a tier decoded from an
    /// untrusted snapshot must be asked before it is used.
    pub fn validate(&self) -> (b: bool)
        ensures
            b == self@.wf(),
    {
        if self.max_len < 1 {
            return false;
        }
        let tn = self.timestamps.len();
        if tn > self.max_len {
            return false;
        }
        let mut k: usize = 0;
        while tn - k > 1
            invariant
                tn == self@.timestamps.len(),
                0 <= k <= tn,
                forall|t: int|
                    0 <= t < k && t + 1 < tn ==> (#[trigger] self@.timestamps[t]).0
                        > self@.timestamps[t + 1].0,
            decreases tn - k,
        {
            if self.timestamps[k].0 <= self.timestamps[k + 1].0 {
                proof {
                    assert(!strictly_newest_first(self@.timestamps)) by {
                        assert(self@.timestamps[k as int].0 <= self@.timestamps[k + 1].0);
                    }
                }
                return false;
            }
            k = k + 1;
        }
        proof {
            assert(strictly_newest_first(self@.timestamps)) by {
                assert(forall|t: int|
                    0 <= t < self@.timestamps.len() - 1 ==> (#[trigger] self@.timestamps[t]).0
                        > self@.timestamps[t + 1].0);
                assert forall|i: int, j: int| 0 <= i < j < self@.timestamps.len() implies (
                #[trigger] self@.timestamps[i]).0 > (#[trigger] self@.timestamps[j]).0 by {
                    lemma_gt_chain(self@.timestamps, i, j);
                }
            }
        }
        let n = self.series.len();
        let mut i: usize = 0;
        while i < n
            invariant
                n == self.series@.len(),
                n == self@.series.len(),
                tn == self@.timestamps.len(),
                0 <= i <= n,
                forall|t: int|
                    0 <= t < i ==> distinct_names((#[trigger] self@.series[t]).0)
                        && self@.series[t].1.wf(self@.timestamps.len() as int),
                forall|a: int, b: int|
                    0 <= a < b < n && a < i ==> (#[trigger] self@.series[a]).0 != (
                    #[trigger] self@.series[b]).0,
            decreases n - i,
        {
            if !self.series[i].0.is_wf() {
                proof {
                    assert(!distinct_names(self@.series[i as int].0));
                }
                return false;
            }
            let sr = &self.series[i].1;
            if sr.values.len() != tn {
                proof {
                    assert(!self@.series[i as int].1.wf(self@.timestamps.len() as int));
                }
                return false;
            }
            let vn = sr.values.len();
            let mut j: usize = 0;
            while j < vn
                invariant
                    vn == sr.values@.len(),
                    sr@ == self@.series[i as int].1,
                    i < self@.series.len(),
                    0 <= j <= vn,
                    forall|t: int|
                        0 <= t < j ==> match #[trigger] sr@.values[t] {
                            Some(v) => v.numeric_kind() == Some(sr@.kind),
                            None => true,
                        },
                decreases vn - j,
            {
                match &sr.values[j] {
                    Some(v) => {
                        let ghost vv = v@;
                        proof {
                            assert(sr@.values[j as int] == Some(vv));
                        }
                        match v.numeric_kind() {
                            Some(k2) => {
                                if !(k2 == sr.kind) {
                                    proof {
                                        assert(vv.numeric_kind() == Some(k2));
                                        assert(!self@.series[i as int].1.wf(
                                            self@.timestamps.len() as int,
                                        ));
                                    }
                                    return false;
                                }
                            },
                            None => {
                                proof {
                                    assert(vv.numeric_kind() is None);
                                    assert(!self@.series[i as int].1.wf(
                                        self@.timestamps.len() as int,
                                    ));
                                }
                                return false;
                            },
                        }
                    },
                    None => {},
                }
                j = j + 1;
            }
            let mut t: usize = i + 1;
            while t < n
                invariant
                    n == self.series@.len(),
                    n == self@.series.len(),
                    0 <= i < t <= n,
                    forall|b: int|
                        i < b < t ==> self@.series[i as int].0 != (#[trigger] self@.series[b]).0,
                decreases n - t,
            {
                if self.series[i].0.same(&self.series[t].0) {
                    proof {
                        assert(self@.series[i as int].0 == self@.series[t as int].0);
                    }
                    return false;
                }
                t = t + 1;
            }
            i = i + 1;
        }
        true
    }
}

/// Number of leading markers whose timestamp is at or after `cutoff`.
pub open spec fn prefix_at_or_after(ts: Seq<Marker>, cutoff: u64) -> int
    decreases ts.len(),
{
    if ts.len() == 0 {
        0
    } else if ts[0].0 >= cutoff {
        1 + prefix_at_or_after(ts.drop_first(), cutoff)
    } else {
        0
    }
}

proof fn lemma_prefix_at_or_after_char(ts: Seq<Marker>, cutoff: u64, k: int)
    requires
        0 <= k <= ts.len(),
        forall|i: int| 0 <= i < k ==> #[trigger] ts[i].0 >= cutoff,
        k == ts.len() || ts[k].0 < cutoff,
    ensures
        prefix_at_or_after(ts, cutoff) == k,
    decreases k,
{
    if k == 0 {
        if ts.len() > 0 {
            assert(ts[0].0 < cutoff);
        }
    } else {
        let rest = ts.drop_first();
        assert forall|i: int| 0 <= i < k - 1 implies #[trigger] rest[i].0 >= cutoff by {
            assert(rest[i] == ts[i + 1]);
        }
        if k - 1 < rest.len() {
            assert(rest[k - 1] == ts[k]);
        }
        lemma_prefix_at_or_after_char(rest, cutoff, k - 1);
    }
}

impl Buffer {
    /// Drops, from the tail inward, every marker older than `cutoff`
    /// milliseconds, together with the aligned entry of every value ring;
    /// keys and kinds stay as they are.
    pub fn truncate_by_time(&mut self, cutoff: u64)
        requires
            old(self)@.wf(),
        ensures
            final(self)@.wf(),
            final(self)@.max_len == old(self)@.max_len,
            final(self)@.timestamps == old(self)@.timestamps.take(
                prefix_at_or_after(old(self)@.timestamps, cutoff),
            ),
            forall|i: int|
                0 <= i < final(self)@.timestamps.len() ==> (
                #[trigger] final(self)@.timestamps[i]).0 >= cutoff,
            final(self)@.series.len() == old(self)@.series.len(),
            forall|i: int|
                0 <= i < old(self)@.series.len() ==> #[trigger] final(self)@.series[i] == (
                old(self)@.series[i].0,
                SeriesRingV {
                    kind: old(self)@.series[i].1.kind,
                    values: old(self)@.series[i].1.values.take(
                        prefix_at_or_after(old(self)@.timestamps, cutoff),
                    ),
                },
                ),
    {
        let ghost old_b = self@;
        let n = self.timestamps.len();
        let mut keep: usize = 0;
        while keep < n && self.timestamps[keep].0 >= cutoff
            invariant
                n == self.timestamps@.len(),
                0 <= keep <= n,
                forall|i: int| 0 <= i < keep ==> #[trigger] self.timestamps@[i].0 >= cutoff,
            decreases n - keep,
        {
            keep = keep + 1;
        }
        proof {
            lemma_prefix_at_or_after_char(self.timestamps@, cutoff, keep as int);
        }
        self.timestamps.truncate(keep);
        let n0 = self.series.len();
        let mut i: usize = 0;
        while i < n0
            invariant
                old_b.wf(),
                n0 == old_b.series.len(),
                0 <= i <= n0,
                keep as int == prefix_at_or_after(old_b.timestamps, cutoff),
                keep <= old_b.timestamps.len(),
                self.max_len as int == old_b.max_len,
                self@.timestamps == old_b.timestamps.take(keep as int),
                self@.series.len() == n0,
                forall|k: int|
                    i <= k < n0 ==> #[trigger] self@.series[k] == old_b.series[k],
                forall|k: int|
                    0 <= k < i ==> #[trigger] self@.series[k] == (
                    old_b.series[k].0,
                    SeriesRingV {
                        kind: old_b.series[k].1.kind,
                        values: old_b.series[k].1.values.take(keep as int),
                    },
                    ),
            decreases n0 - i,
        {
            let mut slot: (Key, SeriesRing) = (
                Key::metric(""),
                SeriesRing { kind: ValueKind::Empty, values: VecDeque::new() },
            );
            let ghost pre = self.series@;
            let ghost prev_model = self@.series;
            self.series.set_and_swap(i, &mut slot);
            let (key, mut sr) = slot;
            proof {
                assert(prev_model[i as int] == (pre[i as int].0@, pre[i as int].1@));
                assert(key@ == old_b.series[i as int].0);
                assert(sr@ == old_b.series[i as int].1);
                assert(sr@.values.len() == old_b.timestamps.len());
            }
            sr.values.truncate(keep);
            proof {
                assert(sr@.values =~= old_b.series[i as int].1.values.take(keep as int));
            }
            let mut slot2 = (key, sr);
            self.series.set_and_swap(i, &mut slot2);
            proof {
                assert(self@.series[i as int] == (
                    old_b.series[i as int].0,
                    SeriesRingV {
                        kind: old_b.series[i as int].1.kind,
                        values: old_b.series[i as int].1.values.take(keep as int),
                    },
                ));
                assert forall|k: int| 0 <= k < n0 && k != i implies #[trigger] self@.series[k]
                    == prev_model[k] by {
                    assert(self.series@[k] == pre[k]);
                    assert(prev_model[k] == (pre[k].0@, pre[k].1@));
                }
            }
            i = i + 1;
        }
        proof {
            let fin = self@;
            assert forall|a: int, b: int| 0 <= a < b < fin.timestamps.len() implies (
            #[trigger] fin.timestamps[a]).0 > (#[trigger] fin.timestamps[b]).0 by {
                assert(fin.timestamps[a] == old_b.timestamps[a]);
                assert(fin.timestamps[b] == old_b.timestamps[b]);
            }
            assert forall|k: int| 0 <= k < fin.series.len() implies (
            #[trigger] fin.series[k]).1.wf(fin.timestamps.len() as int) && distinct_names(
                fin.series[k].0,
            ) by {
                assert(old_b.series[k].1.wf(old_b.timestamps.len() as int));
                let tv = old_b.series[k].1.values.take(keep as int);
                assert forall|t: int| 0 <= t < tv.len() implies match #[trigger] tv[t] {
                    Some(v) => v.numeric_kind() == Some(old_b.series[k].1.kind),
                    None => true,
                } by {
                    assert(tv[t] == old_b.series[k].1.values[t]);
                }
            }
        }
    }
}

proof fn lemma_series_push_wf(
    sr: SeriesRingV,
    found: Option<ValueV>,
    old_n: int,
    cap: int,
    new_n: int,
)
    requires
        sr.wf(old_n),
        old_n <= cap,
        cap >= 1,
        new_n == if old_n + 1 <= cap {
            old_n + 1
        } else {
            cap
        },
        match found {
            Some(v) => v.numeric_kind() is Some,
            None => true,
        },
    ensures
        series_push(sr, found, cap).wf(new_n),
{
    let r = series_push(sr, found, cap);
    let s = seq![(match found {
        Some(v) => if v.numeric_kind() == Some(r.kind) {
            Some(v)
        } else {
            None::<ValueV>
        },
        None => None::<ValueV>,
    })] + sr.values;
    assert(r.values.len() == new_n);
    assert forall|i: int| 0 <= i < r.values.len() implies match #[trigger] r.values[i] {
        Some(v) => v.numeric_kind() == Some(r.kind),
        None => true,
    } by {
        assert(r.values[i] == s[i]);
        if i > 0 {
            assert(s[i] == sr.values[i - 1]);
            match sr.values[i - 1] {
                Some(v) => {
                    assert(v.numeric_kind() == Some(sr.kind));
                    assert(sr.kind != ValueKind::Empty);
                    assert(r.kind == sr.kind);
                },
                None => {},
            }
        }
    }
}

proof fn lemma_fresh_series_wf(v: ValueV, n: int)
    requires
        n >= 1,
        v.numeric_kind() is Some,
    ensures
        fresh_series(v, n).wf(n),
{
    let r = fresh_series(v, n);
    assert(r.values.len() == n);
    assert(r.values[0] == Some(v));
    assert forall|i: int| 0 <= i < n implies match #[trigger] r.values[i] {
        Some(vv) => vv.numeric_kind() == Some(r.kind),
        None => true,
    } by {
        if i > 0 {
            assert(r.values[i] == Seq::new((n - 1) as nat, |k: int| None::<ValueV>)[i - 1]);
        }
    }
}

} // verus!
