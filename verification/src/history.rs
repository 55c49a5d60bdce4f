//! The retention tiers owned by the engine and the operations of one scan
//! tick: the instantaneous tip, the full-resolution fine ring and the
//! long-retention coarse ring.

use vstd::prelude::*;

use crate::keys::{distinct_names, Key, KeyView};
use crate::ring::{batch_lookup, batch_views, batch_wf, fresh_entries, ring_push, series_push, Buffer, BufferV, SeriesRing, SeriesRingV};
use crate::tstamp::Marker;
use crate::values::{Value, ValueKind, ValueV};

verus! {

/// Model of the tip tier: the marker of the latest scan and the most recent
/// value per key.
#[verifier::ext_equal]
pub struct TipV {
    pub latest: Option<Marker>,
    pub values: Seq<(KeyView, ValueV)>,
}

impl TipV {
    /// Keys are well formed and pairwise distinct.
    pub open spec fn wf(self) -> bool {
        &&& forall|i: int|
            0 <= i < self.values.len() ==> distinct_names((#[trigger] self.values[i]).0)
        &&& forall|i: int, j: int|
            0 <= i < j < self.values.len() ==> (#[trigger] self.values[i]).0 != (
            #[trigger] self.values[j]).0
    }
}

/// A batch fit for the tip: well-formed, pairwise-distinct keys; state
/// values are as welcome as numeric ones.
pub open spec fn tip_batch_wf(batch: Seq<(KeyView, ValueV)>) -> bool {
    &&& forall|i: int, j: int|
        0 <= i < j < batch.len() ==> (#[trigger] batch[i]).0 != (#[trigger] batch[j]).0
    &&& forall|i: int| 0 <= i < batch.len() ==> distinct_names((#[trigger] batch[i]).0)
}

/// The tip tier: the single most recent value per key, no ring.
#[derive(Debug)]
pub struct Tip {
    pub latest: Option<Marker>,
    pub values: Vec<(Key, Value)>,
}

impl View for Tip {
    type V = TipV;

    open spec fn view(&self) -> TipV {
        TipV { latest: self.latest, values: batch_views(self.values@) }
    }
}

proof fn lemma_lookup_push(values: Seq<(KeyView, ValueV)>, k: KeyView, v: ValueV, q: KeyView)
    ensures
        batch_lookup(values.push((k, v)), q) == match batch_lookup(values, q) {
            Some(x) => Some(x),
            None => if q == k {
                Some(v)
            } else {
                None::<ValueV>
            },
        },
    decreases values.len(),
{
    let p = values.push((k, v));
    if values.len() == 0 {
        assert(p[0] == (k, v));
        assert(p.drop_first() =~= Seq::<(KeyView, ValueV)>::empty());
    } else {
        assert(p[0] == values[0]);
        assert(p.drop_first() =~= values.drop_first().push((k, v)));
        lemma_lookup_push(values.drop_first(), k, v, q);
    }
}

proof fn lemma_lookup_none(values: Seq<(KeyView, ValueV)>, q: KeyView)
    requires
        forall|i: int| 0 <= i < values.len() ==> (#[trigger] values[i]).0 != q,
    ensures
        batch_lookup(values, q) is None,
    decreases values.len(),
{
    if values.len() > 0 {
        let rest = values.drop_first();
        assert forall|i: int| 0 <= i < rest.len() implies (#[trigger] rest[i]).0 != q by {
            assert(rest[i] == values[i + 1]);
        }
        lemma_lookup_none(rest, q);
    }
}

proof fn lemma_lookup_update(values: Seq<(KeyView, ValueV)>, idx: int, v: ValueV, q: KeyView)
    requires
        0 <= idx < values.len(),
        forall|i: int, j: int|
            0 <= i < j < values.len() ==> (#[trigger] values[i]).0 != (#[trigger] values[j]).0,
    ensures
        batch_lookup(values.update(idx, (values[idx].0, v)), q) == if q == values[idx].0 {
            Some(v)
        } else {
            batch_lookup(values, q)
        },
    decreases values.len(),
{
    let u = values.update(idx, (values[idx].0, v));
    if idx == 0 {
        assert(u[0] == (values[0].0, v));
        assert(u.drop_first() =~= values.drop_first());
    } else {
        assert(u[0] == values[0]);
        assert(values[0].0 != values[idx].0);
        let rest = values.drop_first();
        assert(u.drop_first() =~= rest.update(idx - 1, (rest[idx - 1].0, v)));
        assert forall|i: int, j: int| 0 <= i < j < rest.len() implies (#[trigger] rest[i]).0 != (
        #[trigger] rest[j]).0 by {
            assert(rest[i] == values[i + 1]);
            assert(rest[j] == values[j + 1]);
        }
        lemma_lookup_update(rest, idx - 1, v, q);
    }
}

impl Tip {
    /// An empty tip.
    pub fn new() -> (r: Tip)
        ensures
            r@.wf(),
            r@.latest is None,
            r@.values.len() == 0,
    {
        let r = Tip { latest: None, values: Vec::new() };
        proof {
            assert(r@.values =~= Seq::<(KeyView, ValueV)>::empty());
        }
        r
    }

    /// First index carrying `key`, if any.
    fn find(&self, key: &Key) -> (r: Option<usize>)
        ensures
            match r {
                Some(j) => j < self@.values.len() && self@.values[j as int].0 == key@,
                None => forall|i: int|
                    0 <= i < self@.values.len() ==> (#[trigger] self@.values[i]).0 != key@,
            },
    {
        let n = self.values.len();
        let mut i: usize = 0;
        while i < n
            invariant
                n == self.values@.len(),
                0 <= i <= n,
                forall|k: int| 0 <= k < i ==> (#[trigger] self@.values[k]).0 != key@,
                forall|k: int|
                    0 <= k < n ==> #[trigger] self@.values[k] == (
                    self.values@[k].0@,
                    self.values@[k].1@,
                    ),
            decreases n - i,
        {
            if self.values[i].0.same(key) {
                return Some(i);
            }
            i = i + 1;
        }
        None
    }

    /// One scan tick: the marker becomes the latest one, and every batch
    /// value replaces (or introduces) its key's most recent value; keys not
    /// seen this tick keep their last value.
    pub fn push(&mut self, marker: Marker, batch: &Vec<(Key, Value)>)
        requires
            old(self)@.wf(),
            tip_batch_wf(batch_views(batch@)),
        ensures
            final(self)@.wf(),
            final(self)@.latest == Some(marker),
            forall|q: KeyView|
                batch_lookup(final(self)@.values, q) == match batch_lookup(
                    batch_views(batch@),
                    q,
                ) {
                    Some(v) => Some(v),
                    None => batch_lookup(old(self)@.values, q),
                },
    {
        let ghost old_t = self@;
        let ghost bviews = batch_views(batch@);
        proof {
            assert(forall|k: int|
                0 <= k < bviews.len() ==> #[trigger] bviews[k] == (batch@[k].0@, batch@[k].1@));
            assert(bviews.take(0) =~= Seq::<(KeyView, ValueV)>::empty());
        }
        self.latest = Some(marker);
        let m = batch.len();
        let mut j: usize = 0;
        while j < m
            invariant
                old_t.wf(),
                tip_batch_wf(bviews),
                bviews == batch_views(batch@),
                bviews.len() == batch@.len(),
                m == batch@.len(),
                0 <= j <= m,
                forall|k: int|
                    0 <= k < bviews.len() ==> #[trigger] bviews[k] == (batch@[k].0@, batch@[k].1@),
                self@.latest == Some(marker),
                self@.wf(),
                forall|q: KeyView|
                    #[trigger] batch_lookup(self@.values, q) == match batch_lookup(
                        bviews.take(j as int),
                        q,
                    ) {
                        Some(v) => Some(v),
                        None => batch_lookup(old_t.values, q),
                    },
            decreases m - j,
        {
            proof {
                assert(bviews.take(j + 1).drop_last() =~= bviews.take(j as int));
                assert(bviews.take(j + 1) =~= bviews.take(j as int).push(bviews[j as int]));
            }
            let ghost prev = self@.values;
            let idx = self.find(&batch[j].0);
            match idx {
                Some(t) => {
                    let mut slot: (Key, Value) = (Key::metric(""), Value::Counter(0));
                    let ghost pre = self.values@;
                    self.values.set_and_swap(t, &mut slot);
                    let (key, _old_v) = slot;
                    let mut slot2 = (key, batch[j].1.dup());
                    self.values.set_and_swap(t, &mut slot2);
                    proof {
                        assert(prev[t as int] == (pre[t as int].0@, pre[t as int].1@));
                        assert(self@.values =~= prev.update(
                            t as int,
                            (prev[t as int].0, bviews[j as int].1),
                        ));
                        assert(prev[t as int].0 == bviews[j as int].0);
                        assert forall|i: int| 0 <= i < j implies (#[trigger] bviews.take(
                            j as int,
                        )[i]).0 != bviews[j as int].0 by {
                            assert(bviews.take(j as int)[i] == bviews[i]);
                        }
                        lemma_lookup_none(bviews.take(j as int), bviews[j as int].0);
                        assert forall|q: KeyView| #[trigger] batch_lookup(self@.values, q)
                            == match batch_lookup(bviews.take(j + 1), q) {
                            Some(v) => Some(v),
                            None => batch_lookup(old_t.values, q),
                        } by {
                            lemma_lookup_update(prev, t as int, bviews[j as int].1, q);
                            lemma_lookup_push(bviews.take(j as int), bviews[j as int].0, bviews[j as int].1, q);
                        }
                    }
                },
                None => {
                    let key = batch[j].0.dup();
                    let v = batch[j].1.dup();
                    self.values.push((key, v));
                    proof {
                        assert(self@.values =~= prev.push((bviews[j as int].0, bviews[j as int].1)));
                        lemma_lookup_none(prev, bviews[j as int].0);
                        assert forall|i: int| 0 <= i < j implies (#[trigger] bviews.take(
                            j as int,
                        )[i]).0 != bviews[j as int].0 by {
                            assert(bviews.take(j as int)[i] == bviews[i]);
                        }
                        lemma_lookup_none(bviews.take(j as int), bviews[j as int].0);
                        assert forall|q: KeyView| #[trigger] batch_lookup(self@.values, q)
                            == match batch_lookup(bviews.take(j + 1), q) {
                            Some(v2) => Some(v2),
                            None => batch_lookup(old_t.values, q),
                        } by {
                            lemma_lookup_push(prev, bviews[j as int].0, bviews[j as int].1, q);
                            lemma_lookup_push(bviews.take(j as int), bviews[j as int].0, bviews[j as int].1, q);
                        }
                        assert forall|a: int, b: int| 0 <= a < b < self@.values.len() implies (
                        #[trigger] self@.values[a]).0 != (#[trigger] self@.values[b]).0 by {
                            if b == self@.values.len() - 1 {
                                assert(self@.values[a] == prev[a]);
                                assert(prev[a].0 != bviews[j as int].0);
                            } else {
                                assert(self@.values[a] == prev[a]);
                                assert(self@.values[b] == prev[b]);
                            }
                        }
                    }
                },
            }
            j = j + 1;
        }
        proof {
            assert(bviews.take(m as int) =~= bviews);
        }
    }
}

/// The numeric values of a batch, in batch order; state values are left to
/// the tip.
pub open spec fn numeric_part(batch: Seq<(KeyView, ValueV)>) -> Seq<(KeyView, ValueV)>
    decreases batch.len(),
{
    if batch.len() == 0 {
        Seq::empty()
    } else {
        let rest = numeric_part(batch.drop_last());
        if batch.last().1.numeric_kind() is Some {
            rest.push(batch.last())
        } else {
            rest
        }
    }
}

proof fn lemma_numeric_part_wf(batch: Seq<(KeyView, ValueV)>)
    requires
        tip_batch_wf(batch),
    ensures
        batch_wf(numeric_part(batch)),
        forall|k: int|
            0 <= k < numeric_part(batch).len() ==> exists|jj: int|
                0 <= jj < batch.len() && #[trigger] numeric_part(batch)[k] == batch[jj],
    decreases batch.len(),
{
    if batch.len() > 0 {
        let prev = batch.drop_last();
        lemma_numeric_part_wf(prev);
        let f = numeric_part(batch);
        let fp = numeric_part(prev);
        assert forall|k: int| 0 <= k < f.len() implies exists|jj: int|
            0 <= jj < batch.len() && #[trigger] f[k] == batch[jj] by {
            if k < fp.len() {
                let jj = choose|jj: int| 0 <= jj < prev.len() && #[trigger] fp[k] == prev[jj];
                assert(prev[jj] == batch[jj]);
                assert(f[k] == batch[jj]);
            } else {
                assert(f[k] == batch[batch.len() - 1]);
            }
        }
        assert forall|k1: int, k2: int| 0 <= k1 < k2 < f.len() implies (#[trigger] f[k1]).0 != (
        #[trigger] f[k2]).0 by {
            let j1 = choose|jj: int| 0 <= jj < batch.len() && #[trigger] f[k1] == batch[jj];
            if k2 < fp.len() {
                assert(f[k1] == fp[k1] && f[k2] == fp[k2]);
            } else {
                let j1p = choose|jj: int| 0 <= jj < prev.len() && #[trigger] fp[k1] == prev[jj];
                assert(prev[j1p] == batch[j1p]);
                assert(batch[j1p].0 != batch.last().0);
            }
        }
    }
}

/// Model of the whole retained history.
#[verifier::ext_equal]
pub struct HistoryV {
    pub tip: TipV,
    pub fine: BufferV,
    pub coarse: BufferV,
}

impl HistoryV {
    pub open spec fn wf(self) -> bool {
        &&& self.tip.wf()
        &&& self.fine.wf()
        &&& self.coarse.wf()
    }
}

/// The engine's retained history: the instantaneous tip, the
/// full-resolution fine ring and the long-retention, downsampled coarse
/// ring.
#[derive(Debug)]
pub struct History {
    pub tip: Tip,
    pub fine: Buffer,
    pub coarse: Buffer,
}

impl View for History {
    type V = HistoryV;

    open spec fn view(&self) -> HistoryV {
        HistoryV { tip: self.tip@, fine: self.fine@, coarse: self.coarse@ }
    }
}

/// One key's stored fine-ring segment, as a typed columnar chunk. A `Float`
/// entry carries the IEEE-754 bit pattern of the stored reading.
#[derive(Debug)]
pub enum HistoryChunk {
    Empty,
    Counters(Vec<Option<u64>>),
    Integers(Vec<Option<i64>>),
    Floats(Vec<Option<u64>>),
}

impl View for HistoryChunk {
    type V = SeriesRingV;

    open spec fn view(&self) -> SeriesRingV {
        match self {
            HistoryChunk::Empty => SeriesRingV {
                kind: ValueKind::Empty,
                values: Seq::empty(),
            },
            HistoryChunk::Counters(v) => SeriesRingV {
                kind: ValueKind::Counter,
                values: v@.map_values(
                    |o: Option<u64>|
                        match o {
                            Some(x) => Some(ValueV::Counter(x)),
                            None => None::<ValueV>,
                        },
                ),
            },
            HistoryChunk::Integers(v) => SeriesRingV {
                kind: ValueKind::Integer,
                values: v@.map_values(
                    |o: Option<i64>|
                        match o {
                            Some(x) => Some(ValueV::Integer(x)),
                            None => None::<ValueV>,
                        },
                ),
            },
            HistoryChunk::Floats(v) => SeriesRingV {
                kind: ValueKind::Float,
                values: v@.map_values(
                    |o: Option<u64>|
                        match o {
                            Some(x) => Some(ValueV::Float(x)),
                            None => None::<ValueV>,
                        },
                ),
            },
        }
    }
}

impl HistoryChunk {
    /// At most the `limit` newest entries of the chunk.
    pub fn take(self, limit: usize) -> (r: HistoryChunk)
        ensures
            r@.kind == self@.kind,
            r@.values == if self@.values.len() <= limit {
                self@.values
            } else {
                self@.values.take(limit as int)
            },
    {
        match self {
            HistoryChunk::Empty => {
                proof {
                    assert(Seq::<Option<ValueV>>::empty().len() <= limit);
                }
                HistoryChunk::Empty
            },
            HistoryChunk::Counters(mut v) => {
                let ghost orig = v@;
                if v.len() > limit {
                    v.truncate(limit);
                    proof {
                        assert(v@.map_values(
                            |o: Option<u64>|
                                match o {
                                    Some(x) => Some(ValueV::Counter(x)),
                                    None => None::<ValueV>,
                                },
                        ) =~= orig.map_values(
                            |o: Option<u64>|
                                match o {
                                    Some(x) => Some(ValueV::Counter(x)),
                                    None => None::<ValueV>,
                                },
                        ).take(limit as int));
                    }
                }
                HistoryChunk::Counters(v)
            },
            HistoryChunk::Integers(mut v) => {
                let ghost orig = v@;
                if v.len() > limit {
                    v.truncate(limit);
                    proof {
                        assert(v@.map_values(
                            |o: Option<i64>|
                                match o {
                                    Some(x) => Some(ValueV::Integer(x)),
                                    None => None::<ValueV>,
                                },
                        ) =~= orig.map_values(
                            |o: Option<i64>|
                                match o {
                                    Some(x) => Some(ValueV::Integer(x)),
                                    None => None::<ValueV>,
                                },
                        ).take(limit as int));
                    }
                }
                HistoryChunk::Integers(v)
            },
            HistoryChunk::Floats(mut v) => {
                let ghost orig = v@;
                if v.len() > limit {
                    v.truncate(limit);
                    proof {
                        assert(v@.map_values(
                            |o: Option<u64>|
                                match o {
                                    Some(x) => Some(ValueV::Float(x)),
                                    None => None::<ValueV>,
                                },
                        ) =~= orig.map_values(
                            |o: Option<u64>|
                                match o {
                                    Some(x) => Some(ValueV::Float(x)),
                                    None => None::<ValueV>,
                                },
                        ).take(limit as int));
                    }
                }
                HistoryChunk::Floats(v)
            },
        }
    }
}

/// Converts one stored series ring into its typed columnar chunk.
pub(crate) fn chunk_of_series(sr: &SeriesRing) -> (r: HistoryChunk)
    requires
        forall|i: int|
            0 <= i < sr@.values.len() ==> match #[trigger] sr@.values[i] {
                Some(v) => v.numeric_kind() == Some(sr@.kind),
                None => true,
            },
    ensures
        sr@.kind == ValueKind::Empty ==> r@.kind == ValueKind::Empty && r@.values.len() == 0,
        sr@.kind != ValueKind::Empty ==> r@ == sr@,
{
    let n = sr.values.len();
    match sr.kind {
        ValueKind::Empty => {
            proof {
                assert forall|i: int| 0 <= i < sr@.values.len() implies #[trigger] sr@.values[i]
                    is None by {
                    match sr@.values[i] {
                        Some(v) => {
                            assert(v.numeric_kind() == Some(ValueKind::Empty));
                            assert(false);
                        },
                        None => {},
                    }
                }
            }
            HistoryChunk::Empty
        },
        ValueKind::Counter => {
            let mut out: Vec<Option<u64>> = Vec::new();
            let mut i: usize = 0;
            while i < n
                invariant
                    n == sr.values@.len(),
                    0 <= i <= n,
                    out@.len() == i,
                    forall|k: int|
                        0 <= k < sr@.values.len() ==> match #[trigger] sr@.values[k] {
                            Some(v) => v.numeric_kind() == Some(ValueKind::Counter),
                            None => true,
                        },
                    sr@.kind == ValueKind::Counter,
                    forall|k: int|
                        0 <= k < i ==> (match #[trigger] out@[k] {
                            Some(x) => Some(ValueV::Counter(x)),
                            None => None::<ValueV>,
                        }) == sr@.values[k],
                decreases n - i,
            {
                match &sr.values[i] {
                    Some(Value::Counter(x)) => out.push(Some(*x)),
                    _ => {
                        proof {
                            assert(sr@.values[i as int] is None);
                        }
                        out.push(None);
                    },
                }
                i = i + 1;
            }
            let r = HistoryChunk::Counters(out);
            proof {
                assert(r@.values =~= sr@.values);
            }
            r
        },
        ValueKind::Integer => {
            let mut out: Vec<Option<i64>> = Vec::new();
            let mut i: usize = 0;
            while i < n
                invariant
                    n == sr.values@.len(),
                    0 <= i <= n,
                    out@.len() == i,
                    forall|k: int|
                        0 <= k < sr@.values.len() ==> match #[trigger] sr@.values[k] {
                            Some(v) => v.numeric_kind() == Some(ValueKind::Integer),
                            None => true,
                        },
                    sr@.kind == ValueKind::Integer,
                    forall|k: int|
                        0 <= k < i ==> (match #[trigger] out@[k] {
                            Some(x) => Some(ValueV::Integer(x)),
                            None => None::<ValueV>,
                        }) == sr@.values[k],
                decreases n - i,
            {
                match &sr.values[i] {
                    Some(Value::Integer(x)) => out.push(Some(*x)),
                    _ => {
                        proof {
                            assert(sr@.values[i as int] is None);
                        }
                        out.push(None);
                    },
                }
                i = i + 1;
            }
            let r = HistoryChunk::Integers(out);
            proof {
                assert(r@.values =~= sr@.values);
            }
            r
        },
        ValueKind::Float => {
            let mut out: Vec<Option<u64>> = Vec::new();
            let mut i: usize = 0;
            while i < n
                invariant
                    n == sr.values@.len(),
                    0 <= i <= n,
                    out@.len() == i,
                    forall|k: int|
                        0 <= k < sr@.values.len() ==> match #[trigger] sr@.values[k] {
                            Some(v) => v.numeric_kind() == Some(ValueKind::Float),
                            None => true,
                        },
                    sr@.kind == ValueKind::Float,
                    forall|k: int|
                        0 <= k < i ==> (match #[trigger] out@[k] {
                            Some(x) => Some(ValueV::Float(x)),
                            None => None::<ValueV>,
                        }) == sr@.values[k],
                decreases n - i,
            {
                match &sr.values[i] {
                    Some(Value::Float(x)) => out.push(Some(*x)),
                    _ => {
                        proof {
                            assert(sr@.values[i as int] is None);
                        }
                        out.push(None);
                    },
                }
                i = i + 1;
            }
            let r = HistoryChunk::Floats(out);
            proof {
                assert(r@.values =~= sr@.values);
            }
            r
        },
    }
}

impl History {
    /// An empty history whose fine ring keeps at most `fine_cap` samples and
    /// whose coarse ring keeps at most `coarse_cap`.
    pub fn new(fine_cap: usize, coarse_cap: usize) -> (r: History)
        requires
            fine_cap >= 1,
            coarse_cap >= 1,
        ensures
            r@.wf(),
            r@.tip.latest is None,
            r@.tip.values.len() == 0,
            r@.fine.timestamps.len() == 0,
            r@.fine.series.len() == 0,
            r@.fine.max_len == fine_cap,
            r@.coarse.timestamps.len() == 0,
            r@.coarse.series.len() == 0,
            r@.coarse.max_len == coarse_cap,
    {
        History { tip: Tip::new(), fine: Buffer::new(fine_cap), coarse: Buffer::new(coarse_cap) }
    }

    /// One scan tick: every value reaches the tip; the numeric ones also
    /// move into the fine ring, each under its key, aligned with the new
    /// marker. The coarse ring is left to its own, coarser cadence.
    pub fn push(&mut self, marker: Marker, batch: &Vec<(Key, Value)>)
        requires
            old(self)@.wf(),
            tip_batch_wf(batch_views(batch@)),
            old(self)@.fine.timestamps.len() == 0 || marker.0 > old(self)@.fine.timestamps[0].0,
        ensures
            final(self)@.wf(),
            final(self)@.coarse == old(self)@.coarse,
            final(self)@.tip.latest == Some(marker),
            forall|q: KeyView|
                batch_lookup(final(self)@.tip.values, q) == match batch_lookup(
                    batch_views(batch@),
                    q,
                ) {
                    Some(v) => Some(v),
                    None => batch_lookup(old(self)@.tip.values, q),
                },
            final(self)@.fine.max_len == old(self)@.fine.max_len,
            final(self)@.fine.timestamps == ring_push(
                old(self)@.fine.timestamps,
                marker,
                old(self)@.fine.max_len,
            ),
            forall|i: int|
                0 <= i < old(self)@.fine.series.len() ==> #[trigger] final(self)@.fine.series[i]
                    == (
                old(self)@.fine.series[i].0,
                series_push(
                    old(self)@.fine.series[i].1,
                    batch_lookup(
                        numeric_part(batch_views(batch@)),
                        old(self)@.fine.series[i].0,
                    ),
                    old(self)@.fine.max_len,
                ),
                ),
            final(self)@.fine.series.skip(old(self)@.fine.series.len() as int) == fresh_entries(
                numeric_part(batch_views(batch@)),
                old(self)@.fine.series,
                final(self)@.fine.timestamps.len() as int,
            ),
    {
        let ghost bviews = batch_views(batch@);
        proof {
            assert(forall|k: int|
                0 <= k < bviews.len() ==> #[trigger] bviews[k] == (batch@[k].0@, batch@[k].1@));
            assert(bviews.take(0) =~= Seq::<(KeyView, ValueV)>::empty());
            assert(numeric_part(bviews.take(0)) =~= Seq::<(KeyView, ValueV)>::empty());
        }
        self.tip.push(marker, batch);
        // Keep only the numeric values for the ring tier.
        let m = batch.len();
        let mut numeric: Vec<(Key, Value)> = Vec::new();
        let mut j: usize = 0;
        while j < m
            invariant
                m == batch@.len(),
                0 <= j <= m,
                bviews == batch_views(batch@),
                bviews.len() == m,
                forall|k: int|
                    0 <= k < bviews.len() ==> #[trigger] bviews[k] == (batch@[k].0@, batch@[k].1@),
                batch_views(numeric@) == numeric_part(bviews.take(j as int)),
            decreases m - j,
        {
            proof {
                assert(bviews.take(j + 1).drop_last() =~= bviews.take(j as int));
                assert(bviews.take(j + 1).last() == bviews[j as int]);
            }
            let ghost before = batch_views(numeric@);
            match batch[j].1.numeric_kind() {
                Some(_) => {
                    numeric.push((batch[j].0.dup(), batch[j].1.dup()));
                    proof {
                        assert(batch_views(numeric@) =~= before.push(bviews[j as int]));
                    }
                },
                None => {},
            }
            j = j + 1;
        }
        proof {
            assert(bviews.take(m as int) =~= bviews);
            lemma_numeric_part_wf(bviews);
        }
        self.fine.push(marker, &numeric);
    }

    /// Drops every marker (and each aligned value) older than `cutoff`
    /// milliseconds from both ring tiers.
    pub fn truncate_by_time(&mut self, cutoff: u64)
        requires
            old(self)@.wf(),
        ensures
            final(self)@.wf(),
            final(self)@.tip == old(self)@.tip,
            final(self)@.fine.max_len == old(self)@.fine.max_len,
            final(self)@.coarse.max_len == old(self)@.coarse.max_len,
            final(self)@.fine.timestamps == old(self)@.fine.timestamps.take(
                crate::ring::prefix_at_or_after(old(self)@.fine.timestamps, cutoff),
            ),
            final(self)@.coarse.timestamps == old(self)@.coarse.timestamps.take(
                crate::ring::prefix_at_or_after(old(self)@.coarse.timestamps, cutoff),
            ),
            forall|i: int|
                0 <= i < final(self)@.fine.timestamps.len() ==> (
                #[trigger] final(self)@.fine.timestamps[i]).0 >= cutoff,
            final(self)@.fine.series.len() == old(self)@.fine.series.len(),
            forall|i: int|
                0 <= i < old(self)@.fine.series.len() ==> #[trigger] final(self)@.fine.series[i]
                    == (
                old(self)@.fine.series[i].0,
                SeriesRingV {
                    kind: old(self)@.fine.series[i].1.kind,
                    values: old(self)@.fine.series[i].1.values.take(
                        crate::ring::prefix_at_or_after(old(self)@.fine.timestamps, cutoff),
                    ),
                },
                ),
    {
        self.fine.truncate_by_time(cutoff);
        self.coarse.truncate_by_time(cutoff);
    }

    /// Whether this history satisfies the engine's invariants. Every history
    /// built by this library does; one decoded from an untrusted snapshot
    /// must be asked before it is adopted, and discarded whole when the
    /// answer is no.
    pub fn validate(&self) -> (b: bool)
        ensures
            b == self@.wf(),
    {
        let n = self.tip.values.len();
        let mut i: usize = 0;
        while i < n
            invariant
                n == self.tip.values@.len(),
                n == self@.tip.values.len(),
                0 <= i <= n,
                forall|t: int|
                    0 <= t < i ==> distinct_names((#[trigger] self@.tip.values[t]).0),
                forall|a: int, b: int|
                    0 <= a < b < n && a < i ==> (#[trigger] self@.tip.values[a]).0 != (
                    #[trigger] self@.tip.values[b]).0,
            decreases n - i,
        {
            if !self.tip.values[i].0.is_wf() {
                proof {
                    assert(!distinct_names(self@.tip.values[i as int].0));
                }
                return false;
            }
            let mut t: usize = i + 1;
            while t < n
                invariant
                    n == self.tip.values@.len(),
                    n == self@.tip.values.len(),
                    0 <= i < t <= n,
                    forall|b: int|
                        i < b < t ==> self@.tip.values[i as int].0 != (
                        #[trigger] self@.tip.values[b]).0,
                decreases n - t,
            {
                if self.tip.values[i].0.same(&self.tip.values[t].0) {
                    proof {
                        assert(self@.tip.values[i as int].0 == self@.tip.values[t as int].0);
                    }
                    return false;
                }
                t = t + 1;
            }
            i = i + 1;
        }
        if !self.fine.validate() {
            return false;
        }
        if !self.coarse.validate() {
            return false;
        }
        true
    }

    /// The stored fine history of `key` as a typed chunk, or `None` when
    /// the fine tier does not know the key.
    pub fn get_fine_history(&self, key: &Key) -> (r: Option<HistoryChunk>)
        requires
            self@.wf(),
        ensures
            match r {
                Some(chunk) => exists|i: int|
                    {
                        &&& 0 <= i < self@.fine.series.len()
                        &&& (#[trigger] self@.fine.series[i]).0 == key@
                        &&& if self@.fine.series[i].1.kind == ValueKind::Empty {
                            chunk@.kind == ValueKind::Empty && chunk@.values.len() == 0
                        } else {
                            chunk@ == self@.fine.series[i].1
                        }
                    },
                None => forall|i: int|
                    0 <= i < self@.fine.series.len() ==> (#[trigger] self@.fine.series[i]).0
                        != key@,
            },
    {
        let n = self.fine.series.len();
        let mut i: usize = 0;
        while i < n
            invariant
                self@.wf(),
                n == self.fine.series@.len(),
                0 <= i <= n,
                forall|k: int| 0 <= k < i ==> (#[trigger] self@.fine.series[k]).0 != key@,
            decreases n - i,
        {
            if self.fine.series[i].0.same(key) {
                proof {
                    assert(self@.fine.series[i as int].1.wf(self@.fine.timestamps.len() as int));
                }
                let chunk = chunk_of_series(&self.fine.series[i].1);
                return Some(chunk);
            }
            i = i + 1;
        }
        None
    }
}

} // verus!

