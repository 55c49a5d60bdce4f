//! Sample markers and the reconciliation of a freshly scanned batch of
//! markers against an existing newest-first ring.

use vstd::prelude::*;
use std::collections::VecDeque;

verus! {

/// A sample marker: wall-clock timestamp in milliseconds at scan start,
/// paired with the scan duration in milliseconds.
pub type Marker = (u64, u32);

/// True when the timestamps of `s` are strictly decreasing (newest first,
/// no duplicate timestamps).
pub open spec fn strictly_newest_first(s: Seq<Marker>) -> bool {
    forall|i: int, j: int| 0 <= i < j < s.len() ==> #[trigger] s[i].0 > #[trigger] s[j].0
}

/// Number of leading entries of `new` whose timestamp is strictly newer
/// than `head_ts`.
pub open spec fn prefix_newer(new: Seq<Marker>, head_ts: u64) -> int
    decreases new.len(),
{
    if new.len() == 0 {
        0
    } else if new[0].0 > head_ts {
        1 + prefix_newer(new.drop_first(), head_ts)
    } else {
        0
    }
}

/// Number of consecutive leading positions at which `new` and `old` carry
/// the same timestamp.
pub open spec fn overlap_run(new: Seq<Marker>, old: Seq<Marker>) -> int
    decreases new.len(),
{
    if new.len() == 0 || old.len() == 0 {
        0
    } else if new[0].0 == old[0].0 {
        1 + overlap_run(new.drop_first(), old.drop_first())
    } else {
        0
    }
}

/// Count of markers in `new` that are strictly newer than the newest entry
/// of `old` and must be prepended verbatim.
pub open spec fn new_count(new: Seq<Marker>, old: Seq<Marker>) -> int {
    prefix_newer(new, old[0].0)
}

/// Count of entries of `new` that are either strictly new or re-confirm the
/// existing ring position-for-position from the overlap point on.
pub open spec fn valid_count(new: Seq<Marker>, old: Seq<Marker>) -> int {
    new_count(new, old) + overlap_run(new.skip(new_count(new, old)), old)
}

proof fn lemma_prefix_newer_char(new: Seq<Marker>, head_ts: u64, np: int)
    requires
        0 <= np <= new.len(),
        forall|k: int| 0 <= k < np ==> #[trigger] new[k].0 > head_ts,
        np == new.len() || new[np].0 <= head_ts,
    ensures
        prefix_newer(new, head_ts) == np,
    decreases np,
{
    if np == 0 {
        if new.len() > 0 {
            assert(new[0].0 <= head_ts);
        }
    } else {
        assert(new[0].0 > head_ts);
        let rest = new.drop_first();
        assert forall|k: int| 0 <= k < np - 1 implies #[trigger] rest[k].0 > head_ts by {
            assert(rest[k] == new[k + 1]);
        }
        if np - 1 < rest.len() {
            assert(rest[np - 1] == new[np]);
        }
        lemma_prefix_newer_char(rest, head_ts, np - 1);
    }
}

proof fn lemma_overlap_run_char(new: Seq<Marker>, old: Seq<Marker>, j: int)
    requires
        0 <= j <= new.len(),
        j <= old.len(),
        forall|k: int| 0 <= k < j ==> #[trigger] new[k].0 == old[k].0,
        j == new.len() || j == old.len() || new[j].0 != old[j].0,
    ensures
        overlap_run(new, old) == j,
    decreases j,
{
    if j == 0 {
        if new.len() > 0 && old.len() > 0 {
            assert(new[0].0 != old[0].0);
        }
    } else {
        assert(new[0].0 == old[0].0);
        let rn = new.drop_first();
        let ro = old.drop_first();
        assert forall|k: int| 0 <= k < j - 1 implies #[trigger] rn[k].0 == ro[k].0 by {
            assert(rn[k] == new[k + 1]);
            assert(ro[k] == old[k + 1]);
        }
        if j - 1 < rn.len() && j - 1 < ro.len() {
            assert(rn[j - 1] == new[j]);
            assert(ro[j - 1] == old[j]);
        }
        lemma_overlap_run_char(rn, ro, j - 1);
    }
}

proof fn lemma_prefix_newer_le_len(new: Seq<Marker>, head_ts: u64)
    ensures
        0 <= prefix_newer(new, head_ts) <= new.len(),
    decreases new.len(),
{
    if new.len() > 0 && new[0].0 > head_ts {
        lemma_prefix_newer_le_len(new.drop_first(), head_ts);
    }
}

proof fn lemma_overlap_run_le_len(new: Seq<Marker>, old: Seq<Marker>)
    ensures
        0 <= overlap_run(new, old) <= new.len(),
        overlap_run(new, old) <= old.len(),
    decreases new.len(),
{
    if new.len() > 0 && old.len() > 0 && new[0].0 == old[0].0 {
        lemma_overlap_run_le_len(new.drop_first(), old.drop_first());
    }
}

/// Merges an incoming batch `new` of sample markers, ordered newest first,
/// against the existing ring `old`, also newest first. Returns
/// `(new_count, valid_count)`: the number of leading entries of `new`
/// strictly newer than `old`'s newest entry, and, continuing from the
/// overlap point, how many entries of `new` in total are consistent with
/// the existing ring (strictly-new entries plus consecutive
/// position-for-position timestamp re-confirmations, stopped at the first
/// mismatch).
pub fn compare_timestamps(new: &Vec<Marker>, old: &VecDeque<Marker>) -> (r: (u64, usize))
    requires
        old.len() > 0,
    ensures
        r.0 == new_count(new@, old@),
        r.1 == valid_count(new@, old@),
{
    let last_ots = old[0].0;
    let mut np: usize = 0;
    while np < new.len() && new[np].0 > last_ots
        invariant
            old@.len() > 0,
            0 <= np <= new@.len(),
            last_ots == old@[0].0,
            forall|k: int| 0 <= k < np ==> #[trigger] new@[k].0 > last_ots,
        decreases new@.len() - np,
    {
        np = np + 1;
    }
    proof {
        lemma_prefix_newer_char(new@, last_ots, np as int);
    }
    let mut run: usize = 0;
    while run < new.len() - np && run < old.len() && new[np + run].0 == old[run].0
        invariant
            old@.len() > 0,
            0 <= np <= new@.len(),
            np == new_count(new@, old@),
            0 <= run,
            np + run <= new@.len(),
            run <= old@.len(),
            forall|k: int| 0 <= k < run ==> #[trigger] new@[np + k].0 == old@[k].0,
        decreases new@.len() - np - run,
    {
        run = run + 1;
    }
    proof {
        let tail = new@.skip(np as int);
        assert forall|k: int| 0 <= k < run implies #[trigger] tail[k].0 == old@[k].0 by {
            assert(tail[k] == new@[np + k]);
        }
        if (run as int) < tail.len() && (run as int) < old@.len() {
            assert(tail[run as int] == new@[np + run]);
        }
        lemma_overlap_run_char(tail, old@, run as int);
    }
    (np as u64, np + run)
}

/// Bounds on the reconciliation result: the count of strictly-new markers
/// never exceeds the batch length, and the count of consistent markers
/// never exceeds the batch length nor the strictly-new count plus the ring
/// length.
pub proof fn lemma_compare_timestamps_bounds(new: Seq<Marker>, old: Seq<Marker>)
    requires
        old.len() > 0,
        strictly_newest_first(new),
    ensures
        new_count(new, old) <= new.len(),
        valid_count(new, old) <= new.len(),
        valid_count(new, old) <= new_count(new, old) + old.len(),
{
    lemma_prefix_newer_le_len(new, old[0].0);
    let np = new_count(new, old);
    lemma_overlap_run_le_len(new.skip(np), old);
}

} // verus!
