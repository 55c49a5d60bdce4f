//! The scan loop's decisions: when a tick persists a snapshot, when the
//! rings are truncated at an hour boundary, and how long to sleep so that
//! the cadence self-corrects drift.

use vstd::prelude::*;

verus! {

/// Milliseconds between persisted snapshots.
pub const SNAPSHOT_INTERVAL_MS: u64 = 60000;

/// Milliseconds in one hour.
pub const HOUR_MS: u64 = 3600000;

/// What one scan tick decides: whether to persist a snapshot now, whether
/// this snapshot closes an hour (and carries that hour's label), and where
/// to truncate the rings; plus the bookkeeping carried to the next tick.
#[derive(Debug, PartialEq, Eq, Structural)]
pub struct TickPlan {
    pub store: bool,
    pub snapshot_hour: Option<u64>,
    pub truncate_before: Option<u64>,
    pub next_last_store: u64,
    pub next_last_hourly: u64,
}

/// Decides one tick, from the scan start time and the bookkeeping of the
/// previous tick: a snapshot is due once the interval has passed since the
/// last one; the first snapshot after an hour boundary is labeled with the
/// new hour number and truncates everything older than the boundary.
pub fn plan_tick(start: u64, last_store: u64, last_hourly: u64) -> (r: TickPlan)
    requires
        last_store <= start,
        last_hourly <= start / HOUR_MS,
    ensures
        r.store == (start - last_store > SNAPSHOT_INTERVAL_MS),
        r.next_last_store == if r.store {
            start
        } else {
            last_store
        },
        r.snapshot_hour == if r.store && start / HOUR_MS > last_hourly {
            Some(start / HOUR_MS)
        } else {
            None::<u64>
        },
        r.truncate_before == if r.store && start / HOUR_MS > last_hourly {
            Some((last_hourly * HOUR_MS) as u64)
        } else {
            None::<u64>
        },
        r.next_last_hourly == if r.store && start / HOUR_MS > last_hourly {
            start / HOUR_MS
        } else {
            last_hourly
        },
{
    if start - last_store > SNAPSHOT_INTERVAL_MS {
        let hourly = start / HOUR_MS;
        if hourly > last_hourly {
            proof {
                assert(last_hourly * HOUR_MS <= (start / HOUR_MS) * HOUR_MS <= start) by (nonlinear_arith)
                    requires
                        last_hourly <= start / HOUR_MS,
                        HOUR_MS == 3600000,
                ;
            }
            TickPlan {
                store: true,
                snapshot_hour: Some(hourly),
                truncate_before: Some(last_hourly * HOUR_MS),
                next_last_store: start,
                next_last_hourly: hourly,
            }
        } else {
            TickPlan {
                store: true,
                snapshot_hour: None,
                truncate_before: None,
                next_last_store: start,
                next_last_hourly: last_hourly,
            }
        }
    } else {
        TickPlan {
            store: false,
            snapshot_hour: None,
            truncate_before: None,
            next_last_store: last_store,
            next_last_hourly: last_hourly,
        }
    }
}

/// How long to sleep after a tick so that ticks stay aligned to the
/// interval grid: the time left until the next multiple of `interval_ms`.
/// A slow scan thus shortens the following sleep instead of accumulating
/// permanent lag.
pub fn sleep_remainder(now: u64, interval_ms: u32) -> (r: u64)
    requires
        interval_ms >= 1,
    ensures
        r == interval_ms - now % (interval_ms as u64),
        1 <= r <= interval_ms,
{
    interval_ms as u64 - now % (interval_ms as u64)
}

} // verus!
