//! Tracker announce timing and peer reconnection backoff.
//!
//! Times are milliseconds on the manager's monotonic clock; intervals are
//! whole seconds, as trackers report them.
use vstd::prelude::*;

verus! {

/// The announce interval used until a tracker has told us its own.
pub const DEFAULT_ANNOUNCE_INTERVAL_SECS: u64 = 60;

/// The seeding interval assumed when a tracker reports an interval of zero.
pub const DEFAULT_SEEDING_INTERVAL_SECS: u64 = 1800;

/// The longest wait after a failed announce.
pub const MAX_TRACKER_BACKOFF_SECS: u64 = 3600;

/// The most failures counted for one peer address.
pub const MAX_PEER_FAILURES: u32 = 10;

/// The longest wait before dialing a failed peer again.
pub const MAX_PEER_BACKOFF_SECS: u64 = 1800;

/// When a tracker is due next, and the intervals it asked for.
#[derive(Debug, Clone, Copy, PartialEq, Eq)]
pub struct TrackerState {
    /// Milliseconds on the manager's clock.
    pub next_announce_time: u64,
    /// Seconds between announces while downloading, once the tracker said.
    pub leeching_interval: Option<u64>,
    /// Seconds between announces while seeding, once the tracker said.
    pub seeding_interval: Option<u64>,
}

/// The interval (seconds) to wait before the next regular announce.
pub open spec fn spec_announce_interval(t: TrackerState, seeding: bool) -> u64 {
    if seeding {
        match t.seeding_interval {
            Some(s) => s,
            None => DEFAULT_ANNOUNCE_INTERVAL_SECS,
        }
    } else {
        match t.leeching_interval {
            Some(s) => s,
            None => DEFAULT_ANNOUNCE_INTERVAL_SECS,
        }
    }
}

/// A tracker is due once the clock reaches its announce time.
pub open spec fn announce_due(t: TrackerState, now_ms: u64) -> bool {
    now_ms >= t.next_announce_time
}

/// The deadline `secs` seconds after `now_ms`.
pub open spec fn after_secs(now_ms: u64, secs: u64) -> int {
    now_ms + secs * 1000
}

/// The interval (seconds) to wait before the next regular announce.
pub fn announce_interval(t: &TrackerState, seeding: bool) -> (secs: u64)
    ensures
        secs == spec_announce_interval(*t, seeding),
{
    let chosen = if seeding {
        t.seeding_interval
    } else {
        t.leeching_interval
    };
    match chosen {
        Some(s) => s,
        None => DEFAULT_ANNOUNCE_INTERVAL_SECS,
    }
}

/// A clock tick for one tracker: when it is due, schedules the next announce
/// one interval later and answers `true` (announce now); otherwise leaves it
/// as it is and answers `false`.
pub fn tick_tracker(tracker: &mut TrackerState, now_ms: u64, seeding: bool) -> (announce: bool)
    requires
        announce_due(*old(tracker), now_ms) ==> after_secs(
            now_ms,
            spec_announce_interval(*old(tracker), seeding),
        ) <= u64::MAX,
    ensures
        announce == announce_due(*old(tracker), now_ms),
        announce ==> *final(tracker) == (TrackerState {
            next_announce_time: after_secs(
                now_ms,
                spec_announce_interval(*old(tracker), seeding),
            ) as u64,
            ..*old(tracker)
        }),
        !announce ==> *final(tracker) == *old(tracker),
{
    if now_ms >= tracker.next_announce_time {
        let secs = announce_interval(tracker, seeding);
        tracker.next_announce_time = now_ms + secs * 1000;
        true
    } else {
        false
    }
}

/// A tracker after a clock tick: rescheduled one interval ahead when due,
/// unchanged otherwise.
pub open spec fn spec_ticked(t: TrackerState, now_ms: u64, seeding: bool) -> TrackerState {
    if announce_due(t, now_ms) {
        TrackerState {
            next_announce_time: after_secs(now_ms, spec_announce_interval(t, seeding)) as u64,
            ..t
        }
    } else {
        t
    }
}

/// The positions of the first `k` trackers that are due, in order.
pub open spec fn due_positions(trackers: Seq<TrackerState>, now_ms: u64, k: int) -> Seq<usize>
    decreases k,
{
    if k <= 0 {
        seq![]
    } else {
        let prev = due_positions(trackers, now_ms, k - 1);
        if announce_due(trackers[k - 1], now_ms) {
            prev.push((k - 1) as usize)
        } else {
            prev
        }
    }
}

/// A clock tick for all trackers of a torrent: nothing happens while it is
/// validating or paused; otherwise every tracker that is due is rescheduled
/// and its position listed for an announce.
pub fn tick_trackers(
    trackers: &mut Vec<TrackerState>,
    now_ms: u64,
    seeding: bool,
    validating: bool,
    paused: bool,
) -> (announce: Vec<usize>)
    requires
        forall|i: int|
            0 <= i < old(trackers)@.len() && announce_due(#[trigger] old(trackers)@[i], now_ms)
                ==> after_secs(now_ms, spec_announce_interval(old(trackers)@[i], seeding))
                <= u64::MAX,
    ensures
        validating || paused ==> final(trackers)@ == old(trackers)@ && announce@.len() == 0,
        !(validating || paused) ==> {
            &&& final(trackers)@.len() == old(trackers)@.len()
            &&& forall|i: int|
                0 <= i < old(trackers)@.len() ==> #[trigger] final(trackers)@[i] == spec_ticked(
                    old(trackers)@[i],
                    now_ms,
                    seeding,
                )
            &&& announce@ == due_positions(old(trackers)@, now_ms, old(trackers)@.len() as int)
        },
{
    let mut announce: Vec<usize> = Vec::new();
    if validating || paused {
        return announce;
    }
    let ghost before = trackers@;
    let n = trackers.len();
    let mut i: usize = 0;
    while i < n
        invariant
            n == before.len(),
            trackers@.len() == n,
            0 <= i <= n,
            forall|j: int|
                0 <= j < n && announce_due(#[trigger] before[j], now_ms) ==> after_secs(
                    now_ms,
                    spec_announce_interval(before[j], seeding),
                ) <= u64::MAX,
            forall|j: int| 0 <= j < i ==> #[trigger] trackers@[j] == spec_ticked(before[j], now_ms, seeding),
            forall|j: int| i <= j < n ==> #[trigger] trackers@[j] == before[j],
            announce@ == due_positions(before, now_ms, i as int),
        decreases n - i,
    {
        let mut t = trackers[i];
        assert(t == before[i as int]);
        let due = tick_tracker(&mut t, now_ms, seeding);
        trackers.set(i, t);
        if due {
            announce.push(i);
        }
        i = i + 1;
    }
    announce
}

/// The seeding interval a tracker response asks for: one second more than
/// its `interval`, or the default when that is zero.
pub open spec fn spec_seeding_interval_from(interval: u64) -> u64 {
    if interval > 0 {
        (interval + 1) as u64
    } else {
        DEFAULT_SEEDING_INTERVAL_SECS
    }
}

/// The leeching interval a tracker response asks for: one second more than
/// its `min interval`, or the default when it has none.
pub open spec fn spec_leeching_interval_from(min_interval: Option<u64>) -> u64 {
    match min_interval {
        Some(m) => (m + 1) as u64,
        None => DEFAULT_ANNOUNCE_INTERVAL_SECS,
    }
}

/// Records the intervals a tracker answered with and schedules the next
/// announce by the one that fits the current state.
pub fn apply_tracker_response(
    tracker: &mut TrackerState,
    now_ms: u64,
    seeding: bool,
    interval: u64,
    min_interval: Option<u64>,
)
    requires
        interval < u64::MAX,
        min_interval matches Some(m) ==> m < u64::MAX,
        after_secs(
            now_ms,
            if seeding {
                spec_seeding_interval_from(interval)
            } else {
                spec_leeching_interval_from(min_interval)
            },
        ) <= u64::MAX,
    ensures
        final(tracker).seeding_interval == Some(spec_seeding_interval_from(interval)),
        final(tracker).leeching_interval == Some(spec_leeching_interval_from(min_interval)),
        final(tracker).next_announce_time == after_secs(
            now_ms,
            if seeding {
                spec_seeding_interval_from(interval)
            } else {
                spec_leeching_interval_from(min_interval)
            },
        ),
{
    let seeding_secs = if interval > 0 {
        interval + 1
    } else {
        DEFAULT_SEEDING_INTERVAL_SECS
    };
    let leeching_secs = match min_interval {
        Some(m) => m + 1,
        None => DEFAULT_ANNOUNCE_INTERVAL_SECS,
    };
    tracker.seeding_interval = Some(seeding_secs);
    tracker.leeching_interval = Some(leeching_secs);
    let next = if seeding {
        seeding_secs
    } else {
        leeching_secs
    };
    tracker.next_announce_time = now_ms + next * 1000;
}

/// The interval a failed announce is measured against: the one the tracker
/// asked for, else one minute while downloading and half an hour while seeding.
pub open spec fn spec_error_base_interval(t: TrackerState, seeding: bool) -> u64 {
    if seeding {
        match t.seeding_interval {
            Some(s) => s,
            None => DEFAULT_SEEDING_INTERVAL_SECS,
        }
    } else {
        match t.leeching_interval {
            Some(s) => s,
            None => DEFAULT_ANNOUNCE_INTERVAL_SECS,
        }
    }
}

/// The wait (seconds) after a failed announce: twice the current interval,
/// at most an hour.
pub open spec fn spec_tracker_error_backoff(t: TrackerState, seeding: bool) -> u64 {
    let doubled = 2 * spec_error_base_interval(t, seeding);
    if doubled < MAX_TRACKER_BACKOFF_SECS {
        doubled as u64
    } else {
        MAX_TRACKER_BACKOFF_SECS
    }
}

/// A failed announce: the tracker is tried again after twice its current
/// interval, at most an hour later; its intervals stay as they were.
pub fn apply_tracker_error(tracker: &mut TrackerState, now_ms: u64, seeding: bool)
    requires
        after_secs(now_ms, spec_tracker_error_backoff(*old(tracker), seeding)) <= u64::MAX,
    ensures
        *final(tracker) == (TrackerState {
            next_announce_time: after_secs(
                now_ms,
                spec_tracker_error_backoff(*old(tracker), seeding),
            ) as u64,
            ..*old(tracker)
        }),
{
    let base = if seeding {
        match tracker.seeding_interval {
            Some(s) => s,
            None => DEFAULT_SEEDING_INTERVAL_SECS,
        }
    } else {
        match tracker.leeching_interval {
            Some(s) => s,
            None => DEFAULT_ANNOUNCE_INTERVAL_SECS,
        }
    };
    let backoff = if base < MAX_TRACKER_BACKOFF_SECS / 2 {
        2 * base
    } else {
        MAX_TRACKER_BACKOFF_SECS
    };
    tracker.next_announce_time = now_ms + backoff * 1000;
}

/// `2^e`.
pub open spec fn pow2(e: nat) -> nat
    decreases e,
{
    if e == 0 {
        1
    } else {
        2 * pow2((e - 1) as nat)
    }
}

/// The failure count after one more failure, capped.
pub open spec fn spec_next_failure_count(previous: u32) -> u32 {
    if previous + 1 < MAX_PEER_FAILURES {
        (previous + 1) as u32
    } else {
        MAX_PEER_FAILURES
    }
}

/// The wait (seconds) before dialing a peer that has failed `count` times in
/// a row: fifteen seconds, doubled with each further failure, at most half an
/// hour.
pub open spec fn spec_peer_backoff_secs(count: u32) -> u64 {
    let raw = 15 * pow2((count - 1) as nat);
    if raw < MAX_PEER_BACKOFF_SECS {
        raw as u64
    } else {
        MAX_PEER_BACKOFF_SECS
    }
}

/// One more failed connection to a peer that had failed `previous` times
/// before: the new failure count, and when (milliseconds on the manager's
/// clock) it may be dialed again.
pub fn record_peer_failure(previous: u32, now_ms: u64) -> (res: (u32, u64))
    requires
        previous < u32::MAX,
        now_ms + 1000 * spec_peer_backoff_secs(spec_next_failure_count(previous)) <= u64::MAX,
    ensures
        res.0 == spec_next_failure_count(previous),
        res.1 == now_ms + 1000 * spec_peer_backoff_secs(res.0),
{
    let count = if previous + 1 < MAX_PEER_FAILURES {
        previous + 1
    } else {
        MAX_PEER_FAILURES
    };
    let mut raw: u64 = 15;
    let mut k: u32 = 1;
    while k < count
        invariant
            1 <= k <= count <= MAX_PEER_FAILURES,
            raw == 15 * pow2((k - 1) as nat),
        decreases count - k,
    {
        proof {
            assert(pow2(k as nat) == 2 * pow2((k - 1) as nat));
            lemma_pow2_bound((k - 1) as nat);
        }
        raw = raw * 2;
        k = k + 1;
    }
    let secs = if raw < MAX_PEER_BACKOFF_SECS {
        raw
    } else {
        MAX_PEER_BACKOFF_SECS
    };
    (count, now_ms + 1000 * secs)
}

proof fn lemma_pow2_bound(e: nat)
    requires
        e < 10,
    ensures
        pow2(e) <= 512,
    decreases e,
{
    reveal_with_fuel(pow2, 11);
    if e > 0 {
        lemma_pow2_bound((e - 1) as nat);
    }
}

/// A peer address on backoff is not dialed before its next attempt time.
pub open spec fn spec_backoff_blocks(backoff: Option<(u32, u64)>, now_ms: u64) -> bool {
    match backoff {
        Some((_, next_attempt)) => now_ms < next_attempt,
        None => false,
    }
}

/// Whether a peer with this backoff entry (failure count, next attempt time)
/// must be left alone at `now_ms`.
pub fn backoff_blocks(backoff: Option<(u32, u64)>, now_ms: u64) -> (blocked: bool)
    ensures
        blocked == spec_backoff_blocks(backoff, now_ms),
{
    match backoff {
        Some((_, next_attempt)) => now_ms < next_attempt,
        None => false,
    }
}

} // verus!
