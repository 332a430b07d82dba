//! Properties that hold across the decision rules of the torrent state
//! machine.
use crate::disk::{spec_retry_step, RetryStep, BASE_BACKOFF_MS, JITTER_MS};
use crate::state::{
    byte_bit, encodes_bitfield, is_unchoke_ranking, ranks_before, spec_check_completion,
    spec_expand_bitfield, spec_need_queue, unchoke_set, ChokePeer, EffectivePiecePriority,
    TorrentStatus, UPLOAD_SLOTS_DEFAULT,
};
use crate::text::{spec_cap_message, ACTIVITY_MESSAGE_MAX_LEN};
use crate::tracker::{
    after_secs, announce_due, pow2, spec_announce_interval, spec_error_base_interval,
    spec_leeching_interval_from, spec_next_failure_count, spec_peer_backoff_secs,
    spec_seeding_interval_from, spec_tracker_error_backoff, TrackerState, MAX_PEER_BACKOFF_SECS,
    MAX_PEER_FAILURES, MAX_TRACKER_BACKOFF_SECS,
};
use vstd::prelude::*;

verus! {

/// A peer that reads the bitfield we send learns exactly which pieces we have.
pub proof fn law_bitfield_round_trip(bytes: Seq<u8>, done: Seq<bool>)
    requires
        encodes_bitfield(bytes, done),
    ensures
        spec_expand_bitfield(bytes, done.len() as int) == done,
{
    let e = spec_expand_bitfield(bytes, done.len() as int);
    assert forall|i: int| 0 <= i < done.len() implies e[i] == done[i] by {
        assert(8 * bytes.len() >= done.len());
        assert(byte_bit(bytes[i / 8], i % 8) == (i < done.len() && done[i]));
    }
    if done.len() == 0 {
        assert(bytes.len() == 0);
    }
    assert(e =~= done);
}

/// A piece is in the rebuilt need queue exactly when it is not done and not
/// skipped.
pub open spec fn needed(done: Seq<bool>, priorities: Seq<EffectivePiecePriority>, i: int) -> bool {
    !done[i] && !(priorities.len() > 0 && priorities[i] == EffectivePiecePriority::Skip)
}

/// The need queue holds exactly the pieces not done and not skipped, each
/// once, in index order.
pub proof fn law_need_queue_exact(
    done: Seq<bool>,
    priorities: Seq<EffectivePiecePriority>,
    k: int,
)
    requires
        0 <= k <= done.len(),
        k <= u32::MAX,
    ensures
        forall|x: u32|
            #[trigger] spec_need_queue(done, priorities, k).contains(x) <==> (x < k && needed(
                done,
                priorities,
                x as int,
            )),
        forall|a: int, b: int|
            0 <= a < b < spec_need_queue(done, priorities, k).len() ==> #[trigger] spec_need_queue(
                done,
                priorities,
                k,
            )[a] < #[trigger] spec_need_queue(done, priorities, k)[b],
    decreases k,
{
    if k > 0 {
        law_need_queue_exact(done, priorities, k - 1);
        let prev = spec_need_queue(done, priorities, k - 1);
        let q = spec_need_queue(done, priorities, k);
        let last = (k - 1) as u32;
        if needed(done, priorities, k - 1) {
            assert(q =~= prev.push(last));
        } else {
            assert(q =~= prev);
        }
        assert forall|x: u32| #[trigger] q.contains(x) <==> (x < k && needed(
            done,
            priorities,
            x as int,
        )) by {
            if q.contains(x) {
                let t = choose|t: int| 0 <= t < q.len() && q[t] == x;
                if t < prev.len() {
                    assert(prev[t] == x);
                    assert(prev.contains(x));
                }
            }
            if x < k && needed(done, priorities, x as int) {
                if x < k - 1 {
                    assert(prev.contains(x));
                    let t = choose|t: int| 0 <= t < prev.len() && prev[t] == x;
                    assert(q[t] == x);
                } else {
                    assert(q[prev.len() as int] == x);
                }
            }
        }
        assert forall|a: int, b: int| 0 <= a < b < q.len() implies #[trigger] q[a] < #[trigger] q[b] by {
            if b < prev.len() {
                assert(q[a] == prev[a] && q[b] == prev[b]);
            } else {
                assert(q[a] == prev[a]);
                assert(prev.contains(prev[a]));
                assert(q[b] == last);
            }
        }
    }
}

/// Once a torrent is found finished, nothing is left in its need queue.
pub proof fn law_finished_needs_nothing(
    status: TorrentStatus,
    done: Seq<bool>,
    priorities: Seq<EffectivePiecePriority>,
)
    requires
        priorities.len() == 0 || priorities.len() >= done.len(),
        done.len() <= u32::MAX,
        spec_check_completion(status, done, priorities) is Finished,
    ensures
        spec_need_queue(done, priorities, done.len() as int).len() == 0,
{
    law_need_queue_exact(done, priorities, done.len() as int);
    let q = spec_need_queue(done, priorities, done.len() as int);
    if q.len() > 0 {
        assert(q.contains(q[0]));
        let x = q[0] as int;
        assert(needed(done, priorities, x));
    }
}

/// Only interested peers are unchoked, and no more than one per upload slot
/// plus the optimistic one.
pub proof fn law_unchoked_are_interested(
    peers: Seq<ChokePeer>,
    seeding: bool,
    r: Seq<usize>,
    optimistic_due: bool,
    random_seed: u64,
)
    requires
        is_unchoke_ranking(peers, seeding, r),
        r.len() <= usize::MAX,
    ensures
        forall|x: usize|
            #[trigger] unchoke_set(r, optimistic_due, random_seed).contains(x) ==> x < peers.len()
                && peers[x as int].peer_is_interested_in_us,
        unchoke_set(r, optimistic_due, random_seed).finite(),
        unchoke_set(r, optimistic_due, random_seed).len() <= UPLOAD_SLOTS_DEFAULT + 1,
{
    let slots = UPLOAD_SLOTS_DEFAULT as int;
    let n = if r.len() < slots {
        r.len() as int
    } else {
        slots
    };
    let top = Set::new(|x: usize| exists|i: int| 0 <= i < r.len() && i < slots && r[i] == x);
    let head = r.take(n);
    assert(top =~= head.to_set()) by {
        assert forall|x: usize| top.contains(x) <==> head.to_set().contains(x) by {
            if top.contains(x) {
                let i = choose|i: int| 0 <= i < r.len() && i < slots && r[i] == x;
                assert(head[i] == x);
            }
            if head.to_set().contains(x) {
                let i = choose|i: int| 0 <= i < head.len() && head[i] == x;
                assert(r[i] == x);
            }
        }
    }
    head.lemma_cardinality_of_set();
    assert forall|x: usize| #[trigger] top.contains(x) implies x < peers.len()
        && peers[x as int].peer_is_interested_in_us by {
        let i = choose|i: int| 0 <= i < r.len() && i < slots && r[i] == x;
        assert(r.contains(r[i]));
    }
    if optimistic_due && r.len() > slots {
        let rest = (r.len() - slots) as usize;
        let pick = (random_seed as usize) % rest;
        assert(pick < rest);
        let k = slots + pick as int;
        assert(r.contains(r[k]));
    }
}

/// With at least one interested peer per upload slot and no optimistic
/// unchoke due, exactly one peer per upload slot is unchoked.
pub proof fn law_unchoke_fills_slots(
    peers: Seq<ChokePeer>,
    seeding: bool,
    r: Seq<usize>,
    random_seed: u64,
)
    requires
        is_unchoke_ranking(peers, seeding, r),
        r.len() >= UPLOAD_SLOTS_DEFAULT,
    ensures
        unchoke_set(r, false, random_seed).len() == UPLOAD_SLOTS_DEFAULT,
{
    let slots = UPLOAD_SLOTS_DEFAULT as int;
    let head = r.take(slots);
    let top = unchoke_set(r, false, random_seed);
    assert(top =~= head.to_set()) by {
        assert forall|x: usize| top.contains(x) <==> head.to_set().contains(x) by {
            if top.contains(x) {
                let i = choose|i: int| 0 <= i < r.len() && i < slots && r[i] == x;
                assert(head[i] == x);
            }
            if head.to_set().contains(x) {
                let i = choose|i: int| 0 <= i < head.len() && head[i] == x;
                assert(r[i] == x);
            }
        }
    }
    assert(head.no_duplicates()) by {
        assert forall|i: int, j: int| 0 <= i < head.len() && 0 <= j < head.len() && i != j implies head[i]
            != head[j] by {
            if i < j {
                assert(ranks_before(peers, seeding, r[i] as int, r[j] as int));
            } else {
                assert(ranks_before(peers, seeding, r[j] as int, r[i] as int));
            }
        }
    }
    head.unique_seq_to_set();
}

/// A tracker that has just been announced to is not due again until its
/// interval has passed (when the interval is not zero).
pub proof fn law_announce_once_per_interval(t: TrackerState, now_ms: u64, seeding: bool)
    requires
        announce_due(t, now_ms),
        spec_announce_interval(t, seeding) > 0,
        after_secs(now_ms, spec_announce_interval(t, seeding)) <= u64::MAX,
    ensures
        ({
            let next = TrackerState {
                next_announce_time: after_secs(now_ms, spec_announce_interval(t, seeding)) as u64,
                ..t
            };
            &&& !announce_due(next, now_ms)
            &&& announce_due(next, (next.next_announce_time) as u64)
        }),
{
}

/// After a tracker's answer it is not announced to again at the same moment:
/// both intervals it leaves are at least a second.
pub proof fn law_response_defers_announce(interval: u64, min_interval: Option<u64>)
    requires
        interval < u64::MAX,
        min_interval matches Some(m) ==> m < u64::MAX,
    ensures
        spec_seeding_interval_from(interval) >= 1,
        spec_leeching_interval_from(min_interval) >= 1,
{
}

/// The wait after a failed announce is never more than an hour, and never
/// less than the interval it doubles (up to that hour).
pub proof fn law_tracker_backoff_bounded(t: TrackerState, seeding: bool)
    ensures
        spec_tracker_error_backoff(t, seeding) <= MAX_TRACKER_BACKOFF_SECS,
        spec_tracker_error_backoff(t, seeding) >= if spec_error_base_interval(t, seeding)
            < MAX_TRACKER_BACKOFF_SECS {
            spec_error_base_interval(t, seeding)
        } else {
            MAX_TRACKER_BACKOFF_SECS
        },
{
}

/// However often a peer fails, its failure count stays at most ten and its
/// wait between fifteen seconds and half an hour.
pub proof fn law_peer_backoff_bounded(previous: u32)
    ensures
        1 <= spec_next_failure_count(previous) <= MAX_PEER_FAILURES,
        15 <= spec_peer_backoff_secs(spec_next_failure_count(previous)) <= MAX_PEER_BACKOFF_SECS,
{
    let c = spec_next_failure_count(previous);
    assert(pow2((c - 1) as nat) >= 1) by {
        lemma_pow2_positive((c - 1) as nat);
    }
}

proof fn lemma_pow2_positive(e: nat)
    ensures
        pow2(e) >= 1,
    decreases e,
{
    if e > 0 {
        lemma_pow2_positive((e - 1) as nat);
    }
}

/// A status line never exceeds the maximum length, and a short one is kept
/// as it is.
pub proof fn law_status_line_fits(m: Seq<char>)
    ensures
        spec_cap_message(m).len() <= ACTIVITY_MESSAGE_MAX_LEN,
        m.len() <= ACTIVITY_MESSAGE_MAX_LEN ==> spec_cap_message(m) == m,
{
}

proof fn lemma_disk_pow2_step(e: nat)
    ensures
        crate::disk::pow2(e + 1) == 2 * crate::disk::pow2(e),
        crate::disk::pow2(e) >= 1,
    decreases e,
{
    if e > 0 {
        lemma_disk_pow2_step((e - 1) as nat);
    }
}

proof fn lemma_disk_pow2_grows(a: nat, b: nat)
    requires
        a < b,
    ensures
        crate::disk::pow2(b) >= 2 * crate::disk::pow2(a),
    decreases b,
{
    lemma_disk_pow2_step(a);
    lemma_disk_pow2_step((b - 1) as nat);
    if a + 1 < b {
        lemma_disk_pow2_grows(a, (b - 1) as nat);
    }
}

proof fn lemma_disk_pow2_upto_40(e: nat)
    requires
        e <= 40,
    ensures
        crate::disk::pow2(e) <= 1099511627776,
    decreases 40 - e,
{
    if e < 40 {
        lemma_disk_pow2_upto_40(e + 1);
        lemma_disk_pow2_step(e);
    } else {
        reveal_with_fuel(crate::disk::pow2, 41);
    }
}

/// A disk retry gives up exactly past the attempt limit, and each later
/// retry waits longer than an earlier one, whatever jitter either drew.
pub proof fn law_retry_backoff_grows(a: u32, b: u32, max_attempts: u32, ja: u64, jb: u64)
    requires
        1 <= a < b <= max_attempts <= 40,
        ja <= JITTER_MS,
        jb <= JITTER_MS,
    ensures
        spec_retry_step(a, max_attempts, ja) is Wait,
        spec_retry_step(b, max_attempts, jb) is Wait,
        spec_retry_step(a, max_attempts, ja)->delay_ms < spec_retry_step(b, max_attempts, jb)->delay_ms,
        spec_retry_step((max_attempts + 1) as u32, max_attempts, ja) == RetryStep::GiveUp,
{
    lemma_disk_pow2_grows(a as nat, b as nat);
    lemma_disk_pow2_step(a as nat);
    lemma_disk_pow2_upto_40(b as nat);
    lemma_disk_pow2_upto_40(a as nat);
    let pa = crate::disk::pow2(a as nat);
    let pb = crate::disk::pow2(b as nat);
    assert(BASE_BACKOFF_MS * pb >= BASE_BACKOFF_MS * pa + 1000) by (nonlinear_arith)
        requires
            pb >= 2 * pa,
            pa >= 1,
    ;
    assert(BASE_BACKOFF_MS * pb <= 1099511627776000) by (nonlinear_arith)
        requires
            pb <= 1099511627776,
    ;
}

} // verus!
