//! The integer figures of a torrent's periodic metrics report.
use vstd::prelude::*;

verus! {

/// Pieces reported as completed: during validation, those found so far;
/// otherwise all pieces but the remaining ones.
pub fn pieces_completed(
    validating: bool,
    validation_found: u32,
    total_pieces: u32,
    pieces_remaining: u32,
) -> (n: u32)
    requires
        !validating ==> pieces_remaining <= total_pieces,
    ensures
        n == if validating {
            validation_found as int
        } else {
            total_pieces - pieces_remaining
        },
{
    if validating {
        validation_found
    } else {
        total_pieces - pieces_remaining
    }
}

/// Bytes on disk: the whole torrent once every piece is done, else a full
/// piece per completed piece.
pub fn bytes_written(completed: u32, total_pieces: u32, total_size: u64, piece_length: u64) -> (b: u64)
    requires
        completed != total_pieces ==> completed * piece_length <= u64::MAX,
    ensures
        b == if completed == total_pieces {
            total_size as int
        } else {
            completed * piece_length
        },
{
    if completed == total_pieces {
        total_size
    } else {
        completed as u64 * piece_length
    }
}

/// The bytes not yet done: the total less a full piece per done piece (the
/// product stopping at `u64::MAX`), never below zero.
pub open spec fn spec_bytes_remaining(total_size: u64, piece_length: u64, done_pieces: u64) -> int {
    let completed = if piece_length * done_pieces <= u64::MAX {
        piece_length * done_pieces
    } else {
        u64::MAX as int
    };
    if total_size > completed {
        total_size - completed
    } else {
        0
    }
}

/// Seconds until the download finishes at the current speed: zero when
/// nothing remains, `None` (unbounded) when nothing is arriving, else the
/// bits still missing over the speed in bits per second.
pub open spec fn spec_eta_secs(
    pieces_remaining: usize,
    dl_speed_bps: u64,
    total_size: u64,
    piece_length: u64,
    done_pieces: u64,
) -> Option<u64> {
    if pieces_remaining == 0 {
        Some(0)
    } else if dl_speed_bps == 0 {
        None
    } else {
        Some((spec_bytes_remaining(total_size, piece_length, done_pieces) * 8 / (
        dl_speed_bps as int)) as u64)
    }
}

/// Seconds until the download finishes at the current speed.
pub fn eta_secs(
    pieces_remaining: usize,
    dl_speed_bps: u64,
    total_size: u64,
    piece_length: u64,
    done_pieces: u64,
) -> (eta: Option<u64>)
    requires
        pieces_remaining > 0 && dl_speed_bps > 0 ==> spec_bytes_remaining(
            total_size,
            piece_length,
            done_pieces,
        ) * 8 <= u64::MAX,
    ensures
        eta == spec_eta_secs(pieces_remaining, dl_speed_bps, total_size, piece_length, done_pieces),
{
    if pieces_remaining == 0 {
        return Some(0);
    }
    if dl_speed_bps == 0 {
        return None;
    }
    let completed = match piece_length.checked_mul(done_pieces) {
        Some(c) => c,
        None => u64::MAX,
    };
    let remaining = total_size.saturating_sub(completed);
    Some((remaining * 8) / dl_speed_bps)
}

/// Milliseconds until the next tracker is due (zero when one is overdue),
/// or `None` when there are no trackers.
pub open spec fn spec_next_announce_in(next_times: Seq<u64>, now_ms: u64) -> Option<u64> {
    if next_times.len() == 0 {
        None
    } else {
        let m = seq_min(next_times);
        Some(if m > now_ms {
            (m - now_ms) as u64
        } else {
            0
        })
    }
}

/// The smallest entry of a non-empty sequence.
pub open spec fn seq_min(s: Seq<u64>) -> u64
    decreases s.len(),
{
    if s.len() <= 1 {
        s[0]
    } else {
        let rest = seq_min(s.drop_last());
        if s.last() < rest {
            s.last()
        } else {
            rest
        }
    }
}

/// Milliseconds until the next tracker is due.
pub fn next_announce_in(next_times: &[u64], now_ms: u64) -> (wait: Option<u64>)
    ensures
        wait == spec_next_announce_in(next_times@, now_ms),
{
    if next_times.len() == 0 {
        return None;
    }
    let mut m = next_times[0];
    let mut i: usize = 1;
    while i < next_times.len()
        invariant
            1 <= i <= next_times@.len(),
            m == seq_min(next_times@.take(i as int)),
        decreases next_times@.len() - i,
    {
        proof {
            assert(next_times@.take(i + 1).drop_last() =~= next_times@.take(i as int));
        }
        if next_times[i] < m {
            m = next_times[i];
        }
        i = i + 1;
    }
    assert(next_times@.take(next_times@.len() as int) =~= next_times@);
    Some(m.saturating_sub(now_ms))
}

} // verus!
