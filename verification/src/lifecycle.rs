//! Smaller steps of a torrent's life: starting up, receiving metadata,
//! verified and written pieces, and deletion.
use crate::assign::{
    block_open, law_piece_requests_are_fresh, local_block_count, local_block_len, piece_picks,
    spec_request,
};
use crate::geometry::FileRoot;
use crate::block_manager::{BlockManager, BLOCK_SIZE};
use crate::state::TorrentStatus;
use vstd::prelude::*;

verus! {

/// Whether the trackers are announced to when the manager starts: not when
/// paused; otherwise when asked to, or when the metadata is still missing.
pub fn announce_on_start(is_paused: bool, announce_immediately: bool, awaiting_metadata: bool) -> (announce: bool)
    ensures
        announce == (!is_paused && (announce_immediately || awaiting_metadata)),
{
    !is_paused && (announce_immediately || awaiting_metadata)
}

/// The number of pieces once the metadata is in: one per v1 hash when the
/// torrent has them, else the v2 piece count.
pub fn piece_count_from_metadata(v1_hashes_len: usize, v2_piece_count: u32) -> (n: usize)
    ensures
        n == if v1_hashes_len > 0 {
            (v1_hashes_len / 20) as int
        } else {
            v2_piece_count as int
        },
{
    if v1_hashes_len > 0 {
        v1_hashes_len / 20
    } else {
        v2_piece_count as usize
    }
}

/// A peer's bitfield fitted to `n` pieces: cut, or padded with `false`.
pub open spec fn spec_fit_bitfield(bits: Seq<bool>, n: int) -> Seq<bool> {
    Seq::new(n as nat, |i: int| i < bits.len() && bits[i])
}

/// Fits a peer's bitfield to the number of pieces.
pub fn fit_bitfield(bits: &mut Vec<bool>, n: usize)
    ensures
        final(bits)@ == spec_fit_bitfield(old(bits)@, n as int),
{
    let mut out: Vec<bool> = Vec::new();
    let mut i: usize = 0;
    while i < n
        invariant
            0 <= i <= n,
            out@ == spec_fit_bitfield(bits@, n as int).take(i as int),
        decreases n - i,
    {
        let b = i < bits.len() && bits[i];
        out.push(b);
        i = i + 1;
        assert(out@ =~= spec_fit_bitfield(bits@, n as int).take(i as int));
    }
    assert(out@ =~= spec_fit_bitfield(bits@, n as int));
    *bits = out;
}

/// What a verification result leads to.
#[derive(Debug, Clone, Copy, PartialEq, Eq)]
pub enum VerifiedOutcome {
    /// The piece index is out of range: nothing happens.
    Ignored,
    /// Valid, but we have the piece already: the data is dropped and the
    /// peer is given new work.
    Redundant,
    /// Valid and needed: the piece is written to disk.
    Write,
    /// Invalid: the piece's assembly is reset and the peer is dropped.
    Reject,
}

/// What a verification result for piece `piece_index` leads to, given the
/// number of pieces and whether the piece is done already.
pub fn piece_verified_outcome(piece_index: u32, num_pieces: usize, valid: bool, already_done: bool) -> (o: VerifiedOutcome)
    ensures
        o == if piece_index as int >= num_pieces {
            VerifiedOutcome::Ignored
        } else if !valid {
            VerifiedOutcome::Reject
        } else if already_done {
            VerifiedOutcome::Redundant
        } else {
            VerifiedOutcome::Write
        },
{
    if piece_index as usize >= num_pieces {
        VerifiedOutcome::Ignored
    } else if !valid {
        VerifiedOutcome::Reject
    } else if already_done {
        VerifiedOutcome::Redundant
    } else {
        VerifiedOutcome::Write
    }
}

/// One more failed write of a piece: the failures counted so far, plus one,
/// without overflowing.
pub fn count_write_failure(previous: Option<u32>) -> (count: u32)
    ensures
        count == match previous {
            Some(c) => if c < u32::MAX {
                (c + 1) as u32
            } else {
                u32::MAX
            },
            None => 1,
        },
{
    match previous {
        Some(c) => c.saturating_add(1),
        None => 1,
    }
}

/// The cancellations sent to other peers once piece `p` is written: one per
/// block of the piece, as (piece, offset in the piece, length), the way the
/// blocks were requested.
pub open spec fn spec_cancel_batch(bm: BlockManager, p: u32) -> Seq<(u32, u32, u32)> {
    Seq::new(
        local_block_count(bm, p) as nat,
        |k: int| (p, (k * BLOCK_SIZE) as u32, local_block_len(bm, p, k) as u32),
    )
}

/// The block cancellations for a piece that is now written.
pub fn cancel_batch(bm: &BlockManager, piece_index: u32) -> (batch: Vec<(u32, u32, u32)>)
    ensures
        batch@ == spec_cancel_batch(*bm, piece_index),
{
    let size = bm.calculate_piece_size(piece_index) as u64;
    let n: u64 = (size + 16383) / 16384;
    let mut batch: Vec<(u32, u32, u32)> = Vec::new();
    let mut k: u64 = 0;
    while k < n
        invariant
            size == bm.spec_piece_size(piece_index),
            n == local_block_count(*bm, piece_index),
            0 <= k <= n,
            batch@ == spec_cancel_batch(*bm, piece_index).take(k as int),
        decreases n - k,
    {
        proof {
            assert(k * 16384 < size) by (nonlinear_arith)
                requires
                    k < n,
                    n == (size + 16383) / 16384,
            ;
        }
        let offset = k * 16384;
        let left = size - offset;
        let len = if left < 16384 {
            left
        } else {
            16384
        };
        batch.push((piece_index, offset as u32, len as u32));
        k = k + 1;
        proof {
            assert(batch@ =~= spec_cancel_batch(*bm, piece_index).take(k as int));
        }
    }
    proof {
        assert(spec_cancel_batch(*bm, piece_index).take(n as int) =~= spec_cancel_batch(
            *bm,
            piece_index,
        ));
    }
    batch
}

/// Once a piece is written, the cancellations sent for it cover every block
/// request that could have been made for it (for a piece without a v2 size
/// limit, whose requests are never clamped).
pub proof fn law_cancels_cover_requests(
    bm: BlockManager,
    roots: Map<u32, FileRoot>,
    piece_len: u64,
    p: u32,
    active: Seq<(u32, u32, u32)>,
)
    requires
        !roots.contains_key(p),
    ensures
        forall|i: int|
            0 <= i < piece_picks(bm, roots, piece_len, p, active, local_block_count(bm, p)).len()
                ==> spec_cancel_batch(bm, p).contains(
                #[trigger] piece_picks(bm, roots, piece_len, p, active, local_block_count(bm, p))[i],
            ),
{
    let n = local_block_count(bm, p);
    let picks = piece_picks(bm, roots, piece_len, p, active, n);
    law_piece_requests_are_fresh(bm, roots, piece_len, p, active, n);
    assert forall|i: int| 0 <= i < picks.len() implies spec_cancel_batch(bm, p).contains(
        #[trigger] picks[i],
    ) by {
        let r = picks[i];
        let k = choose|k: int|
            0 <= k < n && block_open(bm, p, k) && r == spec_request(bm, roots, piece_len, p, k);
        assert(spec_cancel_batch(bm, p)[k] == r);
    }
}

/// Who is told once validation finishes.
#[derive(Debug, Clone, Copy, PartialEq, Eq)]
pub enum ValidationAnnounce {
    /// Nobody: the torrent is paused.
    Quiet,
    /// The first announce: peers are fetched from the trackers.
    ConnectFromTrackers,
    /// Every tracker gets a regular announce.
    AnnounceAll,
}

/// Who is told once validation finishes: nobody while paused, otherwise the
/// trackers, by a first announce when none was made yet.
pub fn validation_announce(is_paused: bool, started_announce_sent: bool) -> (a: ValidationAnnounce)
    ensures
        a == if is_paused {
            ValidationAnnounce::Quiet
        } else if !started_announce_sent {
            ValidationAnnounce::ConnectFromTrackers
        } else {
            ValidationAnnounce::AnnounceAll
        },
{
    if is_paused {
        ValidationAnnounce::Quiet
    } else if !started_announce_sent {
        ValidationAnnounce::ConnectFromTrackers
    } else {
        ValidationAnnounce::AnnounceAll
    }
}

/// The stage a torrent returns to when its data is deleted: validation when
/// the metadata is known, else waiting for metadata.
pub fn status_after_delete(has_metadata: bool) -> (s: TorrentStatus)
    ensures
        s == if has_metadata {
            TorrentStatus::Validating
        } else {
            TorrentStatus::AwaitingMetadata
        },
{
    if has_metadata {
        TorrentStatus::Validating
    } else {
        TorrentStatus::AwaitingMetadata
    }
}

} // verus!
