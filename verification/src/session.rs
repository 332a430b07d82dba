//! Rules for the peers of a torrent: serving their requests, batching their
//! disconnects and failures, dialing them, and the periodic cleanup.
use crate::tracker::spec_backoff_blocks;
use vstd::prelude::*;

verus! {

/// The largest block a peer may ask us for.
pub const MAX_BLOCK_SIZE: u32 = 131_072;

/// Disconnects and connection failures are handled in batches of this many.
pub const PEER_BATCH_SIZE: usize = 100;

/// Peers that failed this many times are forgotten at cleanup.
pub const MAX_TIMEOUT_COUNT: u32 = 10;

/// The memory (bytes) that v2 blocks waiting for their proofs may hold.
pub const MAX_PENDING_V2_BYTES: usize = 1_073_741_824;

/// The piece length assumed before the metadata is known.
pub const FALLBACK_PIECE_LEN: usize = 16_384;

/// How long (milliseconds) a connection may go without a peer id.
pub const HANDSHAKE_GRACE_MS: u64 = 5000;

/// What becomes of a peer's request for a block.
#[derive(Debug, Clone, Copy, PartialEq, Eq)]
pub enum UploadDecision {
    /// Ignored outright: no metadata yet, or the block is too large.
    Dropped,
    /// Considered but refused: the peer is choked, unknown, or asks for a
    /// piece we do not have.
    Refused,
    /// The block is read from disk and sent.
    Serve,
}

/// What becomes of a peer's request for a block.
pub open spec fn spec_upload_decision(
    has_metadata: bool,
    length: u32,
    peer_unchoked: Option<bool>,
    piece_done: bool,
) -> UploadDecision {
    if !has_metadata || length > MAX_BLOCK_SIZE {
        UploadDecision::Dropped
    } else if peer_unchoked == Some(true) && piece_done {
        UploadDecision::Serve
    } else {
        UploadDecision::Refused
    }
}

/// What becomes of a peer's request for a block of `length` bytes, given
/// whether we have the metadata, whether the peer is known and unchoked by us
/// (`None` when unknown), and whether we have the piece.
pub fn upload_decision(
    has_metadata: bool,
    length: u32,
    peer_unchoked: Option<bool>,
    piece_done: bool,
) -> (d: UploadDecision)
    ensures
        d == spec_upload_decision(has_metadata, length, peer_unchoked, piece_done),
{
    if !has_metadata || length > MAX_BLOCK_SIZE {
        return UploadDecision::Dropped;
    }
    match peer_unchoked {
        Some(true) => {
            if piece_done {
                UploadDecision::Serve
            } else {
                UploadDecision::Refused
            }
        },
        _ => UploadDecision::Refused,
    }
}

/// Whether the disconnects queued so far (`pending` of them) are handled now:
/// when forced or when a full batch has gathered, and only if there are any.
pub fn disconnect_batch_ready(pending: usize, force: bool) -> (ready: bool)
    ensures
        ready == ((force || pending >= PEER_BATCH_SIZE) && pending > 0),
{
    (force || pending >= PEER_BATCH_SIZE) && pending > 0
}

/// Whether the connection failures queued so far are handled now.
pub fn failure_batch_ready(pending: usize) -> (ready: bool)
    ensures
        ready == (pending >= PEER_BATCH_SIZE),
{
    pending >= PEER_BATCH_SIZE
}

/// Records a peer's `have` message: the piece is marked, when it is within
/// the peer's bitfield.
pub fn record_have(bits: &mut Vec<bool>, piece_index: u32)
    ensures
        (piece_index as int) < old(bits)@.len() ==> final(bits)@ == old(bits)@.update(
            piece_index as int,
            true,
        ),
        (piece_index as int) >= old(bits)@.len() ==> final(bits)@ == old(bits)@,
{
    if (piece_index as usize) < bits.len() {
        bits.set(piece_index as usize, true);
    }
}

/// What to do with a peer address we were told about.
#[derive(Debug, Clone, Copy, PartialEq, Eq)]
pub enum DialDecision {
    /// It failed recently and is on backoff.
    Backoff,
    /// A session with it exists already.
    AlreadyConnected,
    /// Dial it.
    Dial,
}

/// What to do with a peer address, given its backoff entry (failure count,
/// next attempt time), the clock, and whether a session with it exists.
pub open spec fn spec_dial_decision(
    backoff: Option<(u32, u64)>,
    now_ms: u64,
    connected: bool,
) -> DialDecision {
    if spec_backoff_blocks(backoff, now_ms) {
        DialDecision::Backoff
    } else if connected {
        DialDecision::AlreadyConnected
    } else {
        DialDecision::Dial
    }
}

/// What to do with a peer address we were told about.
pub fn dial_decision(backoff: Option<(u32, u64)>, now_ms: u64, connected: bool) -> (d: DialDecision)
    ensures
        d == spec_dial_decision(backoff, now_ms, connected),
{
    if crate::tracker::backoff_blocks(backoff, now_ms) {
        DialDecision::Backoff
    } else if connected {
        DialDecision::AlreadyConnected
    } else {
        DialDecision::Dial
    }
}

/// Whether a peer's backoff entry is kept at cleanup.
pub fn keep_backoff_entry(failures: u32) -> (keep: bool)
    ensures
        keep == (failures < MAX_TIMEOUT_COUNT),
{
    failures < MAX_TIMEOUT_COUNT
}

/// How many v2 blocks may wait for their proofs before the buffer is
/// dropped: the memory budget over the piece length (or the fallback length
/// before the metadata is known).
pub open spec fn spec_max_pending_v2_items(piece_len: Option<usize>) -> int {
    MAX_PENDING_V2_BYTES as int / match piece_len {
        Some(l) => l as int,
        None => FALLBACK_PIECE_LEN as int,
    }
}

/// How many v2 blocks may wait for their proofs.
pub fn max_pending_v2_items(piece_len: Option<usize>) -> (n: usize)
    requires
        piece_len != Some(0usize),
    ensures
        n == spec_max_pending_v2_items(piece_len),
{
    let len = match piece_len {
        Some(l) => l,
        None => FALLBACK_PIECE_LEN,
    };
    MAX_PENDING_V2_BYTES / len
}

/// A connection is stuck when it still has no peer id more than the grace
/// period after it was made.
pub fn peer_stuck(peer_id_empty: bool, now_ms: u64, created_ms: u64) -> (stuck: bool)
    ensures
        stuck == (peer_id_empty && now_ms - created_ms > HANDSHAKE_GRACE_MS),
{
    peer_id_empty && now_ms.saturating_sub(created_ms) > HANDSHAKE_GRACE_MS
}

/// A bitfield that is not empty and has every bit set.
pub open spec fn all_set(bits: Seq<bool>) -> bool {
    bits.len() > 0 && forall|i: int| 0 <= i < bits.len() ==> bits[i]
}

/// Whether a bitfield is non-empty and full: for our own pieces, we are
/// seeding; for a peer's, the peer is a seed.
pub fn is_full(bits: &[bool]) -> (full: bool)
    ensures
        full == all_set(bits@),
{
    if bits.len() == 0 {
        return false;
    }
    let mut i: usize = 0;
    while i < bits.len()
        invariant
            0 <= i <= bits@.len(),
            forall|k: int| 0 <= k < i ==> bits@[k],
        decreases bits@.len() - i,
    {
        if !bits[i] {
            return false;
        }
        i = i + 1;
    }
    true
}

/// The peers to drop once we are seeding: those that are seeds themselves.
pub fn seeds_to_disconnect(we_are_seeding: bool, peer_bits: &[Vec<bool>]) -> (drop: Vec<usize>)
    ensures
        forall|k: int|
            0 <= k < drop@.len() ==> we_are_seeding && drop@[k] < peer_bits@.len() && all_set(
                peer_bits@[drop@[k] as int]@,
            ),
        forall|i: int|
            0 <= i < peer_bits@.len() && we_are_seeding && all_set(#[trigger] peer_bits@[i]@)
                ==> drop@.contains(i as usize),
        forall|a: int, b: int| 0 <= a < b < drop@.len() ==> drop@[a] < drop@[b],
{
    let mut drop: Vec<usize> = Vec::new();
    if !we_are_seeding {
        return drop;
    }
    let mut i: usize = 0;
    while i < peer_bits.len()
        invariant
            we_are_seeding,
            0 <= i <= peer_bits@.len(),
            forall|k: int|
                0 <= k < drop@.len() ==> drop@[k] < i && all_set(peer_bits@[drop@[k] as int]@),
            forall|j: int| 0 <= j < i && all_set(#[trigger] peer_bits@[j]@) ==> drop@.contains(j as usize),
            forall|a: int, b: int| 0 <= a < b < drop@.len() ==> drop@[a] < drop@[b],
        decreases peer_bits@.len() - i,
    {
        if is_full(peer_bits[i].as_slice()) {
            let ghost before = drop@;
            drop.push(i);
            proof {
                assert forall|j: int| 0 <= j < i + 1 && all_set(#[trigger] peer_bits@[j]@) implies drop@.contains(
                    j as usize,
                ) by {
                    if j < i {
                        let k = choose|k: int| 0 <= k < before.len() && before[k] == j as usize;
                        assert(drop@[k] == j as usize);
                    } else {
                        assert(drop@[before.len() as int] == j as usize);
                    }
                }
            }
        }
        i = i + 1;
    }
    drop
}

/// The bytes still to download, as announced when stopping: the torrent's
/// length less a full piece for every piece done, never below zero.
pub fn bytes_left(total_len: usize, completed: usize, piece_length: usize) -> (left: usize)
    requires
        completed * piece_length <= usize::MAX,
    ensures
        left == (if total_len > completed * piece_length {
            total_len - completed * piece_length
        } else {
            0
        }),
{
    total_len.saturating_sub(completed * piece_length)
}

} // verus!
