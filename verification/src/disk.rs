//! Decisions around disk work: retry timing for reads and writes, whether a
//! persisted download is laid out in full, and which pieces a validation pass
//! reads.
use rand::Rng;
use vstd::prelude::*;

verus! {

/// Write attempts for one piece before giving up.
pub const MAX_PIECE_WRITE_ATTEMPTS: u32 = 12;

/// Read attempts for one upload request before giving up.
pub const MAX_UPLOAD_REQUEST_ATTEMPTS: u32 = 7;

/// The first retry waits this long (milliseconds), doubled per attempt.
pub const BASE_BACKOFF_MS: u64 = 1000;

/// The most random jitter added to a retry wait (milliseconds).
pub const JITTER_MS: u64 = 100;

/// `rand::rng().random_range(0..=max)`: a random number from zero to `max`.
#[verifier::external_body]
fn random_up_to(max: u64) -> (r: u64)
    ensures
        r <= max,
{
    rand::rng().random_range(0..=max)
}

/// What to do after a failed disk attempt.
#[derive(Debug, Clone, Copy, PartialEq, Eq)]
pub enum RetryStep {
    /// Too many attempts: report the failure.
    GiveUp,
    /// Wait this many milliseconds, then try again.
    Wait { delay_ms: u64 },
}

/// `2^e`.
pub open spec fn pow2(e: nat) -> nat
    decreases e,
{
    if e == 0 {
        1
    } else {
        2 * pow2((e - 1) as nat)
    }
}

/// The step after the failure that makes `attempt` failed attempts: give up
/// beyond `max_attempts`, else wait `BASE_BACKOFF_MS * 2^attempt` plus the
/// jitter.
pub open spec fn spec_retry_step(attempt: u32, max_attempts: u32, jitter_ms: u64) -> RetryStep {
    if attempt > max_attempts {
        RetryStep::GiveUp
    } else {
        RetryStep::Wait { delay_ms: (BASE_BACKOFF_MS * pow2(attempt as nat) + jitter_ms) as u64 }
    }
}

proof fn lemma_pow2_monotone(a: nat, b: nat)
    requires
        a <= b,
    ensures
        pow2(a) <= pow2(b),
    decreases b,
{
    if a < b {
        lemma_pow2_monotone(a, (b - 1) as nat);
    }
}

/// Counts one more failed attempt and says what to do next, for a given
/// jitter.
pub fn retry_step(attempt: &mut u32, max_attempts: u32, jitter_ms: u64) -> (step: RetryStep)
    requires
        *old(attempt) <= max_attempts,
        max_attempts <= 40,
        jitter_ms <= JITTER_MS,
    ensures
        *final(attempt) == *old(attempt) + 1,
        step == spec_retry_step(*final(attempt), max_attempts, jitter_ms),
{
    *attempt = *attempt + 1;
    if *attempt > max_attempts {
        return RetryStep::GiveUp;
    }
    let mut factor: u64 = 1;
    let mut k: u32 = 0;
    while k < *attempt
        invariant
            k <= *attempt <= 40,
            factor == pow2(k as nat),
        decreases *attempt - k,
    {
        proof {
            assert(pow2((k + 1) as nat) == 2 * pow2(k as nat));
            lemma_pow2_monotone((k + 1) as nat, 40);
            lemma_pow2_40();
        }
        factor = factor * 2;
        k = k + 1;
    }
    proof {
        lemma_pow2_monotone(*attempt as nat, 40);
        lemma_pow2_40();
    }
    RetryStep::Wait { delay_ms: BASE_BACKOFF_MS * factor + jitter_ms }
}

proof fn lemma_pow2_40()
    ensures
        pow2(40) == 1099511627776,
{
    reveal_with_fuel(pow2, 41);
}

/// Counts one more failed attempt and says what to do next, with a random
/// jitter of at most `JITTER_MS`: whatever jitter is drawn, the step is
/// `spec_retry_step` for it.
pub fn next_retry_step(attempt: &mut u32, max_attempts: u32) -> (step: RetryStep)
    requires
        *old(attempt) <= max_attempts,
        max_attempts <= 40,
    ensures
        *final(attempt) == *old(attempt) + 1,
        exists|j: u64| j <= JITTER_MS && step == spec_retry_step(*final(attempt), max_attempts, j),
{
    let jitter = random_up_to(JITTER_MS);
    retry_step(attempt, max_attempts, jitter)
}

// ---------------------------------------------------------------------------
// Persisted layout
// ---------------------------------------------------------------------------

/// What the disk showed for one file of the torrent.
#[derive(Debug, Clone, Copy, PartialEq, Eq)]
pub struct PersistedFile {
    /// Padding files are never written and not looked for.
    pub is_padding: bool,
    /// The length the torrent gives the file.
    pub expected_len: u64,
    /// What is at the file's path: `None` when nothing is, else whether it is
    /// a regular file and its length.
    pub found: Option<(bool, u64)>,
}

/// A file is in place: padding, or a regular file of exactly its length.
pub open spec fn file_in_place(f: PersistedFile) -> bool {
    f.is_padding || match f.found {
        Some((is_file, len)) => is_file && len == f.expected_len,
        None => false,
    }
}

/// Whether every file of a persisted download is in place, so that hashing
/// may be skipped.
pub fn has_complete_storage_layout(files: &[PersistedFile]) -> (complete: bool)
    ensures
        complete == forall|i: int| 0 <= i < files@.len() ==> file_in_place(#[trigger] files@[i]),
{
    let mut i: usize = 0;
    while i < files.len()
        invariant
            0 <= i <= files@.len(),
            forall|k: int| 0 <= k < i ==> file_in_place(#[trigger] files@[k]),
        decreases files@.len() - i,
    {
        let f = files[i];
        if !f.is_padding {
            match f.found {
                Some((is_file, len)) => {
                    if !is_file || len != f.expected_len {
                        return false;
                    }
                },
                None => {
                    return false;
                },
            }
        }
        i = i + 1;
    }
    true
}

// ---------------------------------------------------------------------------
// Validation pass
// ---------------------------------------------------------------------------

/// Pieces of a v1 torrent: the total size over the piece length, rounded up
/// (none when the piece length is zero), as a `u32`.
pub open spec fn spec_v1_piece_count(total_size: u64, piece_len: u64) -> u32 {
    if piece_len > 0 {
        ((total_size + piece_len - 1) / (piece_len as int)) as u32
    } else {
        0
    }
}

/// Pieces of a v1 torrent.
pub fn v1_piece_count(total_size: u64, piece_len: u64) -> (count: u32)
    ensures
        count == spec_v1_piece_count(total_size, piece_len),
{
    if piece_len == 0 {
        return 0;
    }
    let whole = total_size / piece_len;
    if total_size % piece_len != 0 {
        assert(piece_len >= 2);
        assert(whole < u64::MAX) by (nonlinear_arith)
            requires
                piece_len >= 2,
                whole == total_size / piece_len,
        ;
    }
    let ceil: u64 = if total_size % piece_len != 0 {
        whole + 1
    } else {
        whole
    };
    proof {
        assert(ceil == (total_size + piece_len - 1) / (piece_len as int)) by (nonlinear_arith)
            requires
                piece_len > 0,
                whole == total_size / piece_len,
                total_size % piece_len != 0 ==> ceil == whole + 1,
                total_size % piece_len == 0 ==> ceil == whole,
        ;
    }
    #[verifier::truncate]
    (ceil as u32)
}

/// Where piece `index` of a v1 torrent lies: its offset in the stream and its
/// length (the piece length, or what is left of the stream).
pub open spec fn spec_v1_piece_span(total_size: u64, piece_len: u64, index: u32) -> (u64, u64) {
    let start = index * piece_len;
    let left = if total_size > start {
        total_size - start
    } else {
        0
    };
    (start as u64, if left < piece_len {
        left as u64
    } else {
        piece_len
    })
}

/// Where piece `index` of a v1 torrent lies.
pub fn v1_piece_span(total_size: u64, piece_len: u64, index: u32) -> (span: (u64, u64))
    requires
        index * piece_len <= u64::MAX,
    ensures
        span == spec_v1_piece_span(total_size, piece_len, index),
{
    let start = index as u64 * piece_len;
    let left = total_size.saturating_sub(start);
    (start, if left < piece_len {
        left
    } else {
        piece_len
    })
}

/// The pieces a validation that skips hashing reports as complete: none when
/// the persisted layout is incomplete or pieces have no length, else every
/// piece (`v2_piece_count` for a v2 torrent, else the v1 count).
pub open spec fn spec_skip_hashing_pieces(
    layout_complete: bool,
    piece_len: u64,
    total_size: u64,
    v2_piece_count: Option<u32>,
) -> Seq<u32> {
    if !layout_complete || piece_len == 0 {
        seq![]
    } else {
        let n = match v2_piece_count {
            Some(c) => c,
            None => spec_v1_piece_count(total_size, piece_len),
        };
        Seq::new(n as nat, |i: int| i as u32)
    }
}

/// The pieces a validation that skips hashing reports as complete.
pub fn skip_hashing_pieces(
    layout_complete: bool,
    piece_len: u64,
    total_size: u64,
    v2_piece_count: Option<u32>,
) -> (pieces: Vec<u32>)
    ensures
        pieces@ == spec_skip_hashing_pieces(layout_complete, piece_len, total_size, v2_piece_count),
{
    let mut pieces: Vec<u32> = Vec::new();
    if !layout_complete || piece_len == 0 {
        assert(pieces@ =~= seq![]);
        return pieces;
    }
    let n = match v2_piece_count {
        Some(c) => c,
        None => v1_piece_count(total_size, piece_len),
    };
    let mut i: u32 = 0;
    while i < n
        invariant
            0 <= i <= n,
            pieces@ == Seq::new(i as nat, |k: int| k as u32),
        decreases n - i,
    {
        pieces.push(i);
        i = i + 1;
        assert(pieces@ =~= Seq::new(i as nat, |k: int| k as u32));
    }
    pieces
}

} // verus!
