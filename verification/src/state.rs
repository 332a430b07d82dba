//! The core decision rules of the torrent state machine: piece bitfields
//! exchanged with peers, completion, the need queue, piece priorities and
//! choking.
use std::collections::HashMap;
use vstd::prelude::*;

verus! {

broadcast use vstd::std_specs::hash::group_hash_axioms;

/// What the manager was last busy with.
#[derive(Clone, Debug, Default, PartialEq)]
pub enum TorrentActivity {
    #[default]
    Initializing,
    Paused,
    ConnectingToPeers,
    RequestingPieces,
    DownloadingPiece(u32),
    SendingPiece(u32),
    VerifyingPiece(u32),
    AnnouncingToTracker,
    ProcessingPeers(usize),
    SearchingDht,
}

/// The stage a torrent is in.
#[derive(PartialEq, Debug, Default, Clone)]
pub enum TorrentStatus {
    #[default]
    AwaitingMetadata,
    Validating,
    Standard,
    Endgame,
    Done,
}

/// Whether one side lets the other download.
#[derive(PartialEq, Debug, Clone)]
pub enum ChokeStatus {
    Choke,
    Unchoke,
}

/// How much the user wants one file.
#[derive(Debug, Clone, Copy, PartialEq, Eq)]
pub enum FilePriority {
    Skip,
    Normal,
    High,
    Mixed,
}

/// How much a piece is wanted, from the files it overlaps.
#[derive(Debug, Clone, Copy, PartialEq, Eq)]
pub enum EffectivePiecePriority {
    Skip,
    Normal,
    High,
}

// ---------------------------------------------------------------------------
// Bitfields
// ---------------------------------------------------------------------------

/// Bit `k` (0 = most significant) of a byte.
pub open spec fn byte_bit(b: u8, k: int) -> bool {
    ((b >> ((7 - k) as u8)) & 1u8) == 1u8
}

/// The piece flags that a wire bitfield announces, cut or padded with `false`
/// to `total_pieces` when that is known (non-zero).
pub open spec fn spec_expand_bitfield(bytes: Seq<u8>, total_pieces: int) -> Seq<bool> {
    let raw_len: int = 8 * bytes.len() as int;
    let len: int = if total_pieces > 0 {
        total_pieces
    } else {
        raw_len
    };
    Seq::new(len as nat, |i: int| i < raw_len && byte_bit(bytes[i / 8], i % 8))
}

/// `bytes` is the wire bitfield of the piece flags `done`: one bit per piece,
/// most significant bit first, spare bits clear.
pub open spec fn encodes_bitfield(bytes: Seq<u8>, done: Seq<bool>) -> bool {
    &&& bytes.len() == done.len() / 8 + if done.len() % 8 != 0 {
        1int
    } else {
        0int
    }
    &&& forall|i: int|
        0 <= i < 8 * bytes.len() ==> byte_bit(#[trigger] bytes[i / 8], i % 8) == (i < done.len()
            && done[i])
}

proof fn lemma_bit_of_or(b: u8, k: u8, j: u8)
    requires
        k < 8,
        j < 8,
    ensures
        ((((b | (1u8 << ((7 - k) as u8))) >> ((7 - j) as u8)) & 1u8) == 1u8) == (((((b >> ((7
            - j) as u8)) & 1u8) == 1u8)) || j == k),
{
    assert(((((b | (1u8 << ((7 - k) as u8))) >> ((7 - j) as u8)) & 1u8) == 1u8) == (((((b >> ((7
        - j) as u8)) & 1u8) == 1u8)) || j == k)) by (bit_vector)
        requires
            k < 8,
            j < 8,
    ;
}

proof fn lemma_bit_of_zero(j: u8)
    requires
        j < 8,
    ensures
        !((((0u8 >> ((7 - j) as u8)) & 1u8) == 1u8)),
{
    assert(!((((0u8 >> ((7 - j) as u8)) & 1u8) == 1u8))) by (bit_vector)
        requires
            j < 8,
    ;
}

/// Bit `k` (0 = most significant) of a byte.
fn get_bit(b: u8, k: u8) -> (bit: bool)
    requires
        k < 8,
    ensures
        bit == byte_bit(b, k as int),
{
    ((b >> (7 - k)) & 1u8) == 1u8
}

/// Unpacks a peer's wire bitfield into piece flags, most significant bit
/// first, then cuts or pads it with `false` to `total_pieces` when the number
/// of pieces is known (non-zero).
pub fn expand_bitfield(bytes: &[u8], total_pieces: usize) -> (flags: Vec<bool>)
    requires
        8 * bytes@.len() <= usize::MAX,
    ensures
        flags@ == spec_expand_bitfield(bytes@, total_pieces as int),
{
    let raw_len = 8 * bytes.len();
    let len = if total_pieces > 0 {
        total_pieces
    } else {
        raw_len
    };
    let mut flags: Vec<bool> = Vec::new();
    let mut i: usize = 0;
    while i < len
        invariant
            raw_len == 8 * bytes@.len(),
            len == (if total_pieces > 0 {
                total_pieces as int
            } else {
                raw_len as int
            }),
            0 <= i <= len,
            flags@ == spec_expand_bitfield(bytes@, total_pieces as int).take(i as int),
        decreases len - i,
    {
        let bit = if i < raw_len {
            get_bit(bytes[i / 8], (i % 8) as u8)
        } else {
            false
        };
        flags.push(bit);
        proof {
            assert(flags@ =~= spec_expand_bitfield(bytes@, total_pieces as int).take(i + 1));
        }
        i = i + 1;
    }
    proof {
        assert(spec_expand_bitfield(bytes@, total_pieces as int).take(len as int)
            =~= spec_expand_bitfield(bytes@, total_pieces as int));
    }
    flags
}

/// What to make of a peer's bitfield message: `None` when the peer already
/// announced pieces (a second bitfield is misbehaviour and the peer is
/// dropped), else its piece flags.
pub fn receive_peer_bitfield(current: &[bool], bytes: &[u8], total_pieces: usize) -> (flags:
    Option<Vec<bool>>)
    requires
        8 * bytes@.len() <= usize::MAX,
    ensures
        (exists|i: int| 0 <= i < current@.len() && current@[i]) ==> flags is None,
        !(exists|i: int| 0 <= i < current@.len() && current@[i]) ==> (flags matches Some(f) && f@
            == spec_expand_bitfield(bytes@, total_pieces as int)),
{
    let mut i: usize = 0;
    while i < current.len()
        invariant
            0 <= i <= current@.len(),
            forall|j: int| 0 <= j < i ==> !current@[j],
        decreases current@.len() - i,
    {
        if current[i] {
            return None;
        }
        i = i + 1;
    }
    Some(expand_bitfield(bytes, total_pieces))
}

/// Packs our piece flags into a wire bitfield: one bit per piece, most
/// significant bit first, spare bits of the last byte clear.
pub fn generate_bitfield(done: &[bool]) -> (bytes: Vec<u8>)
    ensures
        encodes_bitfield(bytes@, done@),
{
    let n = done.len();
    let num_bytes = n / 8 + if n % 8 != 0 {
        1
    } else {
        0
    };
    let mut bytes: Vec<u8> = Vec::new();
    let mut j: usize = 0;
    while j < num_bytes
        invariant
            n == done@.len(),
            num_bytes == n / 8 + if n % 8 != 0 {
                1int
            } else {
                0int
            },
            0 <= j <= num_bytes,
            bytes@.len() == j,
            forall|i: int|
                0 <= i < 8 * j ==> byte_bit(#[trigger] bytes@[i / 8], i % 8) == (i < n && done@[i]),
        decreases num_bytes - j,
    {
        let mut byte: u8 = 0;
        let mut k: u8 = 0;
        proof {
            assert forall|t: int| 0 <= t < 8 implies !byte_bit(0u8, t) by {
                lemma_bit_of_zero(t as u8);
            }
        }
        while k < 8
            invariant
                n == done@.len(),
                j < num_bytes,
                num_bytes <= n / 8 + 1,
                0 <= k <= 8,
                forall|t: int|
                    0 <= t < 8 ==> byte_bit(byte, t) == (t < k && 8 * j + t < n && done@[8 * j
                        + t]),
            decreases 8 - k,
        {
            let idx = 8 * j + k as usize;
            if idx < n && done[idx] {
                let ghost old_byte = byte;
                byte = byte | (1u8 << (7 - k));
                proof {
                    assert forall|t: int| 0 <= t < 8 implies byte_bit(byte, t) == (byte_bit(
                        old_byte,
                        t,
                    ) || t == k) by {
                        lemma_bit_of_or(old_byte, k, t as u8);
                    }
                }
            }
            k = k + 1;
        }
        let ghost old_bytes = bytes@;
        bytes.push(byte);
        proof {
            assert forall|i: int| 0 <= i < 8 * (j + 1) implies byte_bit(
                #[trigger] bytes@[i / 8],
                i % 8,
            ) == (i < n && done@[i]) by {
                if i < 8 * j {
                    assert(bytes@[i / 8] == old_bytes[i / 8]);
                } else {
                    assert(i / 8 == j);
                    assert(8 * j + i % 8 == i);
                }
            }
        }
        j = j + 1;
    }
    bytes
}

// ---------------------------------------------------------------------------
// Completion and the need queue
// ---------------------------------------------------------------------------

/// The outcome of a completion check.
#[derive(Debug, PartialEq)]
pub enum CompletionCheck {
    /// Nothing to do: not complete yet, or not at a stage where completion is checked.
    Incomplete,
    /// Every wanted piece is done; `physically_complete` tells whether every
    /// piece is, so that the tracker is told the download completed rather
    /// than just stopped.
    Finished { physically_complete: bool },
}

/// All pieces are done.
pub open spec fn all_done(done: Seq<bool>) -> bool {
    forall|i: int| 0 <= i < done.len() ==> done[i]
}

/// Every piece is done or skipped by the user (no priorities: every piece is wanted).
pub open spec fn wanted_done(done: Seq<bool>, priorities: Seq<EffectivePiecePriority>) -> bool {
    if priorities.len() == 0 {
        all_done(done)
    } else {
        forall|i: int|
            0 <= i < done.len() ==> done[i] || priorities[i] == EffectivePiecePriority::Skip
    }
}

/// Whether a torrent has just finished: only in the standard and endgame
/// stages, with at least one piece, when every wanted piece is done.
pub open spec fn spec_check_completion(
    status: TorrentStatus,
    done: Seq<bool>,
    priorities: Seq<EffectivePiecePriority>,
) -> CompletionCheck {
    if status == TorrentStatus::AwaitingMetadata || status == TorrentStatus::Validating || status
        == TorrentStatus::Done {
        CompletionCheck::Incomplete
    } else if wanted_done(done, priorities) && done.len() > 0 {
        CompletionCheck::Finished { physically_complete: all_done(done) }
    } else {
        CompletionCheck::Incomplete
    }
}

fn is_skip(p: EffectivePiecePriority) -> (skip: bool)
    ensures
        skip == (p == EffectivePiecePriority::Skip),
{
    match p {
        EffectivePiecePriority::Skip => true,
        _ => false,
    }
}

/// Decides whether the torrent has just finished downloading what is wanted.
pub fn check_completion(
    status: &TorrentStatus,
    done: &[bool],
    priorities: &[EffectivePiecePriority],
) -> (outcome: CompletionCheck)
    requires
        priorities@.len() == 0 || priorities@.len() >= done@.len(),
    ensures
        outcome == spec_check_completion(*status, done@, priorities@),
{
    match status {
        TorrentStatus::AwaitingMetadata | TorrentStatus::Validating | TorrentStatus::Done => {
            return CompletionCheck::Incomplete;
        },
        _ => {},
    }
    let n = done.len();
    let mut wanted_complete = true;
    let mut physically_complete = true;
    let mut i: usize = 0;
    while i < n
        invariant
            n == done@.len(),
            priorities@.len() == 0 || priorities@.len() >= n,
            0 <= i <= n,
            physically_complete == forall|j: int| 0 <= j < i ==> done@[j],
            wanted_complete == if priorities@.len() == 0 {
                forall|j: int| 0 <= j < i ==> done@[j]
            } else {
                forall|j: int|
                    0 <= j < i ==> done@[j] || priorities@[j] == EffectivePiecePriority::Skip
            },
        decreases n - i,
    {
        if !done[i] {
            physically_complete = false;
            if priorities.len() == 0 || !is_skip(priorities[i]) {
                wanted_complete = false;
            }
        }
        i = i + 1;
    }
    if wanted_complete && n > 0 {
        CompletionCheck::Finished { physically_complete }
    } else {
        CompletionCheck::Incomplete
    }
}

/// The pieces still wanted, in index order: not done and, when priorities are
/// set, not skipped.
pub open spec fn spec_need_queue(
    done: Seq<bool>,
    priorities: Seq<EffectivePiecePriority>,
    k: int,
) -> Seq<u32>
    decreases k,
{
    if k <= 0 {
        seq![]
    } else {
        let i = k - 1;
        let needed = !done[i] && !(priorities.len() > 0 && priorities[i]
            == EffectivePiecePriority::Skip);
        spec_need_queue(done, priorities, k - 1) + if needed {
            seq![i as u32]
        } else {
            seq![]
        }
    }
}

/// Rebuilds the queue of needed pieces after validation.
pub fn rebuild_need_queue(done: &[bool], priorities: &[EffectivePiecePriority]) -> (queue: Vec<u32>)
    requires
        priorities@.len() == 0 || priorities@.len() >= done@.len(),
    ensures
        queue@ == spec_need_queue(done@, priorities@, done@.len() as int),
{
    let n = done.len();
    let mut queue: Vec<u32> = Vec::new();
    let mut i: usize = 0;
    while i < n
        invariant
            n == done@.len(),
            priorities@.len() == 0 || priorities@.len() >= n,
            0 <= i <= n,
            queue@ == spec_need_queue(done@, priorities@, i as int),
        decreases n - i,
    {
        if !done[i] {
            let is_skipped = priorities.len() > 0 && is_skip(priorities[i]);
            if !is_skipped {
                queue.push(i as u32);
            }
        }
        proof {
            assert(spec_need_queue(done@, priorities@, i + 1) =~= queue@);
        }
        i = i + 1;
    }
    queue
}

// ---------------------------------------------------------------------------
// Piece priorities from file priorities
// ---------------------------------------------------------------------------

/// Sum of the first `k` file lengths.
pub open spec fn files_start(lengths: Seq<u64>, k: int) -> int
    decreases k,
{
    if k <= 0 {
        0
    } else {
        files_start(lengths, k - 1) + lengths[k - 1]
    }
}

/// File `f` overlaps piece `p`: `p` lies between the piece of the file's first
/// byte and the piece of its last byte.
pub open spec fn file_covers(lengths: Seq<u64>, piece_len: u64, f: int, p: int) -> bool {
    let start = files_start(lengths, f);
    let end = start + lengths[f];
    let last = if end >= 1 {
        end - 1
    } else {
        0
    };
    start / piece_len as int <= p <= last / piece_len as int
}

/// The priority the user gave file `f` (normal unless set).
pub open spec fn file_priority(prios: Map<usize, FilePriority>, f: int) -> FilePriority {
    if prios.contains_key(f as usize) {
        prios[f as usize]
    } else {
        FilePriority::Normal
    }
}

/// The priority of piece `p` from the first `k` files: high when a high file
/// overlaps it, else normal when a normal or mixed file does, else skipped.
pub open spec fn painted_priority(
    lengths: Seq<u64>,
    piece_len: u64,
    prios: Map<usize, FilePriority>,
    k: int,
    p: int,
) -> EffectivePiecePriority {
    if exists|f: int|
        0 <= f < k && file_covers(lengths, piece_len, f, p) && #[trigger] file_priority(prios, f)
            == FilePriority::High {
        EffectivePiecePriority::High
    } else if exists|f: int|
        0 <= f < k && file_covers(lengths, piece_len, f, p) && (#[trigger] file_priority(prios, f)
            == FilePriority::Normal || file_priority(prios, f) == FilePriority::Mixed) {
        EffectivePiecePriority::Normal
    } else {
        EffectivePiecePriority::Skip
    }
}

proof fn lemma_files_start_mono(lengths: Seq<u64>, i: int, j: int)
    requires
        0 <= i <= j <= lengths.len(),
    ensures
        files_start(lengths, i) <= files_start(lengths, j),
    decreases j - i,
{
    if i < j {
        lemma_files_start_mono(lengths, i, j - 1);
    }
}

/// The priority of each piece from the priorities of the files it overlaps
/// (files laid end to end): high if any high file overlaps it, else normal if
/// any normal or mixed file does, else skipped.
pub fn calculate_piece_priorities(
    num_pieces: usize,
    piece_len: u64,
    file_lengths: &[u64],
    file_priorities: &HashMap<usize, FilePriority>,
) -> (priorities: Vec<EffectivePiecePriority>)
    requires
        num_pieces > 0 ==> piece_len > 0,
        num_pieces > 0 ==> files_start(file_lengths@, file_lengths@.len() as int) <= u64::MAX,
    ensures
        priorities@.len() == num_pieces,
        forall|p: int|
            0 <= p < num_pieces ==> #[trigger] priorities@[p] == painted_priority(
                file_lengths@,
                piece_len,
                file_priorities@,
                file_lengths@.len() as int,
                p,
            ),
{
    if num_pieces == 0 {
        return Vec::new();
    }
    let mut pieces: Vec<EffectivePiecePriority> = Vec::new();
    let mut q: usize = 0;
    while q < num_pieces
        invariant
            0 <= q <= num_pieces,
            pieces@.len() == q,
            forall|p: int| 0 <= p < q ==> pieces@[p] == EffectivePiecePriority::Skip,
        decreases num_pieces - q,
    {
        pieces.push(EffectivePiecePriority::Skip);
        q = q + 1;
    }
    let nf = file_lengths.len();
    let mut file_start: u64 = 0;
    let mut f: usize = 0;
    while f < nf
        invariant
            nf == file_lengths@.len(),
            piece_len > 0,
            files_start(file_lengths@, nf as int) <= u64::MAX,
            0 <= f <= nf,
            file_start == files_start(file_lengths@, f as int),
            pieces@.len() == num_pieces,
            forall|p: int|
                0 <= p < num_pieces ==> #[trigger] pieces@[p] == painted_priority(
                    file_lengths@,
                    piece_len,
                    file_priorities@,
                    f as int,
                    p,
                ),
        decreases nf - f,
    {
        proof {
            lemma_files_start_mono(file_lengths@, f + 1, nf as int);
        }
        let file_end = file_start + file_lengths[f];
        let start_piece = file_start / piece_len;
        let end_piece = file_end.saturating_sub(1) / piece_len;
        let priority = match file_priorities.get(&f) {
            Some(p) => *p,
            None => FilePriority::Normal,
        };
        let mut p: usize = 0;
        while p < num_pieces
            invariant
                nf == file_lengths@.len(),
                f < nf,
                piece_len > 0,
                file_start == files_start(file_lengths@, f as int),
                file_end == file_start + file_lengths@[f as int],
                start_piece == file_start / piece_len,
                end_piece == (if file_end >= 1 {
                    file_end - 1
                } else {
                    0
                }) / piece_len as int,
                priority == file_priority(file_priorities@, f as int),
                0 <= p <= num_pieces,
                pieces@.len() == num_pieces,
                forall|r: int|
                    0 <= r < num_pieces ==> #[trigger] pieces@[r] == painted_priority(
                        file_lengths@,
                        piece_len,
                        file_priorities@,
                        if r < p {
                            f + 1
                        } else {
                            f as int
                        },
                        r,
                    ),
            decreases num_pieces - p,
        {
            let ghost before = pieces@;
            if start_piece <= p as u64 && p as u64 <= end_piece {
                match priority {
                    FilePriority::High => {
                        pieces.set(p, EffectivePiecePriority::High);
                    },
                    FilePriority::Normal | FilePriority::Mixed => {
                        if !matches!(pieces[p], EffectivePiecePriority::High) {
                            pieces.set(p, EffectivePiecePriority::Normal);
                        }
                    },
                    FilePriority::Skip => {},
                }
            }
            proof {
                assert(file_covers(file_lengths@, piece_len, f as int, p as int) == (start_piece
                    <= p && p <= end_piece));
                let r = p as int;
                let lo = painted_priority(file_lengths@, piece_len, file_priorities@, f as int, r);
                let hi = painted_priority(
                    file_lengths@,
                    piece_len,
                    file_priorities@,
                    f + 1,
                    r,
                );
                assert(before[r] == lo);
                if file_covers(file_lengths@, piece_len, f as int, r) && priority
                    == FilePriority::High {
                    assert(hi == EffectivePiecePriority::High);
                } else if lo == EffectivePiecePriority::High {
                    let g = choose|g: int|
                        0 <= g < f && file_covers(file_lengths@, piece_len, g, r) && #[trigger] file_priority(file_priorities@, g)
                            == FilePriority::High;
                    assert(hi == EffectivePiecePriority::High);
                } else if file_covers(file_lengths@, piece_len, f as int, r) && (priority
                    == FilePriority::Normal || priority == FilePriority::Mixed) {
                    assert(hi == EffectivePiecePriority::Normal);
                } else {
                    assert(hi == lo);
                }
                assert forall|t: int| 0 <= t < num_pieces implies #[trigger] pieces@[t]
                    == painted_priority(
                    file_lengths@,
                    piece_len,
                    file_priorities@,
                    if t < p + 1 {
                        f + 1
                    } else {
                        f as int
                    },
                    t,
                ) by {
                    if t != r {
                        assert(pieces@[t] == before[t]);
                    }
                }
            }
            p = p + 1;
        }
        file_start = file_end;
        f = f + 1;
    }
    pieces
}

// ---------------------------------------------------------------------------
// Choking
// ---------------------------------------------------------------------------

/// How many peers are unchoked for their transfer rate.
pub const UPLOAD_SLOTS_DEFAULT: usize = 4;

/// What the choking algorithm reads of a peer.
#[derive(Debug, Clone)]
pub struct ChokePeer {
    pub ip_port: String,
    pub am_choking: ChokeStatus,
    pub peer_is_interested_in_us: bool,
    pub bytes_downloaded_from_peer: u64,
    pub bytes_uploaded_to_peer: u64,
}

/// The transfer a peer is ranked by: what we uploaded to it while seeding,
/// what it sent us while downloading.
pub open spec fn unchoke_rate(p: ChokePeer, seeding: bool) -> u64 {
    if seeding {
        p.bytes_uploaded_to_peer
    } else {
        p.bytes_downloaded_from_peer
    }
}

/// Peer `a` ranks before peer `b`: a higher rate, or the same rate and an
/// earlier position.
pub open spec fn ranks_before(peers: Seq<ChokePeer>, seeding: bool, a: int, b: int) -> bool {
    unchoke_rate(peers[a], seeding) > unchoke_rate(peers[b], seeding) || (unchoke_rate(
        peers[a],
        seeding,
    ) == unchoke_rate(peers[b], seeding) && a < b)
}

/// `r` lists the interested peers, best ranked first.
pub open spec fn is_unchoke_ranking(peers: Seq<ChokePeer>, seeding: bool, r: Seq<usize>) -> bool {
    &&& forall|i: int, j: int|
        0 <= i < j < r.len() ==> ranks_before(peers, seeding, #[trigger] r[i] as int, #[trigger] r[j] as int)
    &&& forall|x: usize|
        #[trigger] r.contains(x) <==> (x < peers.len() && peers[x as int].peer_is_interested_in_us)
}

/// The peers to unchoke: the best ranked ones, one per upload slot, plus, when
/// an optimistic unchoke is due and others are interested, the one the random
/// seed picks among the rest (in ranking order).
pub open spec fn unchoke_set(r: Seq<usize>, optimistic_due: bool, random_seed: u64) -> Set<usize> {
    let slots = UPLOAD_SLOTS_DEFAULT as int;
    let top = Set::new(|x: usize| exists|i: int| 0 <= i < r.len() && i < slots && r[i] == x);
    if optimistic_due && r.len() > slots {
        let rest = (r.len() - slots) as usize;
        top.insert(r[slots + ((random_seed as usize) % rest) as int])
    } else {
        top
    }
}

/// The choke changes for the first `k` peers, in peer order: each peer whose
/// status differs from what it should be, with its new status.
pub open spec fn choke_changes(peers: Seq<ChokePeer>, unchoked: Set<usize>, k: int) -> Seq<
    (usize, ChokeStatus),
>
    decreases k,
{
    if k <= 0 {
        seq![]
    } else {
        let i = k - 1;
        let prev = choke_changes(peers, unchoked, k - 1);
        if unchoked.contains(i as usize) && peers[i].am_choking == ChokeStatus::Choke {
            prev.push((i as usize, ChokeStatus::Unchoke))
        } else if !unchoked.contains(i as usize) && peers[i].am_choking == ChokeStatus::Unchoke {
            prev.push((i as usize, ChokeStatus::Choke))
        } else {
            prev
        }
    }
}

/// The peers after a choke round: each unchoked exactly when chosen, and the
/// per-round byte counters reset.
pub open spec fn peers_after_chokes(
    before: Seq<ChokePeer>,
    after: Seq<ChokePeer>,
    unchoked: Set<usize>,
) -> bool {
    &&& after.len() == before.len()
    &&& forall|i: int|
        0 <= i < before.len() ==> {
            &&& (#[trigger] after[i]).ip_port == before[i].ip_port
            &&& after[i].peer_is_interested_in_us == before[i].peer_is_interested_in_us
            &&& after[i].am_choking == if unchoked.contains(i as usize) {
                ChokeStatus::Unchoke
            } else {
                ChokeStatus::Choke
            }
            &&& after[i].bytes_downloaded_from_peer == 0
            &&& after[i].bytes_uploaded_to_peer == 0
        }
}

/// An optimistic unchoke is due once the last one is more than 30 s old.
pub open spec fn spec_optimistic_unchoke_due(timer_ms: Option<u64>, now_ms: u64) -> bool {
    match timer_ms {
        Some(t) => now_ms - t > 30_000,
        None => false,
    }
}

/// Whether an optimistic unchoke is due at `now_ms`, given when the last one
/// happened (times in milliseconds on the manager's clock).
pub fn optimistic_unchoke_due(timer_ms: Option<u64>, now_ms: u64) -> (due: bool)
    ensures
        due == spec_optimistic_unchoke_due(timer_ms, now_ms),
{
    match timer_ms {
        Some(t) => now_ms.saturating_sub(t) > 30_000,
        None => false,
    }
}

fn rate_of(p: &ChokePeer, seeding: bool) -> (rate: u64)
    ensures
        rate == unchoke_rate(*p, seeding),
{
    if seeding {
        p.bytes_uploaded_to_peer
    } else {
        p.bytes_downloaded_from_peer
    }
}

/// The interested peers, best ranked first.
pub fn rank_peers_for_unchoke(peers: &[ChokePeer], seeding: bool) -> (ranking: Vec<usize>)
    ensures
        is_unchoke_ranking(peers@, seeding, ranking@),
{
    let n = peers.len();
    let mut ranking: Vec<usize> = Vec::new();
    let mut i: usize = 0;
    while i < n
        invariant
            n == peers@.len(),
            0 <= i <= n,
            forall|a: int, b: int|
                0 <= a < b < ranking@.len() ==> ranks_before(
                    peers@,
                    seeding,
                    #[trigger] ranking@[a] as int,
                    #[trigger] ranking@[b] as int,
                ),
            forall|x: usize|
                #[trigger] ranking@.contains(x) <==> (x < i && peers@[x as int].peer_is_interested_in_us),
        decreases n - i,
    {
        if peers[i].peer_is_interested_in_us {
            let key = rate_of(&peers[i], seeding);
            let mut j: usize = 0;
            while j < ranking.len()
                invariant
                    n == peers@.len(),
                    i < n,
                    0 <= j <= ranking@.len(),
                    key == unchoke_rate(peers@[i as int], seeding),
                    forall|x: usize|
                        #[trigger] ranking@.contains(x) <==> (x < i && peers@[x as int].peer_is_interested_in_us),
                    forall|t: int| 0 <= t < j ==> unchoke_rate(peers@[#[trigger] ranking@[t] as int], seeding) >= key,
                ensures
                    0 <= j <= ranking@.len(),
                    forall|t: int| 0 <= t < j ==> unchoke_rate(peers@[#[trigger] ranking@[t] as int], seeding) >= key,
                    j < ranking@.len() ==> unchoke_rate(peers@[ranking@[j as int] as int], seeding) < key,
                decreases ranking@.len() - j,
            {
                let r = ranking[j];
                proof {
                    assert(ranking@.contains(r));
                }
                if rate_of(&peers[r], seeding) < key {
                    break;
                }
                j = j + 1;
            }
            let ghost old_r = ranking@;
            proof {
                assert forall|x: usize| old_r.contains(x) implies x < i by {}
            }
            ranking.insert(j, i);
            proof {
                let nr = ranking@;
                assert forall|a: int, b: int| 0 <= a < b < nr.len() implies ranks_before(
                    peers@,
                    seeding,
                    #[trigger] nr[a] as int,
                    #[trigger] nr[b] as int,
                ) by {
                    if b < j {
                        assert(nr[a] == old_r[a] && nr[b] == old_r[b]);
                    } else if b == j {
                        assert(nr[a] == old_r[a]);
                        assert(old_r.contains(old_r[a]));
                    } else if a == j {
                        assert(nr[b] == old_r[b - 1]);
                        assert(old_r.contains(old_r[b - 1]));
                        if b - 1 > j {
                            assert(ranks_before(peers@, seeding, old_r[j as int] as int, old_r[b - 1] as int));
                        }
                    } else if a < j {
                        assert(nr[a] == old_r[a] && nr[b] == old_r[b - 1]);
                    } else {
                        assert(nr[a] == old_r[a - 1] && nr[b] == old_r[b - 1]);
                    }
                }
                assert forall|x: usize| #[trigger] nr.contains(x) <==> (x < i + 1
                    && peers@[x as int].peer_is_interested_in_us) by {
                    if nr.contains(x) {
                        let t = choose|t: int| 0 <= t < nr.len() && nr[t] == x;
                        if t < j {
                            assert(old_r[t] == x);
                            assert(old_r.contains(x));
                        } else if t > j {
                            assert(old_r[t - 1] == x);
                            assert(old_r.contains(x));
                        }
                    }
                    if x < i + 1 && peers@[x as int].peer_is_interested_in_us {
                        if x == i {
                            assert(nr[j as int] == x);
                        } else {
                            assert(old_r.contains(x));
                            let t = choose|t: int| 0 <= t < old_r.len() && old_r[t] == x;
                            if t < j {
                                assert(nr[t] == x);
                            } else {
                                assert(nr[t + 1] == x);
                            }
                        }
                    }
                }
            }
        } else {
            proof {
                assert forall|x: usize| #[trigger] ranking@.contains(x) <==> (x < i + 1
                    && peers@[x as int].peer_is_interested_in_us) by {
                    if x == i && ranking@.contains(x) {
                        assert(x < i);
                    }
                }
            }
        }
        i = i + 1;
    }
    ranking
}

/// One choke round: unchokes the best ranked interested peers (one per upload
/// slot, ranked by upload while seeding and by download otherwise) plus, when
/// an optimistic unchoke is due, one more picked by the random seed among the
/// other interested peers; chokes everyone else; resets the per-round byte
/// counters. When the optimistic unchoke was due, its timer restarts at
/// `now_ms`. Returns the status changes, in peer order.
pub fn recalculate_chokes(
    peers: &mut Vec<ChokePeer>,
    seeding: bool,
    optimistic_timer_ms: &mut Option<u64>,
    now_ms: u64,
    random_seed: u64,
) -> (changes: Vec<(usize, ChokeStatus)>)
    ensures
        exists|r: Seq<usize>| is_unchoke_ranking(old(peers)@, seeding, r),
        forall|r: Seq<usize>|
            is_unchoke_ranking(old(peers)@, seeding, r) ==> {
                let u = unchoke_set(
                    r,
                    spec_optimistic_unchoke_due(*old(optimistic_timer_ms), now_ms),
                    random_seed,
                );
                &&& peers_after_chokes(old(peers)@, final(peers)@, u)
                &&& changes@ == choke_changes(old(peers)@, u, old(peers)@.len() as int)
            },
        *final(optimistic_timer_ms) == if spec_optimistic_unchoke_due(
            *old(optimistic_timer_ms),
            now_ms,
        ) {
            Some(now_ms)
        } else {
            *old(optimistic_timer_ms)
        },
{
    let ghost before = peers@;
    let optimistic_due = optimistic_unchoke_due(*optimistic_timer_ms, now_ms);
    if optimistic_due {
        *optimistic_timer_ms = Some(now_ms);
    }
    let ranking = rank_peers_for_unchoke(peers.as_slice(), seeding);
    let ghost u = unchoke_set(ranking@, optimistic_due, random_seed);
    proof {
        assert forall|r: Seq<usize>| is_unchoke_ranking(before, seeding, r) implies r
            == ranking@ by {
            law_unchoke_ranking_unique(before, seeding, r, ranking@);
        }
    }
    let n = peers.len();
    let mut unchoke: Vec<bool> = Vec::new();
    let mut k: usize = 0;
    while k < n
        invariant
            0 <= k <= n,
            unchoke@.len() == k,
            forall|x: int| 0 <= x < k ==> #[trigger] unchoke@[x] == false,
        decreases n - k,
    {
        unchoke.push(false);
        k = k + 1;
    }
    let top = if ranking.len() < UPLOAD_SLOTS_DEFAULT {
        ranking.len()
    } else {
        UPLOAD_SLOTS_DEFAULT
    };
    let mut t: usize = 0;
    while t < top
        invariant
            n == before.len(),
            top <= ranking@.len(),
            top <= UPLOAD_SLOTS_DEFAULT,
            top == ranking@.len() || top == UPLOAD_SLOTS_DEFAULT,
            is_unchoke_ranking(before, seeding, ranking@),
            0 <= t <= top,
            unchoke@.len() == n,
            forall|x: int|
                0 <= x < n ==> #[trigger] unchoke@[x] == (exists|i: int|
                    0 <= i < t && ranking@[i] == x as usize),
        decreases top - t,
    {
        let x = ranking[t];
        proof {
            assert(ranking@.contains(x));
        }
        unchoke.set(x, true);
        proof {
            assert forall|y: int| 0 <= y < n implies #[trigger] unchoke@[y] == (exists|i: int|
                0 <= i < t + 1 && ranking@[i] == y as usize) by {
                if y == x as int {
                    assert(ranking@[t as int] == y as usize);
                }
            }
        }
        t = t + 1;
    }
    proof {
        assert forall|x: int| 0 <= x < n implies #[trigger] unchoke@[x] == Set::new(
            |y: usize|
                exists|i: int|
                    0 <= i < ranking@.len() && i < UPLOAD_SLOTS_DEFAULT && ranking@[i] == y,
        ).contains(x as usize) by {
            if exists|i: int| 0 <= i < top && ranking@[i] == x as usize {
                let i = choose|i: int| 0 <= i < top && ranking@[i] == x as usize;
                assert(0 <= i < ranking@.len() && i < UPLOAD_SLOTS_DEFAULT && ranking@[i]
                    == x as usize);
            }
            if exists|i: int|
                0 <= i < ranking@.len() && i < UPLOAD_SLOTS_DEFAULT && ranking@[i] == x as usize {
                let i = choose|i: int|
                    0 <= i < ranking@.len() && i < UPLOAD_SLOTS_DEFAULT && ranking@[i]
                        == x as usize;
                assert(0 <= i < top && ranking@[i] == x as usize);
            }
        }
    }
    if optimistic_due && ranking.len() > UPLOAD_SLOTS_DEFAULT {
        let rest = ranking.len() - UPLOAD_SLOTS_DEFAULT;
        let idx = (random_seed as usize) % rest;
        let chosen = ranking[UPLOAD_SLOTS_DEFAULT + idx];
        proof {
            assert(ranking@.contains(chosen));
        }
        unchoke.set(chosen, true);
    }
    assert forall|x: int| 0 <= x < n implies #[trigger] unchoke@[x] == u.contains(x as usize)
        by {}
    let mut changes: Vec<(usize, ChokeStatus)> = Vec::new();
    let mut i: usize = 0;
    while i < n
        invariant
            n == before.len(),
            peers@.len() == n,
            unchoke@.len() == n,
            forall|x: int| 0 <= x < n ==> #[trigger] unchoke@[x] == u.contains(x as usize),
            0 <= i <= n,
            changes@ == choke_changes(before, u, i as int),
            forall|x: int| i <= x < n ==> #[trigger] peers@[x] == before[x],
            forall|x: int|
                0 <= x < i ==> {
                    &&& (#[trigger] peers@[x]).ip_port == before[x].ip_port
                    &&& peers@[x].peer_is_interested_in_us == before[x].peer_is_interested_in_us
                    &&& peers@[x].am_choking == if u.contains(x as usize) {
                        ChokeStatus::Unchoke
                    } else {
                        ChokeStatus::Choke
                    }
                    &&& peers@[x].bytes_downloaded_from_peer == 0
                    &&& peers@[x].bytes_uploaded_to_peer == 0
                },
        decreases n - i,
    {
        let chosen = unchoke[i];
        let was_choking = match peers[i].am_choking {
            ChokeStatus::Choke => true,
            ChokeStatus::Unchoke => false,
        };
        let status = if chosen {
            if was_choking {
                changes.push((i, ChokeStatus::Unchoke));
            }
            ChokeStatus::Unchoke
        } else {
            if !was_choking {
                changes.push((i, ChokeStatus::Choke));
            }
            ChokeStatus::Choke
        };
        let peer = ChokePeer {
            ip_port: peers[i].ip_port.clone(),
            am_choking: status,
            peer_is_interested_in_us: peers[i].peer_is_interested_in_us,
            bytes_downloaded_from_peer: 0,
            bytes_uploaded_to_peer: 0,
        };
        peers.set(i, peer);
        i = i + 1;
    }
    changes
}

/// Strictly ordered by rank.
pub open spec fn strictly_ranked(peers: Seq<ChokePeer>, seeding: bool, r: Seq<usize>) -> bool {
    forall|i: int, j: int|
        0 <= i < j < r.len() ==> ranks_before(peers, seeding, #[trigger] r[i] as int, #[trigger] r[j] as int)
}

proof fn lemma_ranked_unique(peers: Seq<ChokePeer>, seeding: bool, r1: Seq<usize>, r2: Seq<usize>)
    requires
        strictly_ranked(peers, seeding, r1),
        strictly_ranked(peers, seeding, r2),
        forall|x: usize| #[trigger] r1.contains(x) <==> r2.contains(x),
    ensures
        r1 == r2,
    decreases r1.len(),
{
    if r1.len() == 0 {
        if r2.len() > 0 {
            assert(r2.contains(r2[0]));
            assert(r1.contains(r2[0]));
        }
        assert(r1 =~= r2);
    } else {
        assert(r1.contains(r1[0]));
        assert(r2.len() > 0);
        assert(r2.contains(r2[0]));
        assert(r1.contains(r2[0]));
        let j = choose|j: int| 0 <= j < r2.len() && r2[j] == r1[0];
        let i = choose|i: int| 0 <= i < r1.len() && r1[i] == r2[0];
        if j > 0 {
            assert(ranks_before(peers, seeding, r2[0] as int, r2[j] as int));
            if i > 0 {
                assert(ranks_before(peers, seeding, r1[0] as int, r1[i] as int));
            }
        }
        assert(r1[0] == r2[0]);
        let t1 = r1.drop_first();
        let t2 = r2.drop_first();
        assert forall|x: usize| #[trigger] t1.contains(x) <==> t2.contains(x) by {
            if t1.contains(x) {
                let a = choose|a: int| 0 <= a < t1.len() && t1[a] == x;
                assert(r1[a + 1] == x);
                assert(ranks_before(peers, seeding, r1[0] as int, r1[a + 1] as int));
                assert(r1.contains(x));
                let b = choose|b: int| 0 <= b < r2.len() && r2[b] == x;
                assert(b != 0);
                assert(t2[b - 1] == x);
            }
            if t2.contains(x) {
                let a = choose|a: int| 0 <= a < t2.len() && t2[a] == x;
                assert(r2[a + 1] == x);
                assert(ranks_before(peers, seeding, r2[0] as int, r2[a + 1] as int));
                assert(r2.contains(x));
                assert(r1.contains(x));
                let b = choose|b: int| 0 <= b < r1.len() && r1[b] == x;
                assert(b != 0);
                assert(t1[b - 1] == x);
            }
        }
        assert forall|a: int, b: int| 0 <= a < b < t1.len() implies ranks_before(peers, seeding, #[trigger] t1[a] as int, #[trigger] t1[b] as int) by {
            assert(t1[a] == r1[a + 1] && t1[b] == r1[b + 1]);
        }
        assert forall|a: int, b: int| 0 <= a < b < t2.len() implies ranks_before(peers, seeding, #[trigger] t2[a] as int, #[trigger] t2[b] as int) by {
            assert(t2[a] == r2[a + 1] && t2[b] == r2[b + 1]);
        }
        lemma_ranked_unique(peers, seeding, t1, t2);
        assert forall|k: int| 0 <= k < r1.len() implies r1[k] == r2[k] by {
            if k > 0 {
                assert(r1[k] == t1[k - 1] && r2[k] == t2[k - 1]);
            }
        }
        assert(r1 =~= r2);
    }
}

/// There is exactly one ranking of the interested peers.
pub proof fn law_unchoke_ranking_unique(
    peers: Seq<ChokePeer>,
    seeding: bool,
    r1: Seq<usize>,
    r2: Seq<usize>,
)
    requires
        is_unchoke_ranking(peers, seeding, r1),
        is_unchoke_ranking(peers, seeding, r2),
    ensures
        r1 == r2,
{
    lemma_ranked_unique(peers, seeding, r1, r2);
}

} // verus!
