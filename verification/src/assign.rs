//! Handing out work to a peer: whether we are interested in it, which pieces
//! to start, and which blocks of a piece to request.
use crate::block_manager::{clip, BlockManager, BLOCK_SIZE};
use crate::geometry::{min, sat_sub, spec_v2_piece_limit, v2_piece_limit, FileRoot};
use std::collections::{HashMap, HashSet};
use vstd::prelude::*;

verus! {

broadcast use vstd::std_specs::hash::group_hash_axioms;

/// The deepest pipeline of block requests kept open with one peer.
pub const MAX_PIPELINE_DEPTH: usize = 512;

/// The peer has piece `p` by its bitfield.
pub open spec fn peer_has(bits: Seq<bool>, p: u32) -> bool {
    p < bits.len() && bits[p as int]
}

/// We want something from the peer: it has a piece we need or one in flight,
/// or we are still waiting on requests to it.
pub open spec fn spec_should_be_interested(
    bits: Seq<bool>,
    need_queue: Seq<u32>,
    pending_pieces: Seq<u32>,
    has_pending_requests: bool,
) -> bool {
    (bits.len() > 0 && ((exists|i: int| 0 <= i < need_queue.len() && peer_has(bits, #[trigger] need_queue[i]))
        || (exists|i: int| 0 <= i < pending_pieces.len() && peer_has(bits, #[trigger] pending_pieces[i]))))
        || has_pending_requests
}

fn has_any(bits: &[bool], pieces: &[u32]) -> (found: bool)
    ensures
        found == exists|i: int| 0 <= i < pieces@.len() && peer_has(bits@, #[trigger] pieces@[i]),
{
    let mut i: usize = 0;
    while i < pieces.len()
        invariant
            0 <= i <= pieces@.len(),
            forall|k: int| 0 <= k < i ==> !peer_has(bits@, #[trigger] pieces@[k]),
        decreases pieces@.len() - i,
    {
        let p = pieces[i];
        if (p as usize) < bits.len() && bits[p as usize] {
            return true;
        }
        i = i + 1;
    }
    false
}

/// Whether we should be interested in a peer, given its bitfield, the pieces
/// we still need, the pieces in flight, and whether we await blocks from it.
pub fn should_be_interested(
    peer_bits: &[bool],
    need_queue: &[u32],
    pending_pieces: &[u32],
    has_pending_requests: bool,
) -> (interested: bool)
    ensures
        interested == spec_should_be_interested(
            peer_bits@,
            need_queue@,
            pending_pieces@,
            has_pending_requests,
        ),
{
    let has_needed = peer_bits.len() > 0 && (has_any(peer_bits, need_queue) || has_any(
        peer_bits,
        pending_pieces,
    ));
    has_needed || has_pending_requests
}

/// The open pipeline slots of a peer with `inflight` requests outstanding.
pub open spec fn spec_available_slots(inflight: usize) -> usize {
    if inflight >= MAX_PIPELINE_DEPTH {
        0
    } else {
        (MAX_PIPELINE_DEPTH - inflight) as usize
    }
}

/// The open pipeline slots of a peer with `inflight` requests outstanding.
pub fn available_slots(inflight: usize) -> (slots: usize)
    ensures
        slots == spec_available_slots(inflight),
{
    if inflight >= MAX_PIPELINE_DEPTH {
        0
    } else {
        MAX_PIPELINE_DEPTH - inflight
    }
}

/// After a block arrives, more work is handed out once the peer's pipeline
/// has drained to half its depth.
pub fn wants_more_work(inflight: usize) -> (more: bool)
    ensures
        more == (inflight <= MAX_PIPELINE_DEPTH / 2),
{
    inflight <= MAX_PIPELINE_DEPTH / 2
}

// ---------------------------------------------------------------------------
// Block requests for one piece
// ---------------------------------------------------------------------------

/// The number of blocks piece `p` is requested in.
pub open spec fn local_block_count(bm: BlockManager, p: u32) -> int {
    (bm.spec_piece_size(p) + BLOCK_SIZE - 1) / (BLOCK_SIZE as int)
}

/// The length of block `k` of piece `p` (the last one may be short).
pub open spec fn local_block_len(bm: BlockManager, p: u32, k: int) -> int {
    min(BLOCK_SIZE as int, bm.spec_piece_size(p) - k * BLOCK_SIZE)
}

/// The length asked for block `k` of piece `p`, clamped to the piece's v2
/// size limit.
pub open spec fn clamp_request(len: int, offset: int, limit: Option<u32>) -> int {
    match limit {
        Some(l) => min(len, sat_sub(l as int, offset)),
        None => len,
    }
}

/// The request (piece, offset in the piece, length) for block `k` of piece `p`.
pub open spec fn spec_request(
    bm: BlockManager,
    roots: Map<u32, FileRoot>,
    piece_len: u64,
    p: u32,
    k: int,
) -> (u32, u32, u32) {
    (
        p,
        (k * BLOCK_SIZE) as u32,
        clamp_request(
            local_block_len(bm, p, k),
            k * BLOCK_SIZE,
            spec_v2_piece_limit(roots, piece_len, p),
        ) as u32,
    )
}

/// Global block `g` is marked held (blocks off the grid are not).
pub open spec fn grid_held(bm: BlockManager, g: int) -> bool {
    0 <= g < bm.block_bitfield@.len() && bm.block_bitfield@[g]
}

/// Block `k` of piece `p` is held: every block of the global grid that its
/// bytes touch is marked held.
pub open spec fn local_block_held(bm: BlockManager, p: u32, k: int) -> bool {
    let first_byte = p * bm.piece_length + k * BLOCK_SIZE;
    let last_byte = first_byte + local_block_len(bm, p, k) - 1;
    forall|g: int|
        first_byte / (BLOCK_SIZE as int) <= g <= last_byte / (BLOCK_SIZE as int) ==> #[trigger]
            grid_held(bm, g)
}

/// Block `k` of piece `p` sits in the piece's assembly buffer already.
pub open spec fn buffered(bm: BlockManager, p: u32, k: int) -> bool {
    &&& bm.legacy_buffers@.contains_key(p)
    &&& 0 <= k < bm.legacy_buffers@[p]@.mask.len()
    &&& bm.legacy_buffers@[p]@.mask[k]
}

/// Block `k` of piece `p` is neither held nor buffered.
pub open spec fn block_open(bm: BlockManager, p: u32, k: int) -> bool {
    !local_block_held(bm, p, k) && !buffered(bm, p, k)
}

/// The requests for the first `n` blocks of piece `p`, in order: each open
/// block with a non-empty request that the peer is not already working on
/// (counting the requests made before it).
pub open spec fn piece_picks(
    bm: BlockManager,
    roots: Map<u32, FileRoot>,
    piece_len: u64,
    p: u32,
    active: Seq<(u32, u32, u32)>,
    n: int,
) -> Seq<(u32, u32, u32)>
    decreases n,
{
    if n <= 0 {
        seq![]
    } else {
        let prev = piece_picks(bm, roots, piece_len, p, active, n - 1);
        let r = spec_request(bm, roots, piece_len, p, n - 1);
        if block_open(bm, p, n - 1) && r.2 > 0 && !(active + prev).contains(r) {
            prev.push(r)
        } else {
            prev
        }
    }
}

proof fn lemma_picks_prefix(
    bm: BlockManager,
    roots: Map<u32, FileRoot>,
    piece_len: u64,
    p: u32,
    active: Seq<(u32, u32, u32)>,
    m: int,
    n: int,
)
    requires
        0 <= m <= n,
    ensures
        piece_picks(bm, roots, piece_len, p, active, m).len() <= piece_picks(
            bm,
            roots,
            piece_len,
            p,
            active,
            n,
        ).len(),
        piece_picks(bm, roots, piece_len, p, active, n).take(
            piece_picks(bm, roots, piece_len, p, active, m).len() as int,
        ) == piece_picks(bm, roots, piece_len, p, active, m),
    decreases n - m,
{
    let pm = piece_picks(bm, roots, piece_len, p, active, m);
    if m < n {
        lemma_picks_prefix(bm, roots, piece_len, p, active, m, n - 1);
        let pn1 = piece_picks(bm, roots, piece_len, p, active, n - 1);
        let pn = piece_picks(bm, roots, piece_len, p, active, n);
        assert(pn.take(pn1.len() as int) =~= pn1);
        assert(pn.take(pm.len() as int) =~= pn1.take(pm.len() as int));
    } else {
        assert(pm.take(pm.len() as int) =~= pm);
    }
}

/// Every block request made for a piece is for one of its blocks that we
/// neither hold nor have buffered, stays within the piece, asks for at least
/// one byte, is not one the peer is already working on, and is made once.
pub proof fn law_piece_requests_are_fresh(
    bm: BlockManager,
    roots: Map<u32, FileRoot>,
    piece_len: u64,
    p: u32,
    active: Seq<(u32, u32, u32)>,
    n: int,
)
    requires
        n <= local_block_count(bm, p),
    ensures
        forall|i: int|
            0 <= i < piece_picks(bm, roots, piece_len, p, active, n).len() ==> {
                let r = #[trigger] piece_picks(bm, roots, piece_len, p, active, n)[i];
                &&& exists|k: int|
                    0 <= k < n && block_open(bm, p, k) && r == spec_request(
                        bm,
                        roots,
                        piece_len,
                        p,
                        k,
                    )
                &&& r.0 == p
                &&& r.2 > 0
                &&& r.1 + r.2 <= bm.spec_piece_size(p)
                &&& !active.contains(r)
            },
        forall|a: int, b: int|
            0 <= a < b < piece_picks(bm, roots, piece_len, p, active, n).len()
                ==> #[trigger] piece_picks(bm, roots, piece_len, p, active, n)[a]
                != #[trigger] piece_picks(bm, roots, piece_len, p, active, n)[b],
    decreases n,
{
    if n > 0 {
        law_piece_requests_are_fresh(bm, roots, piece_len, p, active, n - 1);
        let prev = piece_picks(bm, roots, piece_len, p, active, n - 1);
        let cur = piece_picks(bm, roots, piece_len, p, active, n);
        let r = spec_request(bm, roots, piece_len, p, n - 1);
        let size = bm.spec_piece_size(p) as int;
        assert((n - 1) * BLOCK_SIZE < size) by (nonlinear_arith)
            requires
                n - 1 < (size + BLOCK_SIZE - 1) / (BLOCK_SIZE as int),
                size >= 0,
        ;
        if block_open(bm, p, n - 1) && r.2 > 0 && !(active + prev).contains(r) {
            assert(cur == prev.push(r));
            assert forall|i: int| 0 <= i < cur.len() implies {
                let x = #[trigger] cur[i];
                &&& exists|k: int|
                    0 <= k < n && block_open(bm, p, k) && x == spec_request(
                        bm,
                        roots,
                        piece_len,
                        p,
                        k,
                    )
                &&& x.0 == p
                &&& x.2 > 0
                &&& x.1 + x.2 <= bm.spec_piece_size(p)
                &&& !active.contains(x)
            } by {
                if i < prev.len() {
                    assert(cur[i] == prev[i]);
                    let x = prev[i];
                    let k = choose|k: int|
                        0 <= k < n - 1 && block_open(bm, p, k) && x == spec_request(
                            bm,
                            roots,
                            piece_len,
                            p,
                            k,
                        );
                    assert(0 <= k < n);
                } else {
                    assert(cur[i] == r);
                    if active.contains(r) {
                        let j = choose|j: int| 0 <= j < active.len() && active[j] == r;
                        assert((active + prev)[j] == r);
                    }
                    assert(0 <= n - 1 < n);
                }
            }
            assert forall|a: int, b: int| 0 <= a < b < cur.len() implies #[trigger] cur[a]
                != #[trigger] cur[b] by {
                if b < prev.len() {
                    assert(cur[a] == prev[a] && cur[b] == prev[b]);
                } else {
                    assert(cur[a] == prev[a]);
                    assert(cur[b] == r);
                    assert((active + prev)[active.len() + a] == prev[a]);
                }
            }
        } else {
            assert(cur == prev);
            assert forall|i: int| 0 <= i < cur.len() implies {
                let x = #[trigger] cur[i];
                &&& exists|k: int|
                    0 <= k < n && block_open(bm, p, k) && x == spec_request(
                        bm,
                        roots,
                        piece_len,
                        p,
                        k,
                    )
                &&& x.0 == p
                &&& x.2 > 0
                &&& x.1 + x.2 <= bm.spec_piece_size(p)
                &&& !active.contains(x)
            } by {
                let x = prev[i];
                let k = choose|k: int|
                    0 <= k < n - 1 && block_open(bm, p, k) && x == spec_request(
                        bm,
                        roots,
                        piece_len,
                        p,
                        k,
                    );
                assert(0 <= k < n);
            }
        }
    }
}

fn contains_request(v: &Vec<(u32, u32, u32)>, r: (u32, u32, u32)) -> (found: bool)
    ensures
        found == v@.contains(r),
{
    let mut i: usize = 0;
    while i < v.len()
        invariant
            0 <= i <= v@.len(),
            forall|k: int| 0 <= k < i ==> v@[k] != r,
        decreases v@.len() - i,
    {
        let (a, b, c) = v[i];
        if a == r.0 && b == r.1 && c == r.2 {
            assert(v@[i as int] == r);
            return true;
        }
        i = i + 1;
    }
    false
}

fn grid_bit(bm: &BlockManager, g: u64) -> (held: bool)
    ensures
        held == grid_held(*bm, g as int),
{
    if g >= bm.block_bitfield.len() as u64 {
        return false;
    }
    bm.block_bitfield[g as usize]
}

/// Requests the blocks of piece `piece_index` that are still to come, in
/// piece-local terms: walking its blocks in order, every block neither held
/// nor buffered, with its length clamped to the piece's v2 limit, that is not
/// empty and not already among the peer's active requests, until the open
/// slots run out. The requests are appended to the batch and to the peer's
/// active requests.
pub fn request_blocks_for_piece(
    bm: &BlockManager,
    roots: &HashMap<u32, FileRoot>,
    piece_len: u64,
    piece_index: u32,
    active: &mut Vec<(u32, u32, u32)>,
    batch: &mut Vec<(u32, u32, u32)>,
    slots: &mut usize,
)
    requires
        piece_len <= u32::MAX,
    ensures
        ({
            let picks = clip(
                piece_picks(
                    *bm,
                    roots@,
                    piece_len,
                    piece_index,
                    old(active)@,
                    local_block_count(*bm, piece_index),
                ),
                *old(slots) as int,
            );
            &&& final(batch)@ == old(batch)@ + picks
            &&& final(active)@ == old(active)@ + picks
            &&& *final(slots) == *old(slots) - picks.len()
        }),
{
    let ghost active0 = active@;
    let ghost batch0 = batch@;
    let ghost slots0 = *slots as int;
    let size = bm.calculate_piece_size(piece_index) as u64;
    let n: u64 = (size + 16383) / 16384;
    proof {
        assert(piece_index as int * piece_len as int <= u64::MAX) by (nonlinear_arith)
            requires
                piece_index <= u32::MAX,
                piece_len <= u32::MAX,
        ;
        assert(piece_index as int * bm.piece_length as int <= 0xFFFF_FFFE_0000_0001) by (
        nonlinear_arith)
            requires
                piece_index <= u32::MAX,
                bm.piece_length <= u32::MAX,
        ;
    }
    let limit = v2_piece_limit(roots, piece_len, piece_index);
    let piece_start = piece_index as u64 * bm.piece_length as u64;
    let mut k: u64 = 0;
    while k < n && *slots > 0
        invariant
            size == bm.spec_piece_size(piece_index),
            n == local_block_count(*bm, piece_index),
            limit == spec_v2_piece_limit(roots@, piece_len, piece_index),
            piece_start == piece_index * bm.piece_length,
            piece_start <= 0xFFFF_FFFE_0000_0001,
            0 <= k <= n,
            ({
                let picks = piece_picks(*bm, roots@, piece_len, piece_index, active0, k as int);
                &&& picks.len() <= slots0
                &&& *slots == slots0 - picks.len()
                &&& batch@ == batch0 + picks
                &&& active@ == active0 + picks
            }),
        decreases n - k,
    {
        let ghost prev = piece_picks(*bm, roots@, piece_len, piece_index, active0, k as int);
        proof {
            assert(k * 16384 < size) by (nonlinear_arith)
                requires
                    k < n,
                    n == (size + 16383) / 16384,
            ;
        }
        let offset = k * 16384;
        let left = size - offset;
        let len = if left < 16384 {
            left
        } else {
            16384
        };
        let first_byte = piece_start + offset;
        let first = first_byte / 16384;
        let last = (first_byte + len - 1) / 16384;
        proof {
            assert(last <= first + 1) by (nonlinear_arith)
                requires
                    1 <= len <= 16384,
                    first == first_byte / 16384,
                    last == (first_byte + len - 1) / 16384,
            ;
        }
        let held = grid_bit(bm, first) && (last == first || grid_bit(bm, last));
        proof {
            assert(held == local_block_held(*bm, piece_index, k as int)) by {
                if held {
                    assert forall|g: int| first <= g <= last implies #[trigger] grid_held(*bm, g) by {
                        if g != first as int {
                            assert(g == last as int);
                        }
                    }
                } else {
                    if !grid_held(*bm, first as int) {
                        assert(!grid_held(*bm, first as int));
                    } else {
                        assert(!grid_held(*bm, last as int));
                    }
                }
            }
        }
        let in_buffer = match bm.legacy_buffers.get(&piece_index) {
            Some(a) => (k as usize) < a.mask.len() && a.mask[k as usize],
            None => false,
        };
        if !held && !in_buffer {
            let clamped = match limit {
                Some(l) => {
                    let rem = (l as u64).saturating_sub(offset);
                    if len <= rem {
                        len
                    } else {
                        rem
                    }
                },
                None => len,
            };
            if clamped > 0 {
                let r = (piece_index, offset as u32, clamped as u32);
                assert(r == spec_request(*bm, roots@, piece_len, piece_index, k as int));
                if !contains_request(active, r) {
                    active.push(r);
                    batch.push(r);
                    *slots = *slots - 1;
                    proof {
                        assert(active@ =~= active0 + prev.push(r));
                        assert(batch@ =~= batch0 + prev.push(r));
                    }
                }
            }
        }
        k = k + 1;
    }
    proof {
        let pk = piece_picks(*bm, roots@, piece_len, piece_index, active0, k as int);
        let pn = piece_picks(*bm, roots@, piece_len, piece_index, active0, n as int);
        lemma_picks_prefix(*bm, roots@, piece_len, piece_index, active0, k as int, n as int);
        if k < n {
            assert(pk.len() == slots0);
            assert(clip(pn, slots0) =~= pk);
        } else {
            assert(clip(pn, slots0) =~= pn);
        }
    }
}

// ---------------------------------------------------------------------------
// Pieces to start
// ---------------------------------------------------------------------------

/// Candidate `i` may be started with this peer: the peer has it, it is not
/// being verified, and it is not already requested from this peer.
pub open spec fn candidate_ok(
    cand: Seq<u32>,
    bits: Seq<bool>,
    verifying: Set<u32>,
    pending: Seq<u32>,
    i: int,
) -> bool {
    peer_has(bits, cand[i]) && !verifying.contains(cand[i]) && !pending.contains(cand[i])
}

/// Candidate `a` comes before candidate `b`: fewer peers have it, or as many
/// and it was listed earlier.
pub open spec fn scarcer_first(avail: Seq<usize>, a: int, b: int) -> bool {
    avail[a] < avail[b] || (avail[a] == avail[b] && a < b)
}

/// `r` lists the positions of the candidates that may be started, scarcest
/// first.
pub open spec fn is_candidate_order(
    cand: Seq<u32>,
    avail: Seq<usize>,
    bits: Seq<bool>,
    verifying: Set<u32>,
    pending: Seq<u32>,
    r: Seq<usize>,
) -> bool {
    &&& forall|i: int, j: int|
        0 <= i < j < r.len() ==> scarcer_first(avail, #[trigger] r[i] as int, #[trigger] r[j] as int)
    &&& forall|x: usize|
        #[trigger] r.contains(x) <==> (x < cand.len() && candidate_ok(
            cand,
            bits,
            verifying,
            pending,
            x as int,
        ))
}

proof fn lemma_order_unique(avail: Seq<usize>, r1: Seq<usize>, r2: Seq<usize>)
    requires
        forall|i: int, j: int|
            0 <= i < j < r1.len() ==> scarcer_first(avail, #[trigger] r1[i] as int, #[trigger] r1[j] as int),
        forall|i: int, j: int|
            0 <= i < j < r2.len() ==> scarcer_first(avail, #[trigger] r2[i] as int, #[trigger] r2[j] as int),
        forall|x: usize| #[trigger] r1.contains(x) <==> r2.contains(x),
    ensures
        r1 == r2,
    decreases r1.len(),
{
    if r1.len() == 0 {
        if r2.len() > 0 {
            assert(r2.contains(r2[0]));
            assert(r1.contains(r2[0]));
        }
        assert(r1 =~= r2);
    } else {
        assert(r1.contains(r1[0]));
        assert(r2.contains(r2[0]));
        assert(r1.contains(r2[0]));
        let j = choose|j: int| 0 <= j < r2.len() && r2[j] == r1[0];
        let i = choose|i: int| 0 <= i < r1.len() && r1[i] == r2[0];
        if j > 0 {
            assert(scarcer_first(avail, r2[0] as int, r2[j] as int));
            if i > 0 {
                assert(scarcer_first(avail, r1[0] as int, r1[i] as int));
            }
        }
        assert(r1[0] == r2[0]);
        let t1 = r1.drop_first();
        let t2 = r2.drop_first();
        assert forall|x: usize| #[trigger] t1.contains(x) <==> t2.contains(x) by {
            if t1.contains(x) {
                let a = choose|a: int| 0 <= a < t1.len() && t1[a] == x;
                assert(r1[a + 1] == x);
                assert(scarcer_first(avail, r1[0] as int, r1[a + 1] as int));
                assert(r1.contains(x));
                let b = choose|b: int| 0 <= b < r2.len() && r2[b] == x;
                assert(b != 0);
                assert(t2[b - 1] == x);
            }
            if t2.contains(x) {
                let a = choose|a: int| 0 <= a < t2.len() && t2[a] == x;
                assert(r2[a + 1] == x);
                assert(scarcer_first(avail, r2[0] as int, r2[a + 1] as int));
                assert(r2.contains(x));
                assert(r1.contains(x));
                let b = choose|b: int| 0 <= b < r1.len() && r1[b] == x;
                assert(b != 0);
                assert(t1[b - 1] == x);
            }
        }
        assert forall|a: int, b: int| 0 <= a < b < t1.len() implies scarcer_first(
            avail,
            #[trigger] t1[a] as int,
            #[trigger] t1[b] as int,
        ) by {
            assert(t1[a] == r1[a + 1] && t1[b] == r1[b + 1]);
        }
        assert forall|a: int, b: int| 0 <= a < b < t2.len() implies scarcer_first(
            avail,
            #[trigger] t2[a] as int,
            #[trigger] t2[b] as int,
        ) by {
            assert(t2[a] == r2[a + 1] && t2[b] == r2[b + 1]);
        }
        lemma_order_unique(avail, t1, t2);
        assert forall|k: int| 0 <= k < r1.len() implies r1[k] == r2[k] by {
            if k > 0 {
                assert(r1[k] == t1[k - 1] && r2[k] == t2[k - 1]);
            }
        }
        assert(r1 =~= r2);
    }
}

/// There is one order of the pieces that may be started with a peer.
pub proof fn law_candidate_order_unique(
    cand: Seq<u32>,
    avail: Seq<usize>,
    bits: Seq<bool>,
    verifying: Set<u32>,
    pending: Seq<u32>,
    r1: Seq<usize>,
    r2: Seq<usize>,
)
    requires
        is_candidate_order(cand, avail, bits, verifying, pending, r1),
        is_candidate_order(cand, avail, bits, verifying, pending, r2),
    ensures
        r1 == r2,
{
    lemma_order_unique(avail, r1, r2);
}

/// The candidates at the positions `r`, in order.
pub open spec fn pieces_at(cand: Seq<u32>, r: Seq<usize>) -> Seq<u32> {
    r.map_values(|x: usize| cand[x as int])
}

fn slice_has(v: &[u32], x: u32) -> (found: bool)
    ensures
        found == v@.contains(x),
{
    let mut i: usize = 0;
    while i < v.len()
        invariant
            0 <= i <= v@.len(),
            forall|k: int| 0 <= k < i ==> v@[k] != x,
        decreases v@.len() - i,
    {
        if v[i] == x {
            return true;
        }
        i = i + 1;
    }
    false
}

fn candidate_order(
    candidates: &[u32],
    availability: &[usize],
    peer_bits: &[bool],
    verifying: &HashSet<u32>,
    peer_pending: &[u32],
) -> (order: Vec<usize>)
    requires
        availability@.len() == candidates@.len(),
    ensures
        is_candidate_order(
            candidates@,
            availability@,
            peer_bits@,
            verifying@,
            peer_pending@,
            order@,
        ),
{
    let n = candidates.len();
    let mut order: Vec<usize> = Vec::new();
    let mut i: usize = 0;
    while i < n
        invariant
            n == candidates@.len(),
            availability@.len() == n,
            0 <= i <= n,
            forall|a: int, b: int|
                0 <= a < b < order@.len() ==> scarcer_first(
                    availability@,
                    #[trigger] order@[a] as int,
                    #[trigger] order@[b] as int,
                ),
            forall|x: usize|
                #[trigger] order@.contains(x) <==> (x < i && candidate_ok(
                    candidates@,
                    peer_bits@,
                    verifying@,
                    peer_pending@,
                    x as int,
                )),
        decreases n - i,
    {
        let p = candidates[i];
        let ok = (p as usize) < peer_bits.len() && peer_bits[p as usize] && !verifying.contains(&p)
            && !slice_has(peer_pending, p);
        if ok {
            let key = availability[i];
            let mut j: usize = 0;
            while j < order.len()
                invariant
                    n == candidates@.len(),
                    availability@.len() == n,
                    i < n,
                    0 <= j <= order@.len(),
                    key == availability@[i as int],
                    forall|x: usize|
                        #[trigger] order@.contains(x) <==> (x < i && candidate_ok(
                            candidates@,
                            peer_bits@,
                            verifying@,
                            peer_pending@,
                            x as int,
                        )),
                    forall|t: int| 0 <= t < j ==> availability@[#[trigger] order@[t] as int] <= key,
                ensures
                    0 <= j <= order@.len(),
                    forall|t: int| 0 <= t < j ==> availability@[#[trigger] order@[t] as int] <= key,
                    j < order@.len() ==> availability@[order@[j as int] as int] > key,
                decreases order@.len() - j,
            {
                let r = order[j];
                proof {
                    assert(order@.contains(r));
                }
                if availability[r] > key {
                    break;
                }
                j = j + 1;
            }
            let ghost old_r = order@;
            proof {
                assert forall|x: usize| old_r.contains(x) implies x < i by {}
            }
            order.insert(j, i);
            proof {
                let nr = order@;
                assert forall|a: int, b: int| 0 <= a < b < nr.len() implies scarcer_first(
                    availability@,
                    #[trigger] nr[a] as int,
                    #[trigger] nr[b] as int,
                ) by {
                    if b < j {
                        assert(nr[a] == old_r[a] && nr[b] == old_r[b]);
                    } else if b == j {
                        assert(nr[a] == old_r[a]);
                        assert(old_r.contains(old_r[a]));
                    } else if a == j {
                        assert(nr[b] == old_r[b - 1]);
                        assert(old_r.contains(old_r[b - 1]));
                        if b - 1 > j {
                            assert(scarcer_first(
                                availability@,
                                old_r[j as int] as int,
                                old_r[b - 1] as int,
                            ));
                        }
                    } else if a < j {
                        assert(nr[a] == old_r[a] && nr[b] == old_r[b - 1]);
                    } else {
                        assert(nr[a] == old_r[a - 1] && nr[b] == old_r[b - 1]);
                    }
                }
                assert forall|x: usize| #[trigger] nr.contains(x) <==> (x < i + 1 && candidate_ok(
                    candidates@,
                    peer_bits@,
                    verifying@,
                    peer_pending@,
                    x as int,
                )) by {
                    if nr.contains(x) {
                        let t = choose|t: int| 0 <= t < nr.len() && nr[t] == x;
                        if t < j {
                            assert(old_r[t] == x);
                            assert(old_r.contains(x));
                        } else if t > j {
                            assert(old_r[t - 1] == x);
                            assert(old_r.contains(x));
                        }
                    }
                    if x < i + 1 && candidate_ok(
                        candidates@,
                        peer_bits@,
                        verifying@,
                        peer_pending@,
                        x as int,
                    ) {
                        if x == i {
                            assert(nr[j as int] == x);
                        } else {
                            assert(old_r.contains(x));
                            let t = choose|t: int| 0 <= t < old_r.len() && old_r[t] == x;
                            if t < j {
                                assert(nr[t] == x);
                            } else {
                                assert(nr[t + 1] == x);
                            }
                        }
                    }
                }
            }
        } else {
            proof {
                assert forall|x: usize| #[trigger] order@.contains(x) <==> (x < i + 1 && candidate_ok(
                    candidates@,
                    peer_bits@,
                    verifying@,
                    peer_pending@,
                    x as int,
                )) by {
                    if x == i && order@.contains(x) {
                        assert(x < i);
                    }
                }
            }
        }
        i = i + 1;
    }
    order
}

/// The pieces to start with a peer: among the candidates (the need queue, and
/// in endgame also the pieces in flight), those the peer has that are neither
/// being verified nor already requested from it, scarcest first (ties in
/// listed order), as many as there are open slots.
pub fn choose_pieces_to_start(
    candidates: &[u32],
    availability: &[usize],
    peer_bits: &[bool],
    verifying: &HashSet<u32>,
    peer_pending: &[u32],
    slots: usize,
) -> (chosen: Vec<u32>)
    requires
        availability@.len() == candidates@.len(),
    ensures
        exists|r: Seq<usize>|
            is_candidate_order(
                candidates@,
                availability@,
                peer_bits@,
                verifying@,
                peer_pending@,
                r,
            ),
        forall|r: Seq<usize>|
            is_candidate_order(
                candidates@,
                availability@,
                peer_bits@,
                verifying@,
                peer_pending@,
                r,
            ) ==> chosen@ == clip(pieces_at(candidates@, r), slots as int),
{
    let order = candidate_order(candidates, availability, peer_bits, verifying, peer_pending);
    let ghost r0 = order@;
    let mut chosen: Vec<u32> = Vec::new();
    let mut k: usize = 0;
    while k < order.len() && k < slots
        invariant
            0 <= k <= order@.len(),
            k <= slots,
            order@ == r0,
            is_candidate_order(
                candidates@,
                availability@,
                peer_bits@,
                verifying@,
                peer_pending@,
                r0,
            ),
            chosen@ == pieces_at(candidates@, r0).take(k as int),
        decreases order@.len() - k,
    {
        let x = order[k];
        proof {
            assert(r0.contains(x));
        }
        chosen.push(candidates[x]);
        k = k + 1;
        proof {
            assert(chosen@ =~= pieces_at(candidates@, r0).take(k as int));
        }
    }
    proof {
        let ps = pieces_at(candidates@, r0);
        if ps.len() <= slots {
            assert(chosen@ =~= ps);
        }
        assert(chosen@ == clip(ps, slots as int));
        assert forall|r: Seq<usize>|
            is_candidate_order(
                candidates@,
                availability@,
                peer_bits@,
                verifying@,
                peer_pending@,
                r,
            ) implies chosen@ == clip(pieces_at(candidates@, r), slots as int) by {
            lemma_order_unique(availability@, r, r0);
        }
    }
    chosen
}

} // verus!
