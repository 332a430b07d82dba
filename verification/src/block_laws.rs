//! Properties of the block bookkeeping that span several operations.
use crate::block_manager::{
    bitfield_views, rarity_of, spec_apply_block, spec_flatten, spec_rarity_map, AssemblerView,
    BlockAddress, BlockDecision, BlockManager, BlockResult, BLOCK_SIZE,
};
use crate::block_manager::{lemma_first_file_holds, lemma_u32_product};
use vstd::prelude::*;

verus! {

/// Flattening the address of grid block `g` gives `g` back.
pub proof fn law_flatten_inflate(m: BlockManager, g: u32)
    requires
        m.piece_length > 0,
    ensures
        spec_flatten(m.spec_inflate(g)) == g,
{
    let off = g as int * BLOCK_SIZE as int;
    assert(off / BLOCK_SIZE as int == g);
}

/// The address of a grid block is never longer than a block, and never runs
/// past the end of its piece.
pub proof fn law_inflate_within_piece(m: BlockManager, g: u32)
    requires
        m.piece_length > 0,
    ensures
        ({
            let a = m.spec_inflate(g);
            let size = m.spec_piece_size(a.piece_index);
            &&& a.length <= BLOCK_SIZE
            &&& a.byte_offset < m.piece_length
            &&& a.byte_offset <= size ==> a.byte_offset + a.length <= size
            &&& a.block_index == a.byte_offset / BLOCK_SIZE
        }),
{
}

/// A block address built from a piece, an offset and a length never runs past
/// the end of its piece.
pub proof fn law_overlay_within_piece(m: BlockManager, piece_index: u32, byte_offset: u32, length: u32)
    requires
        byte_offset + length <= u32::MAX,
    ensures
        m.spec_overlay(piece_index, byte_offset, length) matches Some(a) ==> a.byte_offset
            + a.length <= m.spec_piece_size(piece_index),
{
}

/// Once piece `p` is committed whole, it is complete.
pub proof fn law_commit_completes_piece(before: BlockManager, after: BlockManager, p: u32)
    requires
        before.wf(),
        BlockManager::spec_piece_committed(before, after, p),
    ensures
        after.spec_piece_complete(p),
{
    assert(after.piece_lengths@ == before.piece_lengths@);
    assert(after.spec_block_range(p) == before.spec_block_range(p));
    let (start, end) = before.spec_block_range(p);
    assert forall|i: int| start <= i < end implies i < after.block_bitfield@.len()
        && #[trigger] after.block_bitfield@[i] by {}
}

/// Once piece `p` is reverted, it is not complete, as long as it touches at
/// least one block.
pub proof fn law_revert_uncompletes_piece(before: BlockManager, after: BlockManager, p: u32)
    requires
        before.wf(),
        BlockManager::spec_piece_reverted(before, after, p),
        before.spec_block_range(p).0 < before.spec_block_range(p).1,
    ensures
        !after.spec_piece_complete(p),
{
    assert(after.piece_lengths@ == before.piece_lengths@);
    assert(after.spec_block_range(p) == before.spec_block_range(p));
    let (start, end) = before.spec_block_range(p);
    assert(!after.block_bitfield@[start as int]);
}

/// After a block is committed, a copy of it arriving is a duplicate, or an
/// error when it lies off the grid; once accepted, it is always a duplicate.
pub proof fn law_committed_block_is_duplicate(
    before: BlockManager,
    after: BlockManager,
    addr: BlockAddress,
    result: BlockResult,
)
    requires
        BlockManager::spec_block_committed(before, after, addr, result),
    ensures
        after.spec_decision(addr) == BlockDecision::Duplicate || after.spec_decision(addr)
            == BlockDecision::Error,
        result == BlockResult::Accepted ==> after.spec_decision(addr) == BlockDecision::Duplicate,
{
}

/// Committing the same block twice: the second commit is a duplicate and
/// changes neither the bitfield nor the pending set.
pub proof fn law_commit_block_idempotent(
    s0: BlockManager,
    s1: BlockManager,
    s2: BlockManager,
    addr: BlockAddress,
    r1: BlockResult,
    r2: BlockResult,
)
    requires
        BlockManager::spec_block_committed(s0, s1, addr, r1),
        BlockManager::spec_block_committed(s1, s2, addr, r2),
    ensures
        r2 == BlockResult::Duplicate,
        s2.block_bitfield@ == s1.block_bitfield@,
        s2.pending_blocks@ == s1.pending_blocks@,
{
}

/// Every address of the list is that of a wanted block.
spec fn all_wanted(m: BlockManager, s: Seq<BlockAddress>, endgame_mode: bool) -> bool {
    forall|i: int|
        0 <= i < s.len() ==> m.spec_block_wanted(spec_flatten(#[trigger] s[i]), endgame_mode)
            && s[i] == m.spec_inflate(spec_flatten(s[i]))
}

proof fn lemma_block_picks_wanted(m: BlockManager, start: u32, end: int, endgame_mode: bool)
    requires
        m.piece_length > 0,
        end <= u32::MAX + 1,
    ensures
        all_wanted(m, m.spec_block_picks(start, end, endgame_mode), endgame_mode),
    decreases end - start,
{
    if end > start {
        lemma_block_picks_wanted(m, start, end - 1, endgame_mode);
        let prev = m.spec_block_picks(start, end - 1, endgame_mode);
        let all = m.spec_block_picks(start, end, endgame_mode);
        let g = (end - 1) as u32;
        law_flatten_inflate(m, g);
        assert forall|i: int| 0 <= i < all.len() implies m.spec_block_wanted(
            spec_flatten(#[trigger] all[i]),
            endgame_mode,
        ) && all[i] == m.spec_inflate(spec_flatten(all[i])) by {
            if i < prev.len() {
                assert(all[i] == prev[i]);
            } else {
                assert(all[i] == m.spec_inflate(g));
            }
        }
    }
}

proof fn lemma_candidates_wanted(
    m: BlockManager,
    peer: Seq<bool>,
    pieces: Seq<u32>,
    endgame_mode: bool,
)
    requires
        m.piece_length > 0,
    ensures
        all_wanted(m, m.spec_candidate_blocks(peer, pieces, endgame_mode), endgame_mode),
    decreases pieces.len(),
{
    if pieces.len() > 0 {
        lemma_candidates_wanted(m, peer, pieces.drop_last(), endgame_mode);
        let prev = m.spec_candidate_blocks(peer, pieces.drop_last(), endgame_mode);
        let last = m.spec_piece_picks(peer, pieces.last(), endgame_mode);
        let all = m.spec_candidate_blocks(peer, pieces, endgame_mode);
        let (start, end) = m.spec_block_range(pieces.last());
        lemma_block_picks_wanted(m, start, end as int, endgame_mode);
        assert(all == prev + last);
        assert forall|i: int| 0 <= i < all.len() implies m.spec_block_wanted(
            spec_flatten(#[trigger] all[i]),
            endgame_mode,
        ) && all[i] == m.spec_inflate(spec_flatten(all[i])) by {
            if i < prev.len() {
                assert(all[i] == prev[i]);
            } else {
                assert(all[i] == last[i - prev.len()]);
            }
        }
    }
}

/// No block picked for a peer is already held, and outside endgame mode none
/// is already pending.
pub proof fn law_picked_blocks_are_wanted(
    m: BlockManager,
    peer_bitfield: Seq<bool>,
    rarest_pieces: Seq<u32>,
    count: int,
    endgame_mode: bool,
    i: int,
)
    requires
        m.piece_length > 0,
        count >= 0,
        0 <= i < crate::block_manager::clip(
            m.spec_candidate_blocks(peer_bitfield, rarest_pieces, endgame_mode),
            count,
        ).len(),
    ensures
        ({
            let g = spec_flatten(
                crate::block_manager::clip(
                    m.spec_candidate_blocks(peer_bitfield, rarest_pieces, endgame_mode),
                    count,
                )[i],
            );
            &&& !m.spec_have(g)
            &&& !endgame_mode ==> !m.pending_blocks@.contains(g)
        }),
{
    let all = m.spec_candidate_blocks(peer_bitfield, rarest_pieces, endgame_mode);
    let picked = crate::block_manager::clip(all, count);
    assert(picked[i] == all[i]);
    lemma_candidates_wanted(m, peer_bitfield, rarest_pieces, endgame_mode);
}

/// No more peers are counted as having a piece than there are bitfields.
pub proof fn law_rarity_bounded(bitfields: Seq<Vec<bool>>, k: u32)
    requires
        bitfields.len() <= usize::MAX,
    ensures
        spec_rarity_map(bitfield_views(bitfields)).contains_key(k) ==> spec_rarity_map(
            bitfield_views(bitfields),
        )[k] <= bitfields.len(),
{
    crate::block_manager::lemma_rarity_bound(bitfield_views(bitfields), k as int);
}

/// Writing a block into an assembler keeps the buffer's length, and, when the
/// block is taken, puts its bytes at its offset and counts one more block.
pub proof fn law_apply_block_in_place(a: AssemblerView, addr: BlockAddress, data: Seq<u8>)
    requires
        addr.block_index < a.mask.len(),
    ensures
        spec_apply_block(a, addr, data).buffer.len() == a.buffer.len(),
        spec_apply_block(a, addr, data) != a ==> {
            &&& spec_apply_block(a, addr, data).buffer.subrange(
                addr.byte_offset as int,
                addr.byte_offset + data.len(),
            ) == data
            &&& spec_apply_block(a, addr, data).received_blocks == a.received_blocks + 1
            &&& spec_apply_block(a, addr, data).mask[addr.block_index as int]
        },
{
    let b = spec_apply_block(a, addr, data);
    if b != a {
        let off = addr.byte_offset as int;
        assert(b.buffer.subrange(off, off + data.len()) =~= data);
    }
}

/// A piece assembled from a fresh assembler is exactly one piece long.
pub proof fn law_fresh_assembly_has_piece_size(m: BlockManager, addr: BlockAddress, data: Seq<u8>)
    ensures
        spec_apply_block(m.spec_fresh_assembler(addr.piece_index), addr, data).buffer.len()
            == m.spec_piece_size(addr.piece_index),
{
}

/// Marking a block pending and then unmarking it leaves the pending set as it
/// was, when the block was not pending before.
pub proof fn law_mark_then_unmark(pending: Set<u32>, g: u32)
    requires
        !pending.contains(g),
    ensures
        pending.insert(g).remove(g) == pending,
{
    assert(pending.insert(g).remove(g) =~= pending);
}

/// A block sent for v2 verification goes to a file that holds its first
/// byte, with that file's root, and is named by the 16 KiB block of the file
/// it starts in.
pub proof fn law_v2_block_index_within_file(m: BlockManager, addr: BlockAddress)
    requires
        addr.global_offset / (BLOCK_SIZE as u64) <= u32::MAX,
    ensures
        m.spec_decision(addr) matches BlockDecision::VerifyV2 {
            file_index,
            root_hash,
            block_index_in_file,
        } ==> {
            let f = m.files@[file_index as int];
            let offset_in_file = addr.global_offset - f.start_offset;
            &&& file_index < m.files@.len()
            &&& f.start_offset <= addr.global_offset < f.end_offset
            &&& root_hash == f.root_hash
            &&& block_index_in_file * BLOCK_SIZE <= offset_in_file
            &&& offset_in_file < (block_index_in_file + 1) * BLOCK_SIZE
        },
{
    lemma_first_file_holds(m.files@, addr.global_offset, 0);
    let g = spec_flatten(addr);
    if g < m.block_bitfield@.len() && !m.block_bitfield@[g as int] {
        if let Some(i) = crate::block_manager::first_file_from(m.files@, addr.global_offset, 0) {
            let f = m.files@[i];
            let d: int = addr.global_offset - f.start_offset;
            assert(0 <= d <= addr.global_offset);
            vstd::arithmetic::div_mod::lemma_div_is_ordered(d, addr.global_offset as int, 16384);
            vstd::arithmetic::div_mod::lemma_fundamental_div_mod(d, 16384);
            assert((d / 16384) * 16384 <= d < (d / 16384 + 1) * 16384);
            assert(d / 16384 <= u32::MAX);
            assert(i < m.files@.len());
            assert(m.files@.len() == m.files.len());
            assert(((i as usize) as int) == i);
            assert(m.spec_decision(addr) == BlockDecision::VerifyV2 {
                file_index: i as usize,
                root_hash: f.root_hash,
                block_index_in_file: (d / 16384) as u32,
            });
        }
    }
}

/// Every block picked for a peer lies in a listed piece that the peer has.
pub proof fn law_picked_blocks_from_pieces_peer_has(
    m: BlockManager,
    peer_bitfield: Seq<bool>,
    rarest_pieces: Seq<u32>,
    count: int,
    endgame_mode: bool,
    i: int,
)
    requires
        m.piece_length > 0,
        count >= 0,
        0 <= i < crate::block_manager::clip(
            m.spec_candidate_blocks(peer_bitfield, rarest_pieces, endgame_mode),
            count,
        ).len(),
    ensures
        exists|k: int|
            #![trigger rarest_pieces[k]]
            0 <= k < rarest_pieces.len() && {
                let p = rarest_pieces[k];
                let g = spec_flatten(
                    crate::block_manager::clip(
                        m.spec_candidate_blocks(peer_bitfield, rarest_pieces, endgame_mode),
                        count,
                    )[i],
                );
                &&& p < peer_bitfield.len()
                &&& peer_bitfield[p as int]
                &&& m.spec_block_range(p).0 <= g < m.spec_block_range(p).1
            },
{
    let all = m.spec_candidate_blocks(peer_bitfield, rarest_pieces, endgame_mode);
    let picked = crate::block_manager::clip(all, count);
    assert(picked[i] == all[i]);
    lemma_candidates_from_held_pieces(m, peer_bitfield, rarest_pieces, endgame_mode, i);
}

/// Block `a` is that of grid block `g`, for a `g` in the range of a piece that
/// the peer has and that stands in the list.
spec fn from_held_piece(
    m: BlockManager,
    peer: Seq<bool>,
    pieces: Seq<u32>,
    a: BlockAddress,
) -> bool {
    exists|k: int|
        #![trigger pieces[k]]
        0 <= k < pieces.len() && {
            let p = pieces[k];
            let g = spec_flatten(a);
            &&& p < peer.len()
            &&& peer[p as int]
            &&& m.spec_block_range(p).0 <= g < m.spec_block_range(p).1
        }
}

proof fn lemma_block_picks_in_range(m: BlockManager, start: u32, end: int, endgame_mode: bool, i: int)
    requires
        m.piece_length > 0,
        end <= u32::MAX + 1,
        0 <= i < m.spec_block_picks(start, end, endgame_mode).len(),
    ensures
        start <= spec_flatten(m.spec_block_picks(start, end, endgame_mode)[i]) < end,
    decreases end - start,
{
    if end > start {
        let prev = m.spec_block_picks(start, end - 1, endgame_mode);
        let all = m.spec_block_picks(start, end, endgame_mode);
        let g = (end - 1) as u32;
        if i < prev.len() {
            assert(all[i] == prev[i]);
            lemma_block_picks_in_range(m, start, end - 1, endgame_mode, i);
        } else {
            assert(all[i] == m.spec_inflate(g));
            law_flatten_inflate(m, g);
        }
    }
}

proof fn lemma_candidates_from_held_pieces(
    m: BlockManager,
    peer: Seq<bool>,
    pieces: Seq<u32>,
    endgame_mode: bool,
    i: int,
)
    requires
        m.piece_length > 0,
        0 <= i < m.spec_candidate_blocks(peer, pieces, endgame_mode).len(),
    ensures
        from_held_piece(m, peer, pieces, m.spec_candidate_blocks(peer, pieces, endgame_mode)[i]),
    decreases pieces.len(),
{
    if pieces.len() > 0 {
        let front = pieces.drop_last();
        let prev = m.spec_candidate_blocks(peer, front, endgame_mode);
        let p = pieces.last();
        let last = m.spec_piece_picks(peer, p, endgame_mode);
        let all = m.spec_candidate_blocks(peer, pieces, endgame_mode);
        assert(all == prev + last);
        if i < prev.len() {
            assert(all[i] == prev[i]);
            lemma_candidates_from_held_pieces(m, peer, front, endgame_mode, i);
            let k = choose|k: int|
                #![trigger front[k]]
                0 <= k < front.len() && {
                    let q = front[k];
                    let g = spec_flatten(prev[i]);
                    &&& q < peer.len()
                    &&& peer[q as int]
                    &&& m.spec_block_range(q).0 <= g < m.spec_block_range(q).1
                };
            assert(pieces[k] == front[k]);
        } else {
            assert(all[i] == last[i - prev.len()]);
            let (start, end) = m.spec_block_range(p);
            assert(p < peer.len() && peer[p as int]);
            lemma_block_picks_in_range(m, start, end as int, endgame_mode, i - prev.len());
            assert(pieces[pieces.len() - 1] == p);
        }
    }
}

/// A list ordered rarest first is ordered by the number of peers recorded as
/// having each piece (none when unrecorded).
pub proof fn law_rarest_first_by_holder_count(m: BlockManager, s: Seq<u32>, i: int, j: int)
    requires
        m.sorted_rarest_first(s),
        0 <= i < j < s.len(),
    ensures
        (if m.piece_rarity@.contains_key(s[i]) {
            m.piece_rarity@[s[i]]
        } else {
            0
        }) <= (if m.piece_rarity@.contains_key(s[j]) {
            m.piece_rarity@[s[j]]
        } else {
            0
        }),
{
    assert(m.rarer_first(s[i], s[j]));
}

/// The address of a block given by piece and offset lies at that offset from
/// the start of the piece in the torrent, and is found again as that piece and
/// offset by its grid block when it starts a block.
pub proof fn law_overlay_global_offset(
    m: BlockManager,
    piece_index: u32,
    byte_offset: u32,
    length: u32,
)
    ensures
        m.spec_overlay(piece_index, byte_offset, length) matches Some(a) ==> {
            &&& a.piece_index == piece_index
            &&& a.byte_offset == byte_offset
            &&& a.length == length
            &&& a.global_offset == piece_index as int * m.piece_length as int + byte_offset
        },
        m.spec_overlay(piece_index, byte_offset, length) matches Some(a) ==> (m.piece_length
            % BLOCK_SIZE == 0 && byte_offset % BLOCK_SIZE == 0 && byte_offset < m.piece_length
            && a.global_offset / (BLOCK_SIZE as u64) <= u32::MAX ==> {
            let b = m.spec_inflate(spec_flatten(a));
            &&& b.global_offset == a.global_offset
            &&& b.piece_index == piece_index
            &&& b.byte_offset == byte_offset
        }),
{
    lemma_u32_product(piece_index, m.piece_length);
    if let Some(a) = m.spec_overlay(piece_index, byte_offset, length) {
        let pl = m.piece_length as int;
        let go = piece_index as int * pl + byte_offset;
        assert(a.global_offset == go);
        if m.piece_length % BLOCK_SIZE == 0 && byte_offset % BLOCK_SIZE == 0 && byte_offset
            < m.piece_length && a.global_offset / (BLOCK_SIZE as u64) <= u32::MAX {
            let g = spec_flatten(a);
            let c = pl / 16384;
            let e = byte_offset as int / 16384;
            vstd::arithmetic::div_mod::lemma_fundamental_div_mod(pl, 16384);
            vstd::arithmetic::div_mod::lemma_fundamental_div_mod(byte_offset as int, 16384);
            assert(piece_index as int * pl == 16384 * (piece_index as int * c)) by (nonlinear_arith)
                requires
                    pl == 16384 * c,
            ;
            vstd::arithmetic::div_mod::lemma_fundamental_div_mod_converse(
                go,
                16384,
                piece_index as int * c + e,
                0,
            );
            assert(g as int == go / 16384);
            assert((go / 16384) * 16384 == go) by (nonlinear_arith)
                requires
                    go % 16384 == 0,
                    go >= 0,
            ;
            vstd::arithmetic::div_mod::lemma_fundamental_div_mod_converse(
                go,
                pl,
                piece_index as int,
                byte_offset as int,
            );
        }
    }
}

/// A fresh piece of a single block is completed, whole, by that block.
pub proof fn law_single_block_piece_completes(m: BlockManager, addr: BlockAddress, data: Seq<u8>)
    requires
        addr.byte_offset == 0,
        addr.block_index == 0,
        data.len() == m.spec_piece_size(addr.piece_index),
        0 < data.len() <= BLOCK_SIZE,
    ensures
        ({
            let a1 = spec_apply_block(m.spec_fresh_assembler(addr.piece_index), addr, data);
            &&& a1.is_complete()
            &&& a1.buffer == data
        }),
{
    let a0 = m.spec_fresh_assembler(addr.piece_index);
    let a1 = spec_apply_block(a0, addr, data);
    assert(crate::block_manager::spec_blocks_in_piece(m.spec_piece_size(addr.piece_index)) == 1);
    assert(!a0.mask[0]);
    assert(a1.buffer =~= data);
}

/// A block that fits in its piece's buffer and has not arrived before is
/// taken, whatever its length: its bytes are copied at its offset and it is
/// counted once.
pub proof fn law_fitting_block_is_taken(a: AssemblerView, addr: BlockAddress, data: Seq<u8>)
    requires
        addr.block_index < a.mask.len(),
        addr.byte_offset + data.len() <= a.buffer.len(),
        !a.mask[addr.block_index as int],
    ensures
        spec_apply_block(a, addr, data).received_blocks == a.received_blocks + 1,
        spec_apply_block(a, addr, data).mask == a.mask.update(addr.block_index as int, true),
        spec_apply_block(a, addr, data).buffer.subrange(
            addr.byte_offset as int,
            addr.byte_offset + data.len(),
        ) == data,
        spec_apply_block(a, addr, data).buffer.len() == a.buffer.len(),
{
    let b = spec_apply_block(a, addr, data);
    let off = addr.byte_offset as int;
    assert(b.buffer.subrange(off, off + data.len()) =~= data);
}

/// An incoming block is an error exactly when it lies off the grid, a
/// duplicate exactly when its grid block is held; otherwise it is verified
/// against the first file that holds its first byte, or buffered for v1
/// hashing when no file holds it.
pub proof fn law_decision_cases(m: BlockManager, addr: BlockAddress)
    ensures
        (m.spec_decision(addr) == BlockDecision::Error) == (spec_flatten(addr)
            >= m.block_bitfield@.len()),
        (m.spec_decision(addr) == BlockDecision::Duplicate) == (spec_flatten(addr)
            < m.block_bitfield@.len() && m.block_bitfield@[spec_flatten(addr) as int]),
        (m.spec_decision(addr) == BlockDecision::BufferV1) == (spec_flatten(addr)
            < m.block_bitfield@.len() && !m.block_bitfield@[spec_flatten(addr) as int]
            && forall|j: int| !#[trigger] holds_at(m.files@, j, addr.global_offset)),
        m.spec_decision(addr) matches BlockDecision::VerifyV2 { file_index, .. } ==> {
            &&& holds_at(m.files@, file_index as int, addr.global_offset)
            &&& forall|j: int|
                0 <= j < file_index ==> !#[trigger] holds_at(m.files@, j, addr.global_offset)
        },
{
    let files = m.files@;
    let off = addr.global_offset;
    lemma_first_file_none_or_first(files, off, 0);
    lemma_first_file_holds(files, off, 0);
    if let Some(i) = crate::block_manager::first_file_from(files, off, 0) {
        assert(i < m.files@.len());
        assert(m.files@.len() == m.files.len());
        assert(((i as usize) as int) == i);
        assert(holds_at(files, i, off));
    } else {
        assert forall|j: int| !#[trigger] holds_at(m.files@, j, addr.global_offset) by {
            if 0 <= j < files.len() {
                assert(!crate::block_manager::file_holds(files[j], off));
            }
        }
    }
}

/// File `j` of the list exists and holds the byte at `offset`.
pub open spec fn holds_at(files: Seq<crate::block_manager::FileInfo>, j: int, offset: u64) -> bool {
    0 <= j < files.len() && crate::block_manager::file_holds(files[j], offset)
}

/// `first_file_from` finds no file exactly when none from `i` on holds the
/// offset, and what it finds is the first one that does.
proof fn lemma_first_file_none_or_first(files: Seq<crate::block_manager::FileInfo>, offset: u64, i: int)
    requires
        0 <= i,
    ensures
        crate::block_manager::first_file_from(files, offset, i) is None <==> forall|j: int|
            i <= j < files.len() ==> !crate::block_manager::file_holds(#[trigger] files[j], offset),
        crate::block_manager::first_file_from(files, offset, i) matches Some(k) ==> forall|j: int|
            i <= j < k ==> !crate::block_manager::file_holds(#[trigger] files[j], offset),
    decreases files.len() - i,
{
    if i < files.len() && !crate::block_manager::file_holds(files[i], offset) {
        lemma_first_file_none_or_first(files, offset, i + 1);
    }
}

/// A block given by piece, offset and length is found exactly when it ends
/// within its piece, and is then the block of that offset.
pub proof fn law_overlay_found_within_piece(
    m: BlockManager,
    piece_index: u32,
    byte_offset: u32,
    length: u32,
)
    requires
        byte_offset + length <= u32::MAX,
    ensures
        m.spec_overlay(piece_index, byte_offset, length) is Some <==> byte_offset + length
            <= m.spec_piece_size(piece_index),
        m.spec_overlay(piece_index, byte_offset, length) matches Some(a) ==> a.block_index
            == byte_offset / BLOCK_SIZE,
{
}

/// A block that does not fit in its piece's buffer, or that has arrived
/// before, leaves the assembler as it was.
pub proof fn law_unfit_or_repeated_block_ignored(a: AssemblerView, addr: BlockAddress, data: Seq<u8>)
    requires
        addr.byte_offset + data.len() > a.buffer.len() || a.mask[addr.block_index as int],
    ensures
        spec_apply_block(a, addr, data) == a,
{
}

/// A wanted block of a listed piece that the peer has is among the
/// candidates; so the blocks picked for the peer are never fewer than asked
/// for while such a block is left out, and some block is picked whenever one
/// is asked for.
pub proof fn law_wanted_block_is_picked(
    m: BlockManager,
    peer_bitfield: Seq<bool>,
    rarest_pieces: Seq<u32>,
    count: int,
    endgame_mode: bool,
    k: int,
    g: u32,
)
    requires
        0 <= k < rarest_pieces.len(),
        rarest_pieces[k] < peer_bitfield.len(),
        peer_bitfield[rarest_pieces[k] as int],
        m.spec_block_range(rarest_pieces[k]).0 <= g < m.spec_block_range(rarest_pieces[k]).1,
        m.spec_block_wanted(g, endgame_mode),
    ensures
        ({
            let picked = crate::block_manager::clip(
                m.spec_candidate_blocks(peer_bitfield, rarest_pieces, endgame_mode),
                count,
            );
            &&& picked.len() < count ==> picked.contains(m.spec_inflate(g))
            &&& count > 0 ==> picked.len() > 0
        }),
{
    let all = m.spec_candidate_blocks(peer_bitfield, rarest_pieces, endgame_mode);
    lemma_candidates_contain(m, peer_bitfield, rarest_pieces, endgame_mode, k, g);
    let picked = crate::block_manager::clip(all, count);
    if picked.len() < count {
        assert(picked == all);
    }
    if count > 0 && all.len() > count {
        assert(picked.len() == count);
    }
}

proof fn lemma_block_picks_contain(m: BlockManager, start: u32, end: int, endgame_mode: bool, g: u32)
    requires
        start <= g < end,
        m.spec_block_wanted(g, endgame_mode),
    ensures
        m.spec_block_picks(start, end, endgame_mode).contains(m.spec_inflate(g)),
    decreases end - start,
{
    let prev = m.spec_block_picks(start, end - 1, endgame_mode);
    let all = m.spec_block_picks(start, end, endgame_mode);
    if g == end - 1 {
        assert(all[all.len() - 1] == m.spec_inflate(g));
    } else {
        lemma_block_picks_contain(m, start, end - 1, endgame_mode, g);
        let j = choose|j: int| 0 <= j < prev.len() && prev[j] == m.spec_inflate(g);
        assert(all[j] == prev[j]);
    }
}

proof fn lemma_candidates_contain(
    m: BlockManager,
    peer: Seq<bool>,
    pieces: Seq<u32>,
    endgame_mode: bool,
    k: int,
    g: u32,
)
    requires
        0 <= k < pieces.len(),
        pieces[k] < peer.len(),
        peer[pieces[k] as int],
        m.spec_block_range(pieces[k]).0 <= g < m.spec_block_range(pieces[k]).1,
        m.spec_block_wanted(g, endgame_mode),
    ensures
        m.spec_candidate_blocks(peer, pieces, endgame_mode).contains(m.spec_inflate(g)),
    decreases pieces.len(),
{
    let front = pieces.drop_last();
    let prev = m.spec_candidate_blocks(peer, front, endgame_mode);
    let last = m.spec_piece_picks(peer, pieces.last(), endgame_mode);
    let all = m.spec_candidate_blocks(peer, pieces, endgame_mode);
    assert(all == prev + last);
    if k == pieces.len() - 1 {
        let (start, end) = m.spec_block_range(pieces[k]);
        lemma_block_picks_contain(m, start, end as int, endgame_mode, g);
        let j = choose|j: int| 0 <= j < last.len() && last[j] == m.spec_inflate(g);
        assert(all[prev.len() + j] == last[j]);
    } else {
        assert(front[k] == pieces[k]);
        lemma_candidates_contain(m, peer, front, endgame_mode, k, g);
        let j = choose|j: int| 0 <= j < prev.len() && prev[j] == m.spec_inflate(g);
        assert(all[j] == prev[j]);
    }
}

} // verus!
