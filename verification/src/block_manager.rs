//! Block-level bookkeeping of a torrent: the global 16 KiB block grid, which
//! blocks are held or pending, where each block lives in a piece and in a file,
//! and the assembly of whole pieces out of blocks for v1 hashing.
use std::collections::{HashMap, HashSet};
use vstd::prelude::*;

verus! {

broadcast use vstd::std_specs::hash::group_hash_axioms;

/// Size of one block of the global block grid.
pub const BLOCK_SIZE: u32 = 16_384;

/// Length of a v2 (SHA-256) hash.
pub const V2_HASH_LEN: usize = 32;

/// The most blocks a piece of at most `u32::MAX` bytes can span.
pub const MAX_BLOCKS_PER_PIECE: u32 = 262_144;

/// Number of `true` entries of a sequence.
pub open spec fn count_true(s: Seq<bool>) -> nat
    decreases s.len(),
{
    if s.len() == 0 {
        0
    } else {
        count_true(s.drop_last()) + if s.last() {
            1nat
        } else {
            0nat
        }
    }
}

/// `a` divided by `b`, rounded up.
pub open spec fn div_ceil(a: int, b: int) -> int {
    a / b + if a % b != 0 {
        1int
    } else {
        0int
    }
}

/// Number of blocks a piece of `len` bytes spans.
pub open spec fn spec_blocks_in_piece(len: u32) -> int {
    div_ceil(len as int, BLOCK_SIZE as int)
}

/// The smaller of two integers.
pub open spec fn min_int(a: int, b: int) -> int {
    if a <= b {
        a
    } else {
        b
    }
}

/// A piece of a v1 torrent being put together out of its blocks.
#[derive(Debug, Clone)]
pub struct LegacyAssembler {
    pub buffer: Vec<u8>,
    pub received_blocks: usize,
    pub total_blocks: usize,
    pub mask: Vec<bool>,
}

/// The mathematical content of a [`LegacyAssembler`].
pub struct AssemblerView {
    pub buffer: Seq<u8>,
    pub received_blocks: nat,
    pub total_blocks: nat,
    pub mask: Seq<bool>,
}

impl View for LegacyAssembler {
    type V = AssemblerView;

    open spec fn view(&self) -> AssemblerView {
        AssemblerView {
            buffer: self.buffer@,
            received_blocks: self.received_blocks as nat,
            total_blocks: self.total_blocks as nat,
            mask: self.mask@,
        }
    }
}

impl AssemblerView {
    /// No more blocks are counted as received than the mask records.
    pub open spec fn wf(self) -> bool {
        self.received_blocks <= count_true(self.mask)
    }

    /// All the blocks of the piece have arrived.
    pub open spec fn is_complete(self) -> bool {
        self.received_blocks == self.total_blocks
    }
}

/// The assembler after block `addr` carrying `data` is written into it: the
/// bytes are copied at the block's offset and the block is counted, unless they
/// would run past the buffer or the block was already received.
pub open spec fn spec_apply_block(a: AssemblerView, addr: BlockAddress, data: Seq<u8>) -> AssemblerView {
    let offset = addr.byte_offset as int;
    let end = offset + data.len();
    if end <= a.buffer.len() && !a.mask[addr.block_index as int] {
        AssemblerView {
            buffer: a.buffer.take(offset) + data + a.buffer.skip(end),
            received_blocks: a.received_blocks + 1,
            total_blocks: a.total_blocks,
            mask: a.mask.update(addr.block_index as int, true),
        }
    } else {
        a
    }
}

proof fn lemma_count_true_bounds(s: Seq<bool>)
    ensures
        count_true(s) <= s.len(),
        (exists|i: int| 0 <= i < s.len() && !s[i]) ==> count_true(s) < s.len(),
    decreases s.len(),
{
    if s.len() > 0 {
        lemma_count_true_bounds(s.drop_last());
        if exists|i: int| 0 <= i < s.len() && !s[i] {
            let i = choose|i: int| 0 <= i < s.len() && !s[i];
            if i < s.len() - 1 {
                assert(!s.drop_last()[i]);
            }
        }
    }
}

proof fn lemma_count_true_set(s: Seq<bool>, i: int)
    requires
        0 <= i < s.len(),
        !s[i],
    ensures
        count_true(s.update(i, true)) == count_true(s) + 1,
    decreases s.len(),
{
    if i < s.len() - 1 {
        lemma_count_true_set(s.drop_last(), i);
        assert(s.update(i, true).drop_last() =~= s.drop_last().update(i, true));
    } else {
        assert(s.update(i, true).drop_last() =~= s.drop_last());
    }
}

/// How many of the bitfields have piece `k`.
pub open spec fn rarity_of(bitfields: Seq<Seq<bool>>, k: int) -> nat
    decreases bitfields.len(),
{
    if bitfields.len() == 0 {
        0
    } else {
        rarity_of(bitfields.drop_last(), k) + if 0 <= k < bitfields.last().len()
            && bitfields.last()[k] {
            1nat
        } else {
            0nat
        }
    }
}

/// The contents of a list of bitfields.
pub open spec fn bitfield_views(bitfields: Seq<Vec<bool>>) -> Seq<Seq<bool>> {
    bitfields.map_values(|b: Vec<bool>| b@)
}

/// Piece availability: each piece that some bitfield has, mapped to how many
/// bitfields have it.
pub open spec fn spec_rarity_map(bitfields: Seq<Seq<bool>>) -> Map<u32, usize> {
    Map::new(
        |k: u32| rarity_of(bitfields, k as int) > 0,
        |k: u32| rarity_of(bitfields, k as int) as usize,
    )
}

/// The global block indices in `start..end`.
pub open spec fn block_set(start: u32, end: u32) -> Set<u32> {
    Set::new(|g: u32| start <= g < end)
}

/// The global block indices of a list of addresses.
pub open spec fn flattened_set(addrs: Seq<BlockAddress>) -> Set<u32> {
    Set::new(|g: u32| exists|i: int| 0 <= i < addrs.len() && spec_flatten(addrs[i]) == g)
}

pub proof fn lemma_rarity_bound(bitfields: Seq<Seq<bool>>, k: int)
    ensures
        rarity_of(bitfields, k) <= bitfields.len(),
    decreases bitfields.len(),
{
    if bitfields.len() > 0 {
        lemma_rarity_bound(bitfields.drop_last(), k);
    }
}

/// Where one block lies: in its piece, and in the whole torrent.
#[derive(Debug, Clone, Copy, PartialEq, Eq, Hash)]
pub struct BlockAddress {
    pub piece_index: u32,
    pub block_index: u32,
    pub byte_offset: u32,
    pub global_offset: u64,
    pub length: u32,
}

/// What committing a block did.
#[derive(Debug, PartialEq)]
pub enum BlockResult {
    Accepted,
    Duplicate,
    V1BlockBuffered,
    V1PieceVerified { piece_index: u32, data: Vec<u8> },
}

/// What to do with a block that has just arrived.
#[derive(Debug, PartialEq)]
pub enum BlockDecision {
    VerifyV2 { file_index: usize, root_hash: [u8; 32], block_index_in_file: u32 },
    BufferV1,
    Duplicate,
    Error,
}

/// The byte range of one file of a v2 torrent, with its Merkle root.
#[derive(Debug, Clone, Copy)]
pub struct FileInfo {
    pub start_offset: u64,
    pub end_offset: u64,
    pub root_hash: [u8; 32],
}

/// Sum of the sizes of a file list.
pub open spec fn spec_total_size(info: Seq<(u64, [u8; 32])>) -> int
    decreases info.len(),
{
    if info.len() == 0 {
        0
    } else {
        spec_total_size(info.drop_last()) + info.last().0
    }
}

/// The files of a list laid end to end from offset zero.
pub open spec fn spec_file_layout(info: Seq<(u64, [u8; 32])>) -> Seq<FileInfo>
    decreases info.len(),
{
    if info.len() == 0 {
        seq![]
    } else {
        let start = spec_total_size(info.drop_last());
        spec_file_layout(info.drop_last()).push(
            FileInfo {
                start_offset: start as u64,
                end_offset: (start + info.last().0) as u64,
                root_hash: info.last().1,
            },
        )
    }
}

/// The file holds the byte at `offset`.
pub open spec fn file_holds(f: FileInfo, offset: u64) -> bool {
    f.start_offset <= offset && offset < f.end_offset
}

/// Index of the first file from `i` on that holds `offset`.
pub open spec fn first_file_from(files: Seq<FileInfo>, offset: u64, i: int) -> Option<int>
    decreases files.len() - i,
{
    if i < 0 || i >= files.len() {
        None
    } else if file_holds(files[i], offset) {
        Some(i)
    } else {
        first_file_from(files, offset, i + 1)
    }
}

/// Block index of an address in the global grid.
pub open spec fn spec_flatten(addr: BlockAddress) -> u32 {
    (addr.global_offset / BLOCK_SIZE as u64) as u32
}

/// The block-level state of one torrent.
#[derive(Debug)]
pub struct BlockManager {
    pub block_bitfield: Vec<bool>,
    pub pending_blocks: HashSet<u32>,
    pub piece_rarity: HashMap<u32, usize>,
    pub piece_hashes_v1: Vec<[u8; 20]>,
    pub files: Vec<FileInfo>,
    pub piece_lengths: HashMap<u32, u32>,
    pub legacy_buffers: HashMap<u32, LegacyAssembler>,
    /// Pieces committed whole since their last revert. A piece that shares a
    /// boundary block with a neighbour counts as complete only when listed here,
    /// since the global bitfield cannot tell whose bytes of that block arrived.
    pub committed_pieces: HashSet<u32>,
    pub piece_length: u32,
    pub total_length: u64,
    pub total_blocks: u32,
}

impl BlockManager {
    /// The bitfield covers the block grid and every assembler is consistent.
    pub open spec fn wf(&self) -> bool {
        &&& self.block_bitfield@.len() == self.total_blocks
        &&& forall|p: u32| #[trigger]
            self.legacy_buffers@.contains_key(p) ==> self.legacy_buffers@[p]@.wf()
    }

    /// The geometry and the metadata (everything but the download state) agree.
    pub open spec fn same_layout(&self, other: &Self) -> bool {
        &&& self.piece_hashes_v1 == other.piece_hashes_v1
        &&& self.files == other.files
        &&& self.piece_lengths == other.piece_lengths
        &&& self.piece_length == other.piece_length
        &&& self.total_length == other.total_length
        &&& self.total_blocks == other.total_blocks
    }

    /// Size in bytes of piece `p`: its override if it has one, else a full piece
    /// clipped to the end of the torrent.
    pub open spec fn spec_piece_size(&self, p: u32) -> u32 {
        if self.piece_lengths@.contains_key(p) {
            self.piece_lengths@[p]
        } else {
            let offset = p as int * self.piece_length as int;
            let remaining = if self.total_length >= offset {
                self.total_length - offset
            } else {
                0
            };
            min_int(self.piece_length as int, remaining) as u32
        }
    }

    /// The half-open range of global blocks that piece `p` touches.
    pub open spec fn spec_block_range(&self, p: u32) -> (u32, u32) {
        let start_blk = ((p as int * self.piece_length as int) / BLOCK_SIZE as int) as u32;
        let start = min_int(start_blk as int, self.total_blocks as int);
        let end = min_int(
            start + spec_blocks_in_piece(self.spec_piece_size(p)),
            self.total_blocks as int,
        );
        (start as u32, end as u32)
    }

    /// The address of global block `g`.
    pub open spec fn spec_inflate(&self, g: u32) -> BlockAddress {
        let global_offset = g as int * BLOCK_SIZE as int;
        let piece_index = (global_offset / self.piece_length as int) as u32;
        let byte_offset = (global_offset % self.piece_length as int) as u32;
        let valid = self.spec_piece_size(piece_index) as int;
        let remaining = if valid >= byte_offset {
            valid - byte_offset
        } else {
            0
        };
        BlockAddress {
            piece_index,
            block_index: byte_offset / BLOCK_SIZE,
            byte_offset,
            global_offset: global_offset as u64,
            length: min_int(BLOCK_SIZE as int, remaining) as u32,
        }
    }

    /// The block is held according to the bitfield (blocks off the grid count as held).
    pub open spec fn spec_have(&self, g: u32) -> bool {
        if g < self.block_bitfield@.len() {
            self.block_bitfield@[g as int]
        } else {
            true
        }
    }

    /// Every block that piece `p` touches is held.
    pub open spec fn spec_blocks_held(&self, p: u32) -> bool {
        let (start, end) = self.spec_block_range(p);
        forall|i: int|
            start <= i < end ==> i < self.block_bitfield@.len() && #[trigger]
                self.block_bitfield@[i]
    }

    /// Piece `p` and piece `q` touch a common block.
    pub open spec fn spec_pieces_overlap(&self, p: u32, q: u32) -> bool {
        let (ps, pe) = self.spec_block_range(p);
        let (qs, qe) = self.spec_block_range(q);
        ps < pe && qs < qe && ps < qe && qs < pe
    }

    /// Piece `p` shares a boundary block with the piece before or after it.
    pub open spec fn spec_shares_boundary(&self, p: u32) -> bool {
        (p > 0 && self.spec_pieces_overlap((p - 1) as u32, p)) || (p < u32::MAX
            && self.spec_pieces_overlap(p, (p + 1) as u32))
    }

    /// Piece `p` is complete: all its blocks are held and, if it shares a
    /// boundary block with a neighbour, it has been committed whole.
    pub open spec fn spec_piece_complete(&self, p: u32) -> bool {
        &&& self.spec_blocks_held(p)
        &&& (self.spec_shares_boundary(p) ==> self.committed_pieces@.contains(p))
    }

    /// A block that a peer may be asked for: not held, and not already
    /// requested unless in endgame mode.
    pub open spec fn spec_block_wanted(&self, g: u32, endgame_mode: bool) -> bool {
        !self.spec_have(g) && (!self.pending_blocks@.contains(g) || endgame_mode)
    }

    /// The wanted blocks among `start..end`, as addresses, in order.
    pub open spec fn spec_block_picks(&self, start: u32, end: int, endgame_mode: bool) -> Seq<
        BlockAddress,
    >
        decreases end - start,
    {
        if end <= start {
            seq![]
        } else {
            let g = (end - 1) as u32;
            self.spec_block_picks(start, end - 1, endgame_mode) + if self.spec_block_wanted(
                g,
                endgame_mode,
            ) {
                seq![self.spec_inflate(g)]
            } else {
                seq![]
            }
        }
    }

    /// The wanted blocks of piece `p`, if the peer has the piece.
    pub open spec fn spec_piece_picks(&self, peer: Seq<bool>, p: u32, endgame_mode: bool) -> Seq<
        BlockAddress,
    > {
        if p < peer.len() && peer[p as int] {
            let (start, end) = self.spec_block_range(p);
            self.spec_block_picks(start, end as int, endgame_mode)
        } else {
            seq![]
        }
    }

    /// The wanted blocks of the listed pieces, piece after piece.
    pub open spec fn spec_candidate_blocks(
        &self,
        peer: Seq<bool>,
        pieces: Seq<u32>,
        endgame_mode: bool,
    ) -> Seq<BlockAddress>
        decreases pieces.len(),
    {
        if pieces.len() == 0 {
            seq![]
        } else {
            self.spec_candidate_blocks(peer, pieces.drop_last(), endgame_mode) + self.spec_piece_picks(
                peer,
                pieces.last(),
                endgame_mode,
            )
        }
    }

    /// A new, empty assembler for piece `p`, sized from the piece's length.
    pub open spec fn spec_fresh_assembler(&self, p: u32) -> AssemblerView {
        let len = self.spec_piece_size(p);
        let nb = spec_blocks_in_piece(len);
        AssemblerView {
            buffer: Seq::new(len as nat, |_i: int| 0u8),
            received_blocks: 0,
            total_blocks: nb as nat,
            mask: Seq::new(nb as nat, |_i: int| false),
        }
    }

    /// The assembler that a block of piece `p` goes into: the buffered one, or a
    /// fresh one.
    pub open spec fn spec_current_assembler(&self, p: u32) -> AssemblerView {
        if self.legacy_buffers@.contains_key(p) {
            self.legacy_buffers@[p]@
        } else {
            self.spec_fresh_assembler(p)
        }
    }

    /// How many peers are known to have piece `p` (zero when unrecorded).
    pub open spec fn spec_rarity(&self, p: u32) -> usize {
        if self.piece_rarity@.contains_key(p) {
            self.piece_rarity@[p]
        } else {
            0
        }
    }

    /// `a` comes before `b` in rarest-first order: fewer holders first, ties by index.
    pub open spec fn rarer_first(&self, a: u32, b: u32) -> bool {
        self.spec_rarity(a) < self.spec_rarity(b) || (self.spec_rarity(a) == self.spec_rarity(b)
            && a < b)
    }

    /// A list strictly ordered rarest first.
    pub open spec fn sorted_rarest_first(&self, s: Seq<u32>) -> bool {
        forall|i: int, j: int| 0 <= i < j < s.len() ==> self.rarer_first(#[trigger] s[i], #[trigger] s[j])
    }

    /// `after` is `before` with block `addr` committed, reporting `result`: a
    /// block off the grid or already held is a duplicate and changes nothing;
    /// otherwise it becomes held and no longer pending.
    pub open spec fn spec_block_committed(
        before: BlockManager,
        after: BlockManager,
        addr: BlockAddress,
        result: BlockResult,
    ) -> bool {
        let g = spec_flatten(addr);
        &&& after.same_layout(&before)
        &&& after.piece_rarity == before.piece_rarity
        &&& after.legacy_buffers == before.legacy_buffers
        &&& after.committed_pieces == before.committed_pieces
        &&& if g >= before.block_bitfield@.len() || before.block_bitfield@[g as int] {
            &&& result == BlockResult::Duplicate
            &&& after.block_bitfield@ == before.block_bitfield@
            &&& after.pending_blocks@ == before.pending_blocks@
        } else {
            &&& result == BlockResult::Accepted
            &&& after.block_bitfield@ == before.block_bitfield@.update(g as int, true)
            &&& after.pending_blocks@ == before.pending_blocks@.remove(g)
        }
    }

    /// `after` is `before` with piece `p` committed whole: every block it
    /// touches is held and not pending, its assembler is gone, and it is
    /// recorded as committed.
    pub open spec fn spec_piece_committed(before: BlockManager, after: BlockManager, p: u32) -> bool {
        let (start, end) = before.spec_block_range(p);
        &&& after.same_layout(&before)
        &&& after.piece_rarity == before.piece_rarity
        &&& after.block_bitfield@ == Seq::new(
            before.block_bitfield@.len(),
            |i: int|
                if start <= i < end {
                    true
                } else {
                    before.block_bitfield@[i]
                },
        )
        &&& after.pending_blocks@ == before.pending_blocks@.difference(block_set(start, end))
        &&& after.legacy_buffers@ == before.legacy_buffers@.remove(p)
        &&& after.committed_pieces@ == before.committed_pieces@.insert(p)
    }

    /// `after` is `before` with piece `p` reverted: none of the blocks it
    /// touches is held, its assembler is gone, and it is no longer recorded as
    /// committed.
    pub open spec fn spec_piece_reverted(before: BlockManager, after: BlockManager, p: u32) -> bool {
        let (start, end) = before.spec_block_range(p);
        &&& after.same_layout(&before)
        &&& after.piece_rarity == before.piece_rarity
        &&& after.pending_blocks == before.pending_blocks
        &&& after.block_bitfield@ == Seq::new(
            before.block_bitfield@.len(),
            |i: int|
                if start <= i < end {
                    false
                } else {
                    before.block_bitfield@[i]
                },
        )
        &&& after.legacy_buffers@ == before.legacy_buffers@.remove(p)
        &&& after.committed_pieces@ == before.committed_pieces@.remove(p)
    }

    /// What an incoming block at `addr` should go through.
    pub open spec fn spec_decision(&self, addr: BlockAddress) -> BlockDecision {
        let g = spec_flatten(addr);
        if g >= self.block_bitfield@.len() {
            BlockDecision::Error
        } else if self.block_bitfield@[g as int] {
            BlockDecision::Duplicate
        } else {
            match first_file_from(self.files@, addr.global_offset, 0) {
                Some(i) => BlockDecision::VerifyV2 {
                    file_index: i as usize,
                    root_hash: self.files@[i].root_hash,
                    block_index_in_file: ((addr.global_offset - self.files@[i].start_offset)
                        / BLOCK_SIZE as int) as u32,
                },
                None => BlockDecision::BufferV1,
            }
        }
    }

    /// The address of a block given by piece, offset and length, if it lies
    /// within its piece.
    pub open spec fn spec_overlay(&self, piece_index: u32, byte_offset: u32, length: u32) -> Option<
        BlockAddress,
    > {
        let end = if byte_offset + length > u32::MAX {
            u32::MAX as int
        } else {
            byte_offset + length
        };
        if end > self.spec_piece_size(piece_index) {
            None
        } else {
            Some(
                BlockAddress {
                    piece_index,
                    block_index: byte_offset / BLOCK_SIZE,
                    byte_offset,
                    global_offset: (piece_index as int * self.piece_length as int
                        + byte_offset) as u64,
                    length,
                },
            )
        }
    }
}

fn copy_items<T: Copy>(v: &Vec<T>) -> (copy: Vec<T>)
    ensures
        copy@ == v@,
{
    let mut copy: Vec<T> = Vec::new();
    let mut i: usize = 0;
    while i < v.len()
        invariant
            0 <= i <= v@.len(),
            copy@ == v@.take(i as int),
        decreases v@.len() - i,
    {
        copy.push(v[i]);
        i = i + 1;
        assert(copy@ =~= v@.take(i as int));
    }
    assert(v@.take(v@.len() as int) =~= v@);
    copy
}

/// `HashSet::clone` on a set of block indices: the copy holds the same indices.
#[verifier::external_body]
fn clone_block_set(set: &HashSet<u32>) -> (copy: HashSet<u32>)
    ensures
        copy@ == set@,
{
    set.clone()
}

impl Clone for BlockManager {
    fn clone(&self) -> (copy: Self)
        ensures
            copy.block_bitfield@ == self.block_bitfield@,
            copy.pending_blocks@ == self.pending_blocks@,
            copy.piece_rarity@ == self.piece_rarity@,
            copy.piece_lengths@ == self.piece_lengths@,
            copy.legacy_buffers@ == self.legacy_buffers@,
            copy.committed_pieces@ == self.committed_pieces@,
            copy.piece_hashes_v1@ == self.piece_hashes_v1@,
            copy.files@ == self.files@,
            copy.piece_length == self.piece_length,
            copy.total_length == self.total_length,
            copy.total_blocks == self.total_blocks,
    {
        BlockManager {
            block_bitfield: self.block_bitfield.clone(),
            pending_blocks: clone_block_set(&self.pending_blocks),
            piece_rarity: self.piece_rarity.clone(),
            piece_hashes_v1: copy_items(&self.piece_hashes_v1),
            files: copy_items(&self.files),
            piece_lengths: self.piece_lengths.clone(),
            legacy_buffers: self.legacy_buffers.clone(),
            committed_pieces: clone_block_set(&self.committed_pieces),
            piece_length: self.piece_length,
            total_length: self.total_length,
            total_blocks: self.total_blocks,
        }
    }
}

impl Default for BlockManager {
    fn default() -> (m: Self)
        ensures
            m.block_bitfield@.len() == 0,
            m.pending_blocks@ == Set::<u32>::empty(),
            m.piece_rarity@ == Map::<u32, usize>::empty(),
            m.piece_hashes_v1@.len() == 0,
            m.files@.len() == 0,
            m.piece_lengths@ == Map::<u32, u32>::empty(),
            m.legacy_buffers@ == Map::<u32, LegacyAssembler>::empty(),
            m.committed_pieces@ == Set::<u32>::empty(),
            m.piece_length == 0,
            m.total_length == 0,
            m.total_blocks == 0,
            m.wf(),
    {
        BlockManager {
            block_bitfield: Vec::new(),
            pending_blocks: HashSet::new(),
            piece_rarity: HashMap::new(),
            piece_hashes_v1: Vec::new(),
            files: Vec::new(),
            piece_lengths: HashMap::new(),
            legacy_buffers: HashMap::new(),
            committed_pieces: HashSet::new(),
            piece_length: 0,
            total_length: 0,
            total_blocks: 0,
        }
    }
}

/// The product of two `u32` values fits in a `u64` with room for one more `u32`.
pub(crate) proof fn lemma_u32_product(a: u32, b: u32)
    ensures
        0 <= a as int * b as int <= 0xFFFF_FFFE_0000_0001,
{
    assert(0 <= a as int * b as int <= 0xFFFF_FFFE_0000_0001) by (nonlinear_arith)
        requires
            a <= 0xFFFF_FFFF,
            b <= 0xFFFF_FFFF,
    ;
}

/// The file that `first_file_from` finds holds the offset.
pub(crate) proof fn lemma_first_file_holds(files: Seq<FileInfo>, offset: u64, i: int)
    ensures
        first_file_from(files, offset, i) matches Some(j) ==> i <= j < files.len()
            && file_holds(files[j], offset),
    decreases files.len() - i,
{
    if 0 <= i < files.len() && !file_holds(files[i], offset) {
        lemma_first_file_holds(files, offset, i + 1);
    }
}

/// The first `n` entries of a sequence, or all of it when it is shorter.
pub open spec fn clip<A>(s: Seq<A>, n: int) -> Seq<A> {
    if s.len() <= n {
        s
    } else {
        s.take(n)
    }
}

proof fn lemma_clip_extend<A>(a: Seq<A>, b: Seq<A>, n: int)
    requires
        a.len() >= n >= 0,
    ensures
        clip(a + b, n) == clip(a, n),
{
    if a.len() > n {
        assert((a + b).take(n) =~= a.take(n));
    } else {
        assert((a + b).take(n) =~= a);
    }
}

proof fn lemma_clip_push<A>(a: Seq<A>, e: A, n: int)
    requires
        a.len() < n,
    ensures
        clip(a.push(e), n) == a.push(e),
{
}

proof fn lemma_total_size_prefix(info: Seq<(u64, [u8; 32])>, i: int, j: int)
    requires
        0 <= i <= j <= info.len(),
    ensures
        spec_total_size(info.take(i)) <= spec_total_size(info.take(j)),
    decreases j - i,
{
    if i < j {
        lemma_total_size_prefix(info, i, j - 1);
        assert(info.take(j).drop_last() =~= info.take(j - 1));
    }
}

impl BlockManager {
    /// An empty manager, with no geometry yet.
    pub fn new() -> (m: Self)
        ensures
            m.block_bitfield@.len() == 0,
            m.pending_blocks@ == Set::<u32>::empty(),
            m.piece_rarity@ == Map::<u32, usize>::empty(),
            m.piece_hashes_v1@.len() == 0,
            m.files@.len() == 0,
            m.piece_lengths@ == Map::<u32, u32>::empty(),
            m.legacy_buffers@ == Map::<u32, LegacyAssembler>::empty(),
            m.committed_pieces@ == Set::<u32>::empty(),
            m.piece_length == 0,
            m.total_length == 0,
            m.total_blocks == 0,
            m.wf(),
    {
        Self::default()
    }

    /// Sets the geometry: piece length, total length, v1 hashes, the v2 files
    /// laid end to end, the per-piece length overrides, and a block bitfield
    /// covering the whole torrent, all held or all missing.
    pub fn set_geometry(
        &mut self,
        piece_length: u32,
        total_length: u64,
        v1_hashes: Vec<[u8; 20]>,
        v2_file_info: Vec<(u64, [u8; 32])>,
        piece_overrides: HashMap<u32, u32>,
        validation_complete: bool,
    )
        requires
            old(self).wf(),
            spec_total_size(v2_file_info@) <= u64::MAX,
            div_ceil(total_length as int, BLOCK_SIZE as int) <= u32::MAX,
        ensures
            final(self).wf(),
            final(self).piece_length == piece_length,
            final(self).total_length == total_length,
            final(self).piece_hashes_v1@ == v1_hashes@,
            final(self).piece_lengths@ == piece_overrides@,
            final(self).files@ == spec_file_layout(v2_file_info@),
            final(self).total_blocks == div_ceil(total_length as int, BLOCK_SIZE as int),
            final(self).block_bitfield@ == Seq::new(
                final(self).total_blocks as nat,
                |_i: int| validation_complete,
            ),
            final(self).pending_blocks == old(self).pending_blocks,
            final(self).piece_rarity == old(self).piece_rarity,
            final(self).legacy_buffers == old(self).legacy_buffers,
            final(self).committed_pieces@ == Set::<u32>::empty(),
    {
        self.piece_length = piece_length;
        self.total_length = total_length;
        self.piece_hashes_v1 = v1_hashes;
        self.piece_lengths = piece_overrides;

        let mut current_offset: u64 = 0;
        let mut files: Vec<FileInfo> = Vec::new();
        let n = v2_file_info.len();
        let mut i: usize = 0;
        while i < n
            invariant
                n == v2_file_info@.len(),
                0 <= i <= n,
                spec_total_size(v2_file_info@) <= u64::MAX,
                current_offset == spec_total_size(v2_file_info@.take(i as int)),
                files@ == spec_file_layout(v2_file_info@.take(i as int)),
            decreases n - i,
        {
            let (size, root) = v2_file_info[i];
            proof {
                assert(v2_file_info@.take(i + 1).drop_last() =~= v2_file_info@.take(i as int));
                lemma_total_size_prefix(v2_file_info@, i + 1, n as int);
                assert(v2_file_info@.take(n as int) =~= v2_file_info@);
            }
            files.push(
                FileInfo {
                    start_offset: current_offset,
                    end_offset: current_offset + size,
                    root_hash: root,
                },
            );
            current_offset = current_offset + size;
            i = i + 1;
        }
        proof {
            assert(v2_file_info@.take(n as int) =~= v2_file_info@);
        }
        self.files = files;
        self.committed_pieces = HashSet::new();

        let total_blocks: u32 = (total_length / BLOCK_SIZE as u64 + if total_length % BLOCK_SIZE as u64
            != 0 {
            1u64
        } else {
            0u64
        }) as u32;
        self.total_blocks = total_blocks;
        self.block_bitfield = vec![validation_complete; total_blocks as usize];
        proof {
            assert(self.block_bitfield@ =~= Seq::new(
                total_blocks as nat,
                |_i: int| validation_complete,
            ));
        }
    }
}

impl BlockManager {
    /// Which of the v2 files holds the byte at `global_offset`: the first one
    /// whose range contains it.
    fn get_file_for_offset(&self, global_offset: u64) -> (found: Option<(usize, &FileInfo)>)
        ensures
            match first_file_from(self.files@, global_offset, 0) {
                Some(i) => found matches Some((j, f)) && j == i && *f == self.files@[i],
                None => found is None,
            },
    {
        let n = self.files.len();
        let mut i: usize = 0;
        while i < n
            invariant
                n == self.files@.len(),
                0 <= i <= n,
                first_file_from(self.files@, global_offset, 0) == first_file_from(
                    self.files@,
                    global_offset,
                    i as int,
                ),
            decreases n - i,
        {
            let f = &self.files[i];
            if global_offset >= f.start_offset && global_offset < f.end_offset {
                proof {
                    lemma_first_file_holds(self.files@, global_offset, 0);
                }
                return Some((i, f));
            }
            i = i + 1;
        }
        None
    }

    /// Decides what an incoming block goes through: an error if it lies off the
    /// grid, a duplicate if it is already held, a v2 verification against the
    /// root of the first file that holds it, else buffering for v1 hashing.
    pub fn handle_incoming_block_decision(&self, addr: BlockAddress) -> (decision: BlockDecision)
        ensures
            decision == self.spec_decision(addr),
    {
        let global_idx = self.flatten_address(addr);

        if global_idx as usize >= self.block_bitfield.len() {
            return BlockDecision::Error;
        }
        if self.block_bitfield[global_idx as usize] {
            return BlockDecision::Duplicate;
        }
        proof {
            lemma_first_file_holds(self.files@, addr.global_offset, 0);
        }
        if let Some((file_idx, file)) = self.get_file_for_offset(addr.global_offset) {
            let offset_in_file = addr.global_offset - file.start_offset;
            let block_index_in_file = (offset_in_file / BLOCK_SIZE as u64) as u32;
            return BlockDecision::VerifyV2 {
                file_index: file_idx,
                root_hash: file.root_hash,
                block_index_in_file,
            };
        }
        BlockDecision::BufferV1
    }

    /// Records a verified block as held and no longer pending; a block off the
    /// grid or already held is reported as a duplicate and changes nothing.
    pub fn commit_verified_block(&mut self, addr: BlockAddress) -> (result: BlockResult)
        ensures
            BlockManager::spec_block_committed(*old(self), *final(self), addr, result),
    {
        let global_idx = self.flatten_address(addr);
        if global_idx as usize >= self.block_bitfield.len() {
            return BlockResult::Duplicate;
        }
        if self.block_bitfield[global_idx as usize] {
            return BlockResult::Duplicate;
        }
        self.block_bitfield.set(global_idx as usize, true);
        self.pending_blocks.remove(&global_idx);
        BlockResult::Accepted
    }

    /// Marks a block as requested from some peer.
    pub fn mark_pending(&mut self, global_idx: u32)
        ensures
            final(self).pending_blocks@ == old(self).pending_blocks@.insert(global_idx),
            final(self).same_layout(&*old(self)),
            final(self).block_bitfield == old(self).block_bitfield,
            final(self).piece_rarity == old(self).piece_rarity,
            final(self).legacy_buffers == old(self).legacy_buffers,
            final(self).committed_pieces == old(self).committed_pieces,
    {
        self.pending_blocks.insert(global_idx);
    }

    /// Forgets that a block was requested.
    pub fn unmark_pending(&mut self, global_idx: u32)
        ensures
            final(self).pending_blocks@ == old(self).pending_blocks@.remove(global_idx),
            final(self).same_layout(&*old(self)),
            final(self).block_bitfield == old(self).block_bitfield,
            final(self).piece_rarity == old(self).piece_rarity,
            final(self).legacy_buffers == old(self).legacy_buffers,
            final(self).committed_pieces == old(self).committed_pieces,
    {
        self.pending_blocks.remove(&global_idx);
    }

    /// Number of blocks a piece of `piece_len` bytes spans.
    fn blocks_in_piece(&self, piece_len: u32) -> (n: u32)
        ensures
            n == spec_blocks_in_piece(piece_len),
            n <= MAX_BLOCKS_PER_PIECE,
    {
        piece_len / BLOCK_SIZE + if piece_len % BLOCK_SIZE != 0 {
            1
        } else {
            0
        }
    }

    /// The half-open range of global blocks that piece `piece_idx` touches,
    /// clipped to the grid.
    pub fn get_block_range(&self, piece_idx: u32) -> (range: (u32, u32))
        requires
            self.wf(),
        ensures
            range == self.spec_block_range(piece_idx),
            range.0 <= range.1 <= self.total_blocks,
    {
        let piece_len = self.calculate_piece_size(piece_idx);
        let blocks_in_piece = self.blocks_in_piece(piece_len);

        proof {
            lemma_u32_product(piece_idx, self.piece_length);
        }
        let piece_start_offset = piece_idx as u64 * self.piece_length as u64;
        let start_blk = (piece_start_offset / BLOCK_SIZE as u64) as u32;
        let actual_start_blk = if start_blk <= self.total_blocks {
            start_blk
        } else {
            self.total_blocks
        };
        let sum: u64 = actual_start_blk as u64 + blocks_in_piece as u64;
        let end_blk = if sum <= self.total_blocks as u64 {
            sum as u32
        } else {
            self.total_blocks
        };
        (actual_start_blk, end_blk)
    }

    /// Size of a piece in bytes: its override, else the piece length clipped to
    /// the end of the torrent (zero past the end).
    pub fn calculate_piece_size(&self, piece_idx: u32) -> (size: u32)
        ensures
            size == self.spec_piece_size(piece_idx),
    {
        if let Some(len) = self.piece_lengths.get(&piece_idx) {
            return *len;
        }
        proof {
            lemma_u32_product(piece_idx, self.piece_length);
        }
        let offset = piece_idx as u64 * self.piece_length as u64;
        let remaining = self.total_length.saturating_sub(offset);
        if (self.piece_length as u64) <= remaining {
            self.piece_length
        } else {
            remaining as u32
        }
    }

    /// The address of global block `global_idx`: its piece, its offset in the
    /// piece, and its length clipped to the piece.
    pub fn inflate_address(&self, global_idx: u32) -> (addr: BlockAddress)
        requires
            self.piece_length > 0,
        ensures
            addr == self.spec_inflate(global_idx),
    {
        let global_offset = global_idx as u64 * BLOCK_SIZE as u64;
        let piece_index = (global_offset / self.piece_length as u64) as u32;
        let byte_offset_in_piece = (global_offset % self.piece_length as u64) as u32;

        let valid_piece_len = self.calculate_piece_size(piece_index);
        let remaining_in_piece = (valid_piece_len as u64).saturating_sub(
            byte_offset_in_piece as u64,
        );
        let length = if (BLOCK_SIZE as u64) <= remaining_in_piece {
            BLOCK_SIZE
        } else {
            remaining_in_piece as u32
        };

        BlockAddress {
            piece_index,
            block_index: byte_offset_in_piece / BLOCK_SIZE,
            byte_offset: byte_offset_in_piece,
            global_offset,
            length,
        }
    }

    /// Index of a block in the global grid.
    pub fn flatten_address(&self, addr: BlockAddress) -> (g: u32)
        ensures
            g == spec_flatten(addr),
    {
        (addr.global_offset / BLOCK_SIZE as u64) as u32
    }

    /// Whether pieces `p` and `q` touch a common block.
    fn pieces_overlap(&self, p: u32, q: u32) -> (overlap: bool)
        requires
            self.wf(),
        ensures
            overlap == self.spec_pieces_overlap(p, q),
    {
        let (ps, pe) = self.get_block_range(p);
        let (qs, qe) = self.get_block_range(q);
        ps < pe && qs < qe && ps < qe && qs < pe
    }

    /// Whether a piece shares a boundary block with the piece before or after it.
    fn shares_boundary(&self, p: u32) -> (shared: bool)
        requires
            self.wf(),
        ensures
            shared == self.spec_shares_boundary(p),
    {
        (p > 0 && self.pieces_overlap(p - 1, p)) || (p < u32::MAX && self.pieces_overlap(p, p + 1))
    }

    /// Whether a piece is complete: every block it touches is held and, when it
    /// shares a boundary block with a neighbour, it has been committed whole.
    pub fn is_piece_complete(&self, piece_index: u32) -> (complete: bool)
        requires
            self.wf(),
        ensures
            complete == self.spec_piece_complete(piece_index),
    {
        let (start, end) = self.get_block_range(piece_index);
        let mut i = start;
        while i < end
            invariant
                (start, end) == self.spec_block_range(piece_index),
                start <= i <= end <= self.total_blocks,
                self.wf(),
                forall|j: int|
                    start <= j < i ==> j < self.block_bitfield@.len() && #[trigger]
                        self.block_bitfield@[j],
            decreases end - i,
        {
            if !self.block_bitfield[i as usize] {
                return false;
            }
            i = i + 1;
        }
        if self.shares_boundary(piece_index) {
            self.committed_pieces.contains(&piece_index)
        } else {
            true
        }
    }

    /// The address of the block at `byte_offset` in piece `piece_index` with the
    /// given length, refused when it would run past the end of the piece.
    pub fn inflate_address_from_overlay(&self, piece_index: u32, byte_offset: u32, length: u32) -> (addr:
        Option<BlockAddress>)
        ensures
            addr == self.spec_overlay(piece_index, byte_offset, length),
    {
        let piece_len = self.calculate_piece_size(piece_index);
        if byte_offset.saturating_add(length) > piece_len {
            return None;
        }
        proof {
            lemma_u32_product(piece_index, self.piece_length);
        }
        let piece_start = piece_index as u64 * self.piece_length as u64;
        let global_offset = piece_start + byte_offset as u64;
        Some(
            BlockAddress {
                piece_index,
                block_index: byte_offset / BLOCK_SIZE,
                byte_offset,
                global_offset,
                length,
            },
        )
    }

    /// Number of pieces, as given by the v1 hashes.
    pub fn total_pieces(&self) -> (n: usize)
        ensures
            n == self.piece_hashes_v1@.len(),
    {
        self.piece_hashes_v1.len()
    }
}

impl BlockManager {
    proof fn lemma_candidates_prefix(&self, peer: Seq<bool>, pieces: Seq<u32>, endgame_mode: bool, i: int, j: int, n: int)
        requires
            0 <= i <= j <= pieces.len(),
            n >= 0,
            self.spec_candidate_blocks(peer, pieces.take(i), endgame_mode).len() >= n,
        ensures
            clip(self.spec_candidate_blocks(peer, pieces.take(j), endgame_mode), n) == clip(
                self.spec_candidate_blocks(peer, pieces.take(i), endgame_mode),
                n,
            ),
        decreases j - i,
    {
        if i < j {
            self.lemma_candidates_prefix(peer, pieces, endgame_mode, i, j - 1, n);
            assert(pieces.take(j).drop_last() =~= pieces.take(j - 1));
            let a = self.spec_candidate_blocks(peer, pieces.take(j - 1), endgame_mode);
            self.lemma_candidates_len_grows(peer, pieces, endgame_mode, i, j - 1);
            lemma_clip_extend(a, self.spec_piece_picks(peer, pieces[j - 1], endgame_mode), n);
        }
    }

    proof fn lemma_candidates_len_grows(&self, peer: Seq<bool>, pieces: Seq<u32>, endgame_mode: bool, i: int, j: int)
        requires
            0 <= i <= j <= pieces.len(),
        ensures
            self.spec_candidate_blocks(peer, pieces.take(i), endgame_mode).len()
                <= self.spec_candidate_blocks(peer, pieces.take(j), endgame_mode).len(),
        decreases j - i,
    {
        if i < j {
            self.lemma_candidates_len_grows(peer, pieces, endgame_mode, i, j - 1);
            assert(pieces.take(j).drop_last() =~= pieces.take(j - 1));
        }
    }

    proof fn lemma_block_picks_clip(
        &self,
        before: Seq<BlockAddress>,
        start: u32,
        g: int,
        end: int,
        endgame_mode: bool,
        n: int,
    )
        requires
            start <= g <= end,
            n >= 0,
            (before + self.spec_block_picks(start, g, endgame_mode)).len() >= n,
        ensures
            (before + self.spec_block_picks(start, end, endgame_mode)).len() >= n,
            clip(before + self.spec_block_picks(start, end, endgame_mode), n) == clip(
                before + self.spec_block_picks(start, g, endgame_mode),
                n,
            ),
        decreases end - g,
    {
        if g < end {
            self.lemma_block_picks_clip(before, start, g, end - 1, endgame_mode, n);
            let a = before + self.spec_block_picks(start, end - 1, endgame_mode);
            let x = if self.spec_block_wanted((end - 1) as u32, endgame_mode) {
                seq![self.spec_inflate((end - 1) as u32)]
            } else {
                seq![]
            };
            assert(before + self.spec_block_picks(start, end, endgame_mode) =~= a + x);
            lemma_clip_extend(a, x, n);
        }
    }

    /// Picks up to `count` blocks to request from a peer: walking the pieces in
    /// the given order, skipping pieces the peer lacks, it takes every block of
    /// the piece that is not held and, outside endgame mode, not already pending.
    /// A manager without geometry has no blocks and picks nothing.
    pub fn pick_blocks_for_peer(
        &self,
        peer_bitfield: &[bool],
        count: usize,
        rarest_pieces: &[u32],
        endgame_mode: bool,
    ) -> (picked: Vec<BlockAddress>)
        requires
            self.wf(),
            self.piece_length > 0 || self.total_blocks == 0,
        ensures
            picked@ == clip(
                self.spec_candidate_blocks(peer_bitfield@, rarest_pieces@, endgame_mode),
                count as int,
            ),
    {
        let mut picked: Vec<BlockAddress> = Vec::new();
        let n = rarest_pieces.len();
        let mut i: usize = 0;
        while i < n
            invariant
                self.wf(),
                self.piece_length > 0 || self.total_blocks == 0,
                n == rarest_pieces@.len(),
                0 <= i <= n,
                picked@ == clip(
                    self.spec_candidate_blocks(
                        peer_bitfield@,
                        rarest_pieces@.take(i as int),
                        endgame_mode,
                    ),
                    count as int,
                ),
            decreases n - i,
        {
            let ghost before = self.spec_candidate_blocks(
                peer_bitfield@,
                rarest_pieces@.take(i as int),
                endgame_mode,
            );
            proof {
                assert(rarest_pieces@.take(i + 1).drop_last() =~= rarest_pieces@.take(i as int));
            }
            if picked.len() >= count {
                proof {
                    self.lemma_candidates_prefix(
                        peer_bitfield@,
                        rarest_pieces@,
                        endgame_mode,
                        i as int,
                        n as int,
                        count as int,
                    );
                    assert(rarest_pieces@.take(n as int) =~= rarest_pieces@);
                }
                return picked;
            }
            let piece_idx = rarest_pieces[i];
            let peer_has = if (piece_idx as usize) < peer_bitfield.len() {
                peer_bitfield[piece_idx as usize]
            } else {
                false
            };
            if peer_has {
                let (start_blk, end_blk) = self.get_block_range(piece_idx);
                let mut g = start_blk;
                while g < end_blk
                    invariant
                        self.wf(),
                        self.piece_length > 0 || self.total_blocks == 0,
                        start_blk <= g <= end_blk <= self.total_blocks,
                        (start_blk, end_blk) == self.spec_block_range(piece_idx),
                        before.len() < count,
                        picked@ == clip(
                            before + self.spec_block_picks(start_blk, g as int, endgame_mode),
                            count as int,
                        ),
                    ensures
                        g == end_blk || picked@.len() >= count,
                        start_blk <= g <= end_blk,
                        picked@ == clip(
                            before + self.spec_block_picks(start_blk, g as int, endgame_mode),
                            count as int,
                        ),
                    decreases end_blk - g,
                {
                    if picked.len() >= count {
                        break;
                    }
                    assert(self.piece_length > 0);
                    let already_have = if (g as usize) < self.block_bitfield.len() {
                        self.block_bitfield[g as usize]
                    } else {
                        true
                    };
                    let is_pending = self.pending_blocks.contains(&g);
                    proof {
                        let prev = before + self.spec_block_picks(start_blk, g as int, endgame_mode);
                        assert(before + self.spec_block_picks(start_blk, g + 1, endgame_mode)
                            =~= prev + if self.spec_block_wanted(g, endgame_mode) {
                            seq![self.spec_inflate(g)]
                        } else {
                            seq![]
                        });
                        assert(prev + seq![] =~= prev);
                        assert(prev + seq![self.spec_inflate(g)] =~= prev.push(self.spec_inflate(g)));
                    }
                    if !already_have && (!is_pending || endgame_mode) {
                        picked.push(self.inflate_address(g));
                    }
                    g = g + 1;
                }
                proof {
                    if g < end_blk {
                        self.lemma_block_picks_clip(before, start_blk, g as int, end_blk as int, endgame_mode, count as int);
                    }
                }
            }
            proof {
                assert(self.spec_candidate_blocks(peer_bitfield@, rarest_pieces@.take(i + 1), endgame_mode)
                    == before + self.spec_piece_picks(peer_bitfield@, piece_idx, endgame_mode));
                if !peer_has {
                    assert(before + seq![] =~= before);
                }
            }
            i = i + 1;
        }
        proof {
            assert(rarest_pieces@.take(n as int) =~= rarest_pieces@);
        }
        picked
    }
}

impl BlockManager {
    /// Buffers a v1 block into its piece's assembler. When this completes the
    /// piece, the assembler is dropped and the whole piece is returned; a block
    /// for a piece whose assembler is already complete returns nothing.
    pub fn handle_v1_block_buffering(&mut self, addr: BlockAddress, data: &[u8]) -> (piece:
        Option<Vec<u8>>)
        requires
            old(self).wf(),
            addr.byte_offset + data@.len() <= usize::MAX,
            addr.byte_offset + data@.len() <= old(self).spec_current_assembler(
                addr.piece_index,
            ).buffer.len() ==> addr.block_index < old(self).spec_current_assembler(
                addr.piece_index,
            ).mask.len(),
        ensures
            final(self).wf(),
            final(self).same_layout(&*old(self)),
            final(self).block_bitfield == old(self).block_bitfield,
            final(self).pending_blocks == old(self).pending_blocks,
            final(self).piece_rarity == old(self).piece_rarity,
            final(self).committed_pieces == old(self).committed_pieces,
            final(self).legacy_buffers@.remove(addr.piece_index) == old(
                self,
            ).legacy_buffers@.remove(addr.piece_index),
            ({
                let a0 = old(self).spec_current_assembler(addr.piece_index);
                let a1 = spec_apply_block(a0, addr, data@);
                if a0.is_complete() {
                    &&& piece is None
                    &&& final(self).legacy_buffers@.contains_key(addr.piece_index)
                    &&& final(self).legacy_buffers@[addr.piece_index]@ == a0
                } else if a1.is_complete() {
                    &&& piece matches Some(buf) && buf@ == a1.buffer
                    &&& !final(self).legacy_buffers@.contains_key(addr.piece_index)
                } else {
                    &&& piece is None
                    &&& final(self).legacy_buffers@.contains_key(addr.piece_index)
                    &&& final(self).legacy_buffers@[addr.piece_index]@ == a1
                }
            }),
    {
        let ghost a0 = self.spec_current_assembler(addr.piece_index);
        let ghost old_buffers = self.legacy_buffers@;
        let piece_len = self.calculate_piece_size(addr.piece_index);
        let num_blocks = self.blocks_in_piece(piece_len);

        let mut assembler = match self.legacy_buffers.remove(&addr.piece_index) {
            Some(a) => a,
            None => LegacyAssembler {
                buffer: vec![0u8; piece_len as usize],
                received_blocks: 0,
                total_blocks: num_blocks as usize,
                mask: vec![false; num_blocks as usize],
            },
        };
        proof {
            if !old_buffers.contains_key(addr.piece_index) {
                assert(assembler@.buffer =~= a0.buffer);
                assert(assembler@.mask =~= a0.mask);
            }
            assert(assembler@ == a0);
        }

        if assembler.received_blocks == assembler.total_blocks {
            self.legacy_buffers.insert(addr.piece_index, assembler);
            proof {
                assert(self.legacy_buffers@.remove(addr.piece_index) =~= old_buffers.remove(
                    addr.piece_index,
                ));
            }
            return None;
        }

        let offset = addr.byte_offset as usize;
        let end = offset + data.len();
        if end <= assembler.buffer.len() && !assembler.mask[addr.block_index as usize] {
            let ghost old_buf = assembler.buffer@;
            let _mask_len = assembler.mask.len();
            proof {
                if old_buffers.contains_key(addr.piece_index) {
                    assert(old_buffers[addr.piece_index]@.wf());
                }
                assert(a0.wf());
                assert(!assembler.mask@[addr.block_index as int]);
                lemma_count_true_bounds(assembler.mask@);
                lemma_count_true_set(assembler.mask@, addr.block_index as int);
            }
            assembler.mask.set(addr.block_index as usize, true);
            assembler.received_blocks = assembler.received_blocks + 1;
            let ghost mid = assembler@;
            let mut k: usize = 0;
            while k < data.len()
                invariant
                    end == offset + data@.len(),
                    end <= old_buf.len(),
                    0 <= k <= data@.len(),
                    assembler.buffer@.len() == old_buf.len(),
                    assembler.mask@ == mid.mask,
                    assembler.received_blocks == mid.received_blocks,
                    assembler.total_blocks == mid.total_blocks,
                    forall|j: int|
                        0 <= j < old_buf.len() && (j < offset || j >= offset + k) ==> #[trigger]
                            assembler.buffer@[j] == old_buf[j],
                    forall|j: int|
                        offset <= j < offset + k ==> #[trigger] assembler.buffer@[j] == data@[j
                            - offset],
                decreases data@.len() - k,
            {
                assembler.buffer.set(offset + k, data[k]);
                k = k + 1;
            }
            proof {
                assert(assembler.buffer@ =~= old_buf.take(offset as int) + data@ + old_buf.skip(
                    end as int,
                ));
            }
        }

        if assembler.received_blocks == assembler.total_blocks {
            proof {
                assert(self.legacy_buffers@.remove(addr.piece_index) =~= old_buffers.remove(
                    addr.piece_index,
                ));
            }
            return Some(assembler.buffer);
        }
        self.legacy_buffers.insert(addr.piece_index, assembler);
        proof {
            assert(self.legacy_buffers@.remove(addr.piece_index) =~= old_buffers.remove(
                addr.piece_index,
            ));
        }
        None
    }
}

impl BlockManager {
    /// Recounts piece availability from the peers' bitfields.
    pub fn update_rarity(&mut self, peer_bitfields: &[Vec<bool>])
        requires
            forall|j: int|
                0 <= j < peer_bitfields@.len() ==> #[trigger] peer_bitfields@[j]@.len() <= u32::MAX
                    + 1,
        ensures
            final(self).piece_rarity@ == spec_rarity_map(bitfield_views(peer_bitfields@)),
            final(self).same_layout(&*old(self)),
            final(self).block_bitfield == old(self).block_bitfield,
            final(self).pending_blocks == old(self).pending_blocks,
            final(self).legacy_buffers == old(self).legacy_buffers,
            final(self).committed_pieces == old(self).committed_pieces,
    {
        let ghost views = bitfield_views(peer_bitfields@);
        self.piece_rarity.clear();
        let nb = peer_bitfields.len();
        let mut j: usize = 0;
        proof {
            assert(self.piece_rarity@ =~= spec_rarity_map(views.take(0)));
        }
        while j < nb
            invariant
                nb == peer_bitfields@.len(),
                views == bitfield_views(peer_bitfields@),
                0 <= j <= nb,
                forall|t: int|
                    0 <= t < peer_bitfields@.len() ==> #[trigger] peer_bitfields@[t]@.len()
                        <= u32::MAX + 1,
                self.piece_rarity@ == spec_rarity_map(views.take(j as int)),
                self.same_layout(&*old(self)),
                self.block_bitfield == old(self).block_bitfield,
                self.pending_blocks == old(self).pending_blocks,
                self.legacy_buffers == old(self).legacy_buffers,
                self.committed_pieces == old(self).committed_pieces,
            decreases nb - j,
        {
            let bf = &peer_bitfields[j];
            let ghost prev = views.take(j as int);
            let ghost cur = bf@;
            proof {
                assert(views.take(j + 1).drop_last() =~= prev);
                assert(views.take(j + 1).last() == cur);
            }
            let m = bf.len();
            let mut i: usize = 0;
            while i < m
                invariant
                    m == cur.len(),
                    cur == bf@,
                    m <= u32::MAX + 1,
                    0 <= i <= m,
                    j < nb,
                    nb == peer_bitfields@.len(),
                    prev.len() == j,
                    self.piece_rarity@ == Map::new(
                        |k: u32| rarity_of(prev, k as int) + (if k < i && cur[k as int] { 1nat } else { 0nat }) > 0,
                        |k: u32| (rarity_of(prev, k as int) + (if k < i && cur[k as int] { 1nat } else { 0nat })) as usize,
                    ),
                    self.same_layout(&*old(self)),
                    self.block_bitfield == old(self).block_bitfield,
                    self.pending_blocks == old(self).pending_blocks,
                    self.legacy_buffers == old(self).legacy_buffers,
                    self.committed_pieces == old(self).committed_pieces,
                decreases m - i,
            {
                if bf[i] {
                    let idx = i as u32;
                    let c: usize = match self.piece_rarity.get(&idx) {
                        Some(v) => *v,
                        None => 0,
                    };
                    proof {
                        lemma_rarity_bound(prev, idx as int);
                    }
                    self.piece_rarity.insert(idx, c + 1);
                }
                proof {
                    assert(self.piece_rarity@ =~= Map::new(
                        |k: u32| rarity_of(prev, k as int) + (if k < i + 1 && cur[k as int] { 1nat } else { 0nat }) > 0,
                        |k: u32| (rarity_of(prev, k as int) + (if k < i + 1 && cur[k as int] { 1nat } else { 0nat })) as usize,
                    ));
                }
                i = i + 1;
            }
            proof {
                assert(self.piece_rarity@ =~= spec_rarity_map(views.take(j + 1)));
            }
            j = j + 1;
        }
        proof {
            assert(views.take(nb as int) =~= views);
        }
    }

    /// Forgets the pending marks of the blocks a peer was working on.
    pub fn release_pending_blocks_for_peer(&mut self, pending: &[BlockAddress])
        ensures
            final(self).pending_blocks@ == old(self).pending_blocks@.difference(
                flattened_set(pending@),
            ),
            final(self).same_layout(&*old(self)),
            final(self).block_bitfield == old(self).block_bitfield,
            final(self).piece_rarity == old(self).piece_rarity,
            final(self).legacy_buffers == old(self).legacy_buffers,
            final(self).committed_pieces == old(self).committed_pieces,
    {
        let n = pending.len();
        let mut i: usize = 0;
        while i < n
            invariant
                n == pending@.len(),
                0 <= i <= n,
                self.pending_blocks@ == old(self).pending_blocks@.difference(
                    flattened_set(pending@.take(i as int)),
                ),
                self.same_layout(&*old(self)),
                self.block_bitfield == old(self).block_bitfield,
                self.piece_rarity == old(self).piece_rarity,
                self.legacy_buffers == old(self).legacy_buffers,
                self.committed_pieces == old(self).committed_pieces,
            decreases n - i,
        {
            let global_idx = self.flatten_address(pending[i]);
            self.unmark_pending(global_idx);
            proof {
                let next = pending@.take(i + 1);
                assert forall|g: u32| flattened_set(next).contains(g) <==> (flattened_set(
                    pending@.take(i as int),
                ).contains(g) || g == global_idx) by {
                    if flattened_set(next).contains(g) {
                        let t = choose|t: int| 0 <= t < next.len() && spec_flatten(next[t]) == g;
                        if t < i {
                            assert(pending@.take(i as int)[t] == next[t]);
                        }
                    }
                    if flattened_set(pending@.take(i as int)).contains(g) {
                        let t = choose|t: int|
                            0 <= t < i && spec_flatten(pending@.take(i as int)[t]) == g;
                        assert(next[t] == pending@.take(i as int)[t]);
                    }
                    if g == global_idx {
                        assert(next[i as int] == pending@[i as int]);
                    }
                }
                assert(self.pending_blocks@ =~= old(self).pending_blocks@.difference(
                    flattened_set(next),
                ));
            }
            i = i + 1;
        }
        proof {
            assert(pending@.take(n as int) =~= pending@);
        }
    }

    /// How many peers are known to have a piece.
    fn piece_availability(&self, p: u32) -> (n: usize)
        ensures
            n == self.spec_rarity(p),
    {
        match self.piece_rarity.get(&p) {
            Some(v) => *v,
            None => 0,
        }
    }

    /// The pieces not yet complete, among the first `total_pieces()` (taken
    /// modulo 2^32), rarest first, ties broken by piece index.
    pub fn get_rarest_pieces(&self) -> (pieces: Vec<u32>)
        requires
            self.wf(),
        ensures
            self.sorted_rarest_first(pieces@),
            forall|p: u32|
                #[trigger] pieces@.contains(p) <==> (p < (self.piece_hashes_v1@.len() as u32)
                    && !self.spec_piece_complete(p)),
    {
        let n = self.total_pieces() as u32;
        let mut result: Vec<u32> = Vec::new();
        let mut p: u32 = 0;
        while p < n
            invariant
                self.wf(),
                n == (self.piece_hashes_v1@.len() as u32),
                p <= n,
                self.sorted_rarest_first(result@),
                forall|q: u32| #![trigger result@.contains(q)] result@.contains(q) <==> (q < p && !self.spec_piece_complete(q)),
            decreases n - p,
        {
            if !self.is_piece_complete(p) {
                let key = self.piece_availability(p);
                let mut j: usize = 0;
                    while j < result.len() && self.piece_availability(result[j]) <= key
                    invariant
                        self.wf(),
                        p < n,
                        self.sorted_rarest_first(result@),
                        forall|q: u32| #![trigger result@.contains(q)] result@.contains(q) <==> (q < p && !self.spec_piece_complete(q)),
                        !self.spec_piece_complete(p),
                        0 <= j <= result@.len(),
                        key == self.spec_rarity(p),
                        forall|t: int| 0 <= t < j ==> self.spec_rarity(#[trigger] result@[t]) <= key,
                    decreases result@.len() - j,
                {
                    j = j + 1;
                }
                proof {
                    if j < result@.len() {
                        assert(self.spec_rarity(result@[j as int]) > key);
                    }
                }
                let ghost old_result = result@;
                proof {
                    assert forall|q: u32| old_result.contains(q) implies q < p by {}
                }
                result.insert(j, p);
                proof {
                    assert forall|a: int, b: int| 0 <= a < b < result@.len() implies self.rarer_first(
                        #[trigger] result@[a],
                        #[trigger] result@[b],
                    ) by {
                        if b < j {
                            assert(result@[a] == old_result[a] && result@[b] == old_result[b]);
                        } else if b == j {
                            assert(result@[a] == old_result[a]);
                            assert(old_result.contains(old_result[a]));
                        } else if a == j {
                            assert(result@[b] == old_result[b - 1]);
                            assert(self.spec_rarity(old_result[j as int]) > key);
                            if b - 1 > j {
                                assert(self.rarer_first(old_result[j as int], old_result[b - 1]));
                            }
                            assert(old_result.contains(old_result[b - 1]));
                        } else if a < j {
                            assert(result@[a] == old_result[a] && result@[b] == old_result[b - 1]);
                        } else {
                            assert(result@[a] == old_result[a - 1] && result@[b] == old_result[b - 1]);
                        }
                    }
                    assert forall|q: u32| #![trigger result@.contains(q)] result@.contains(q) <==> (q < p + 1 && !self.spec_piece_complete(q)) by {
                        if result@.contains(q) {
                            let t = choose|t: int| 0 <= t < result@.len() && result@[t] == q;
                            if t < j {
                                assert(old_result[t] == q);
                                assert(old_result.contains(q));
                            } else if t > j {
                                assert(old_result[t - 1] == q);
                                assert(old_result.contains(q));
                            } else {
                                assert(q == p);
                            }
                        }
                        if q < p + 1 && !self.spec_piece_complete(q) {
                            if q == p {
                                assert(result@[j as int] == p);
                            } else {
                                assert(old_result.contains(q));
                                let t = choose|t: int| 0 <= t < old_result.len() && old_result[t] == q;
                                if t < j {
                                    assert(result@[t] == q);
                                } else {
                                    assert(result@[t + 1] == q);
                                }
                            }
                        }
                    }
                }
            } else {
                proof {
                    assert forall|q: u32| #![trigger result@.contains(q)] result@.contains(q) <==> (q < p + 1 && !self.spec_piece_complete(q)) by {
                        if q == p {
                            if result@.contains(q) {
                                assert(q < p);
                            }
                        }
                    }
                }
            }
            p = p + 1;
        }
        result
    }

    /// Marks every block of a verified v1 piece as held and not pending, and
    /// drops its assembler.
    pub fn commit_v1_piece(&mut self, piece_index: u32)
        requires
            old(self).wf(),
        ensures
            final(self).wf(),
            BlockManager::spec_piece_committed(*old(self), *final(self), piece_index),
    {
        let (start, end) = self.get_block_range(piece_index);
        let ghost old_bits = self.block_bitfield@;
        let ghost old_pending = self.pending_blocks@;
        let mut g = start;
        while g < end
            invariant
                start <= g <= end <= self.total_blocks,
                (start, end) == old(self).spec_block_range(piece_index),
                old_bits == old(self).block_bitfield@,
                old_pending == old(self).pending_blocks@,
                self.wf(),
                self.same_layout(&*old(self)),
                self.piece_rarity == old(self).piece_rarity,
                self.legacy_buffers == old(self).legacy_buffers,
                self.committed_pieces == old(self).committed_pieces,
                self.block_bitfield@ == Seq::new(
                    old_bits.len(),
                    |i: int|
                        if start <= i < g {
                            true
                        } else {
                            old_bits[i]
                        },
                ),
                self.pending_blocks@ == old_pending.difference(block_set(start, g)),
            decreases end - g,
        {
            if (g as usize) < self.block_bitfield.len() {
                self.block_bitfield.set(g as usize, true);
            }
            self.pending_blocks.remove(&g);
            proof {
                assert(self.block_bitfield@ =~= Seq::new(
                    old_bits.len(),
                    |i: int|
                        if start <= i < g + 1 {
                            true
                        } else {
                            old_bits[i]
                        },
                ));
                assert(self.pending_blocks@ =~= old_pending.difference(block_set(start, (g + 1) as u32)));
            }
            g = g + 1;
        }
        self.legacy_buffers.remove(&piece_index);
        self.committed_pieces.insert(piece_index);
    }

    /// Marks every block of a piece whose verification or write failed as not
    /// held again, and drops its assembler.
    pub fn revert_v1_piece_completion(&mut self, piece_index: u32)
        requires
            old(self).wf(),
        ensures
            final(self).wf(),
            BlockManager::spec_piece_reverted(*old(self), *final(self), piece_index),
    {
        let (start, end) = self.get_block_range(piece_index);
        let ghost old_bits = self.block_bitfield@;
        let mut g = start;
        while g < end
            invariant
                start <= g <= end <= self.total_blocks,
                (start, end) == old(self).spec_block_range(piece_index),
                old_bits == old(self).block_bitfield@,
                self.wf(),
                self.same_layout(&*old(self)),
                self.piece_rarity == old(self).piece_rarity,
                self.pending_blocks == old(self).pending_blocks,
                self.legacy_buffers == old(self).legacy_buffers,
                self.committed_pieces == old(self).committed_pieces,
                self.block_bitfield@ == Seq::new(
                    old_bits.len(),
                    |i: int|
                        if start <= i < g {
                            false
                        } else {
                            old_bits[i]
                        },
                ),
            decreases end - g,
        {
            if (g as usize) < self.block_bitfield.len() {
                self.block_bitfield.set(g as usize, false);
            }
            proof {
                assert(self.block_bitfield@ =~= Seq::new(
                    old_bits.len(),
                    |i: int|
                        if start <= i < g + 1 {
                            false
                        } else {
                            old_bits[i]
                        },
                ));
            }
            g = g + 1;
        }
        self.legacy_buffers.remove(&piece_index);
        self.committed_pieces.remove(&piece_index);
    }

    /// Drops the assembler of a piece.
    pub fn reset_v1_buffer(&mut self, piece_index: u32)
        requires
            old(self).wf(),
        ensures
            final(self).wf(),
            final(self).same_layout(&*old(self)),
            final(self).block_bitfield == old(self).block_bitfield,
            final(self).pending_blocks == old(self).pending_blocks,
            final(self).piece_rarity == old(self).piece_rarity,
            final(self).legacy_buffers@ == old(self).legacy_buffers@.remove(piece_index),
            final(self).committed_pieces == old(self).committed_pieces,
    {
        self.legacy_buffers.remove(&piece_index);
    }
}

} // verus!
