//! Piece geometry of a torrent: the size of each piece, how a v2 piece sits in
//! its file, and the length of the piece space.
use std::collections::HashMap;
use vstd::prelude::*;

verus! {

broadcast use vstd::std_specs::hash::group_hash_axioms;

/// Where the file that a v2 piece belongs to lies: its offset in the piece
/// space and its length.
#[derive(Debug, Clone, Copy, PartialEq, Eq)]
pub struct FileRoot {
    pub file_offset: u64,
    pub length: u64,
}

/// `a - b`, or zero when `b` is larger.
pub open spec fn sat_sub(a: int, b: int) -> int {
    if a > b {
        a - b
    } else {
        0
    }
}

/// The smaller of two integers.
pub open spec fn min(a: int, b: int) -> int {
    if a <= b {
        a
    } else {
        b
    }
}

/// How far into its file v2 piece `p` starts.
pub open spec fn offset_in_file(root: FileRoot, piece_len: u64, p: u32) -> int {
    sat_sub(p * piece_len, root.file_offset as int)
}

/// How many bytes of its file are left from where v2 piece `p` starts.
pub open spec fn remaining_in_file(root: FileRoot, piece_len: u64, p: u32) -> int {
    sat_sub(root.length as int, offset_in_file(root, piece_len, p))
}

/// The size of piece `p`: for a v2 piece, the piece length clamped to what is
/// left of its file; otherwise the piece length clamped to what is left of the
/// stream.
pub open spec fn spec_piece_size(p: u32, piece_len: u64, root: Option<FileRoot>, total_len: u64) -> int {
    match root {
        Some(r) => min(piece_len as int, remaining_in_file(r, piece_len, p)),
        None => min(piece_len as int, sat_sub(total_len as int, p * piece_len)),
    }
}

fn offset_and_remaining(root: FileRoot, piece_len: u64, p: u32) -> (res: (u64, u64))
    requires
        p * piece_len <= u64::MAX,
    ensures
        res.0 == offset_in_file(root, piece_len, p),
        res.1 == remaining_in_file(root, piece_len, p),
{
    let start = p as u64 * piece_len;
    let offset = start.saturating_sub(root.file_offset);
    (offset, root.length.saturating_sub(offset))
}

/// The size in bytes of piece `piece_index`, given the piece length, the file
/// of the piece when it is a v2 piece, and the length of the v1 stream.
pub fn get_piece_size(piece_index: u32, piece_len: u64, root: Option<FileRoot>, total_len: u64) -> (size: u64)
    requires
        piece_index * piece_len <= u64::MAX,
    ensures
        size == spec_piece_size(piece_index, piece_len, root, total_len),
{
    match root {
        Some(r) => {
            let (_, remaining) = offset_and_remaining(r, piece_len, piece_index);
            if piece_len <= remaining {
                piece_len
            } else {
                remaining
            }
        },
        None => {
            let offset = piece_index as u64 * piece_len;
            let remaining = total_len.saturating_sub(offset);
            if piece_len <= remaining {
                piece_len
            } else {
                remaining
            }
        },
    }
}

/// The longest a block request into v2 piece `p` may reach, as a `u32`.
pub open spec fn spec_v2_piece_limit(roots: Map<u32, FileRoot>, piece_len: u64, p: u32) -> Option<
    u32,
> {
    if roots.contains_key(p) {
        Some(min(piece_len as int, remaining_in_file(roots[p], piece_len, p)) as u32)
    } else {
        None
    }
}

/// The size limit of a v2 piece (the first file root it maps to), if it is one.
pub fn v2_piece_limit(roots: &HashMap<u32, FileRoot>, piece_len: u64, piece_index: u32) -> (limit:
    Option<u32>)
    requires
        piece_index * piece_len <= u64::MAX,
    ensures
        limit == spec_v2_piece_limit(roots@, piece_len, piece_index),
{
    match roots.get(&piece_index) {
        Some(r) => {
            let (_, remaining) = offset_and_remaining(*r, piece_len, piece_index);
            let m = if piece_len <= remaining {
                piece_len
            } else {
                remaining
            };
            Some(
                #[verifier::truncate]
                (m as u32),
            )
        },
        None => None,
    }
}

/// What verifying v2 piece `p` needs: how many of the received bytes belong
/// to the file, the index of the piece within its file, and the length that
/// frames the hashing (the whole file when it is no longer than a piece).
/// Without a file root, all the data counts and the piece stands alone.
pub open spec fn spec_v2_verify_params(
    p: u32,
    piece_len: u64,
    root: Option<FileRoot>,
    data_len: usize,
) -> (usize, u32, usize) {
    match root {
        Some(r) => (
            min(data_len as int, remaining_in_file(r, piece_len, p)) as usize,
            (offset_in_file(r, piece_len, p) / (piece_len as int)) as u32,
            (if r.length <= piece_len {
                r.length
            } else {
                piece_len
            }) as usize,
        ),
        None => (data_len, 0, data_len),
    }
}

/// The verification parameters of v2 piece `piece_index`.
pub fn calculate_v2_verify_params(
    piece_index: u32,
    piece_len: u64,
    root: Option<FileRoot>,
    data_len: usize,
) -> (params: (usize, u32, usize))
    requires
        piece_index * piece_len <= u64::MAX,
        root is Some ==> piece_len > 0,
    ensures
        params == spec_v2_verify_params(piece_index, piece_len, root, data_len),
{
    match root {
        Some(r) => {
            let (offset, remaining) = offset_and_remaining(r, piece_len, piece_index);
            let valid = if (data_len as u64) <= remaining {
                data_len
            } else {
                remaining as usize
            };
            let relative = #[verifier::truncate]
            ((offset / piece_len) as u32);
            let context = if r.length <= piece_len {
                r.length
            } else {
                piece_len
            };
            (valid, relative, #[verifier::truncate]
            (context as usize))
        },
        None => (data_len, 0, data_len),
    }
}

/// `a` divided by `b`, rounded up.
pub open spec fn div_ceil(a: int, b: int) -> int {
    (a + b - 1) / b
}

/// The v2 pieces of the first `k` files (in path order): each non-empty file
/// starts a fresh run of whole pieces.
pub open spec fn pieces_before(lengths: Seq<u64>, piece_len: u64, k: int) -> int
    decreases k,
{
    if k <= 0 {
        0
    } else if lengths[k - 1] > 0 && piece_len > 0 {
        pieces_before(lengths, piece_len, k - 1) + div_ceil(lengths[k - 1] as int, piece_len as int)
    } else {
        pieces_before(lengths, piece_len, k - 1)
    }
}

/// The length overrides of the short last piece of each of the first `k` v2
/// files: the index of that piece and the length of the file's tail.
pub open spec fn spec_tail_overrides(lengths: Seq<u64>, piece_len: u64, k: int) -> Map<u32, u32>
    decreases k,
{
    if k <= 0 {
        Map::empty()
    } else {
        let prev = spec_tail_overrides(lengths, piece_len, k - 1);
        let len = lengths[k - 1];
        if len > 0 && piece_len > 0 && len % piece_len > 0 {
            let idx = (pieces_before(lengths, piece_len, k - 1) + div_ceil(
                len as int,
                piece_len as int,
            ) - 1) as u32;
            prev.insert(idx, (len % piece_len) as u32)
        } else {
            prev
        }
    }
}

proof fn lemma_pieces_before_mono(lengths: Seq<u64>, piece_len: u64, i: int, j: int)
    requires
        0 <= i <= j <= lengths.len(),
    ensures
        pieces_before(lengths, piece_len, i) <= pieces_before(lengths, piece_len, j),
    decreases j - i,
{
    if i < j {
        lemma_pieces_before_mono(lengths, piece_len, i, j - 1);
        if lengths[j - 1] > 0 && piece_len > 0 {
            assert(div_ceil(lengths[j - 1] as int, piece_len as int) >= 0) by (nonlinear_arith)
                requires
                    piece_len > 0,
            ;
        }
    }
}

/// The length overrides for the tail pieces of a v2 torrent's files, given
/// the file lengths in path order.
pub fn v2_tail_overrides(file_lengths: &[u64], piece_len: u64) -> (overrides: HashMap<u32, u32>)
    requires
        pieces_before(file_lengths@, piece_len, file_lengths@.len() as int) <= u64::MAX,
    ensures
        overrides@ == spec_tail_overrides(file_lengths@, piece_len, file_lengths@.len() as int),
{
    let mut overrides: HashMap<u32, u32> = HashMap::new();
    let mut current: u64 = 0;
    let mut i: usize = 0;
    while i < file_lengths.len()
        invariant
            0 <= i <= file_lengths@.len(),
            pieces_before(file_lengths@, piece_len, file_lengths@.len() as int) <= u64::MAX,
            current == pieces_before(file_lengths@, piece_len, i as int),
            overrides@ == spec_tail_overrides(file_lengths@, piece_len, i as int),
        decreases file_lengths@.len() - i,
    {
        let length = file_lengths[i];
        proof {
            lemma_pieces_before_mono(file_lengths@, piece_len, i + 1, file_lengths@.len() as int);
        }
        if length > 0 && piece_len > 0 {
            let whole = length / piece_len;
            let file_pieces = if length % piece_len != 0 {
                proof {
                    assert(whole < u64::MAX) by (nonlinear_arith)
                        requires
                            piece_len >= 2,
                            whole == length / piece_len,
                    ;
                }
                whole + 1
            } else {
                whole
            };
            proof {
                assert(file_pieces == div_ceil(length as int, piece_len as int)) by (nonlinear_arith)
                    requires
                        piece_len > 0,
                        whole == length / piece_len,
                        length % piece_len != 0 ==> file_pieces == whole + 1,
                        length % piece_len == 0 ==> file_pieces == whole,
                ;
                assert(file_pieces >= 1) by (nonlinear_arith)
                    requires
                        piece_len > 0,
                        length > 0,
                        file_pieces == div_ceil(length as int, piece_len as int),
                ;
            }
            let tail = length % piece_len;
            if tail > 0 {
                let idx = #[verifier::truncate]
                ((current + file_pieces - 1) as u32);
                overrides.insert(idx, #[verifier::truncate] (tail as u32));
            }
            current = current + file_pieces;
        }
        i = i + 1;
    }
    overrides
}

/// The sum of some lengths.
pub open spec fn sum_lengths(lengths: Seq<u64>) -> int
    decreases lengths.len(),
{
    if lengths.len() == 0 {
        0
    } else {
        sum_lengths(lengths.drop_last()) + lengths.last()
    }
}

/// The sum of some lengths.
pub fn total_of(lengths: &[u64]) -> (total: u64)
    requires
        sum_lengths(lengths@) <= u64::MAX,
    ensures
        total == sum_lengths(lengths@),
{
    let mut total: u64 = 0;
    let mut i: usize = 0;
    while i < lengths.len()
        invariant
            0 <= i <= lengths@.len(),
            sum_lengths(lengths@) <= u64::MAX,
            total == sum_lengths(lengths@.take(i as int)),
        decreases lengths@.len() - i,
    {
        proof {
            lemma_sum_prefix(lengths@, i + 1, lengths@.len() as int);
            assert(lengths@.take(lengths@.len() as int) =~= lengths@);
            assert(lengths@.take(i + 1).drop_last() =~= lengths@.take(i as int));
            assert(sum_lengths(lengths@.take(i + 1)) == sum_lengths(lengths@.take(i as int))
                + lengths@[i as int]);
        }
        total = total + lengths[i];
        i = i + 1;
    }
    assert(lengths@.take(lengths@.len() as int) =~= lengths@);
    total
}

proof fn lemma_sum_prefix(lengths: Seq<u64>, i: int, j: int)
    requires
        0 <= i <= j <= lengths.len(),
    ensures
        sum_lengths(lengths.take(i)) <= sum_lengths(lengths.take(j)),
    decreases j - i,
{
    if i < j {
        lemma_sum_prefix(lengths, i, j - 1);
        assert(lengths.take(j).drop_last() =~= lengths.take(j - 1));
    }
    if j == lengths.len() {
        assert(lengths.take(j) =~= lengths);
    }
}

/// The length of the piece space the block grid is laid over: for a v2
/// torrent, whole pieces (the v1 piece count of a hybrid, else the v2 piece
/// count); for a v1 torrent, the files end to end (or its single length).
pub open spec fn spec_geometry_length(
    meta_version: Option<i64>,
    v1_hashes_len: usize,
    v2_piece_count: u32,
    piece_len: u64,
    file_lengths: Seq<u64>,
    length: u64,
) -> int {
    if meta_version == Some(2i64) {
        let pieces: int = if v1_hashes_len > 0 {
            (v1_hashes_len / 20) as int
        } else {
            v2_piece_count as int
        };
        pieces * piece_len
    } else if file_lengths.len() == 0 {
        length as int
    } else {
        sum_lengths(file_lengths)
    }
}

/// The length of the piece space the block grid is laid over.
pub fn geometry_length(
    meta_version: Option<i64>,
    v1_hashes_len: usize,
    v2_piece_count: u32,
    piece_len: u64,
    file_lengths: &[u64],
    length: u64,
) -> (total: u64)
    requires
        spec_geometry_length(
            meta_version,
            v1_hashes_len,
            v2_piece_count,
            piece_len,
            file_lengths@,
            length,
        ) <= u64::MAX,
    ensures
        total == spec_geometry_length(
            meta_version,
            v1_hashes_len,
            v2_piece_count,
            piece_len,
            file_lengths@,
            length,
        ),
{
    let v2 = match meta_version {
        Some(v) => v == 2,
        None => false,
    };
    if v2 {
        let pieces: u64 = if v1_hashes_len > 0 {
            (v1_hashes_len / 20) as u64
        } else {
            v2_piece_count as u64
        };
        pieces * piece_len
    } else if file_lengths.len() == 0 {
        length
    } else {
        total_of(file_lengths)
    }
}

// ---------------------------------------------------------------------------
// Verifying an assembled v2 piece
// ---------------------------------------------------------------------------

/// Root `k` is the one a block at `global_offset` belongs to: the file that
/// starts last at or before the offset (the later one in the list on ties).
pub open spec fn is_matching_root(roots: Seq<FileRoot>, global_offset: u64, k: int) -> bool {
    &&& 0 <= k < roots.len()
    &&& roots[k].file_offset <= global_offset
    &&& forall|j: int|
        0 <= j < roots.len() && (#[trigger] roots[j]).file_offset <= global_offset ==> (
        roots[j].file_offset < roots[k].file_offset || (roots[j].file_offset
            == roots[k].file_offset && j <= k))
}

/// The file root that a block at `global_offset` belongs to, by position, or
/// `None` when every file starts after it.
pub fn matching_root(roots: &[FileRoot], global_offset: u64) -> (m: Option<usize>)
    ensures
        match m {
            Some(k) => is_matching_root(roots@, global_offset, k as int),
            None => forall|j: int|
                0 <= j < roots@.len() ==> (#[trigger] roots@[j]).file_offset > global_offset,
        },
{
    let mut best: Option<usize> = None;
    let mut i: usize = 0;
    while i < roots.len()
        invariant
            0 <= i <= roots@.len(),
            match best {
                Some(k) => k < i && roots@[k as int].file_offset <= global_offset && forall|j: int|
                    0 <= j < i && (#[trigger] roots@[j]).file_offset <= global_offset ==> (
                    roots@[j].file_offset < roots@[k as int].file_offset || (
                    roots@[j].file_offset == roots@[k as int].file_offset && j <= k)),
                None => forall|j: int|
                    0 <= j < i ==> (#[trigger] roots@[j]).file_offset > global_offset,
            },
        decreases roots@.len() - i,
    {
        let r = roots[i];
        if r.file_offset <= global_offset {
            match best {
                Some(k) => {
                    if r.file_offset >= roots[k].file_offset {
                        best = Some(i);
                    }
                },
                None => {
                    best = Some(i);
                },
            }
        }
        i = i + 1;
    }
    best
}

/// How a fully assembled piece is verified.
#[derive(Debug, Clone, Copy, PartialEq, Eq)]
pub enum VerifyRoute {
    /// Against the v2 piece-layer hash we hold.
    V2WithLocalHash,
    /// Against the file root, with the Merkle proof a peer sent.
    V2WithProof,
    /// Against the v1 piece hash.
    V1,
    /// Kept until a peer sends the hashes, which are asked for.
    AwaitHashes,
}

/// How an assembled piece is verified: a piece that is not a v2 piece, or
/// whose file cannot be found, by its v1 hash; otherwise by the local v2 hash,
/// else a cached proof, else (in a hybrid torrent) its v1 hash; failing all
/// these it waits for hashes from a peer.
pub open spec fn spec_verify_route(
    v2_piece: bool,
    root_found: bool,
    local_hash: bool,
    proof_cached: bool,
    has_v1_hashes: bool,
) -> VerifyRoute {
    if !v2_piece || !root_found {
        VerifyRoute::V1
    } else if local_hash {
        VerifyRoute::V2WithLocalHash
    } else if proof_cached {
        VerifyRoute::V2WithProof
    } else if has_v1_hashes {
        VerifyRoute::V1
    } else {
        VerifyRoute::AwaitHashes
    }
}

/// How an assembled piece is verified.
pub fn verify_route(
    v2_piece: bool,
    root_found: bool,
    local_hash: bool,
    proof_cached: bool,
    has_v1_hashes: bool,
) -> (route: VerifyRoute)
    ensures
        route == spec_verify_route(v2_piece, root_found, local_hash, proof_cached, has_v1_hashes),
{
    if !v2_piece || !root_found {
        VerifyRoute::V1
    } else if local_hash {
        VerifyRoute::V2WithLocalHash
    } else if proof_cached {
        VerifyRoute::V2WithProof
    } else if has_v1_hashes {
        VerifyRoute::V1
    } else {
        VerifyRoute::AwaitHashes
    }
}

/// The hash request for v2 piece `p` of a file starting at `file_offset`:
/// with pieces of at least a block, the base layer is log2 of the blocks per
/// piece and the index is the piece's block index in its file shifted down to
/// that layer; smaller pieces are asked for by their own index on layer 0.
pub open spec fn spec_hash_request(p: u32, piece_len: u64, file_offset: u64) -> (u32, u32) {
    if piece_len >= 16384 {
        let base = vstd::std_specs::bits::u64_trailing_zeros((piece_len / 16384) as u64);
        let block = (sat_sub(p * piece_len, file_offset as int) / 16384) as u64;
        ((block >> (base as u64)) as u32, base)
    } else {
        (p, 0)
    }
}

/// The index and base layer of the hash request for v2 piece `piece_index`.
pub fn hash_request(piece_index: u32, piece_len: u64, file_offset: u64) -> (req: (u32, u32))
    requires
        piece_index * piece_len <= u64::MAX,
    ensures
        req == spec_hash_request(piece_index, piece_len, file_offset),
{
    if piece_len >= 16384 {
        let blocks_per_piece = piece_len / 16384;
        let base = blocks_per_piece.trailing_zeros();
        proof {
            vstd::std_specs::bits::axiom_u64_trailing_zeros(blocks_per_piece);
            assert(blocks_per_piece > 0);
        }
        let start = piece_index as u64 * piece_len;
        let offset = start.saturating_sub(file_offset);
        let block = offset / 16384;
        let index = block >> (base as u64);
        (#[verifier::truncate] (index as u32), base)
    } else {
        (piece_index, 0)
    }
}

/// What a piece whose proof arrived is checked against: a 32-byte "proof" is
/// the piece hash itself, so the piece-layer hash we hold (or, failing that,
/// those 32 bytes) is the target and no proof is passed on; a longer proof is
/// checked against the file root.
pub fn merkle_target(proof: Vec<u8>, local_piece_hash: Option<Vec<u8>>, root_hash: Vec<u8>) -> (res:
    (Vec<u8>, Vec<u8>))
    ensures
        proof@.len() == 32 ==> res.1@ == Seq::<u8>::empty() && res.0@ == match local_piece_hash {
            Some(h) => h@,
            None => proof@,
        },
        proof@.len() != 32 ==> res.0@ == root_hash@ && res.1@ == proof@,
{
    if proof.len() == 32 {
        let target = match local_piece_hash {
            Some(h) => h,
            None => proof,
        };
        (target, Vec::new())
    } else {
        (root_hash, proof)
    }
}

/// The file root that answers a peer's request for piece hashes: the first
/// root of the piece that matches the requested root (any root when none was
/// named) and for which the hash layer is at hand.
pub open spec fn is_hash_answer(
    roots: Seq<Vec<u8>>,
    requested: Seq<u8>,
    layer_found: Seq<bool>,
    k: int,
) -> bool {
    0 <= k < roots.len() && (requested.len() == 0 || roots[k]@ == requested) && layer_found[k]
}

/// Which root (by position) answers a request for piece hashes, or `None` to
/// reject it.
pub fn pick_hash_root(roots: &[Vec<u8>], requested: &[u8], layer_found: &[bool]) -> (pick: Option<usize>)
    requires
        layer_found@.len() == roots@.len(),
    ensures
        match pick {
            Some(k) => is_hash_answer(roots@, requested@, layer_found@, k as int) && forall|j: int|
                0 <= j < k ==> !is_hash_answer(roots@, requested@, layer_found@, j),
            None => forall|j: int|
                0 <= j < roots@.len() ==> !is_hash_answer(roots@, requested@, layer_found@, j),
        },
{
    let mut i: usize = 0;
    while i < roots.len()
        invariant
            layer_found@.len() == roots@.len(),
            0 <= i <= roots@.len(),
            forall|j: int| 0 <= j < i ==> !is_hash_answer(roots@, requested@, layer_found@, j),
        decreases roots@.len() - i,
    {
        let root_ok = requested.len() == 0 || crate::metainfo::hash_matches(roots[i].as_slice(), requested);
        if root_ok && layer_found[i] {
            return Some(i);
        }
        i = i + 1;
    }
    None
}

} // verus!
