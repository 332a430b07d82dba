use std::collections::{HashMap, HashSet};

use superseedr::assign::{
    available_slots, choose_pieces_to_start, request_blocks_for_piece, should_be_interested,
};
use superseedr::block_manager::BlockManager;
use superseedr::geometry::{
    calculate_v2_verify_params, geometry_length, get_piece_size, hash_request, matching_root,
    merkle_target, total_of, v2_piece_limit, v2_tail_overrides, verify_route, FileRoot,
    VerifyRoute,
};

fn root(file_offset: u64, length: u64) -> FileRoot {
    FileRoot {
        file_offset,
        length,
    }
}

#[test]
fn piece_sizes_clamp_to_file_or_stream() {
    let r = root(16_384, 20_000);
    assert_eq!(get_piece_size(1, 16_384, Some(r), 0), 16_384);
    assert_eq!(get_piece_size(2, 16_384, Some(r), 0), 3_616);
    assert_eq!(get_piece_size(6, 16_384, None, 100_000), 1_696);
    assert_eq!(get_piece_size(9, 16_384, None, 100_000), 0);
}

#[test]
fn v2_verify_params_are_relative_to_the_file() {
    let r = root(1_024, 2_048);
    assert_eq!(calculate_v2_verify_params(1, 1_024, Some(r), 1_024), (1_024, 0, 1_024));
    assert_eq!(calculate_v2_verify_params(2, 1_024, Some(r), 1_024), (1_024, 1, 1_024));
    assert_eq!(calculate_v2_verify_params(3, 1_024, Some(r), 1_024), (0, 2, 1_024));
    let small = root(0, 500);
    assert_eq!(calculate_v2_verify_params(0, 1_024, Some(small), 1_024), (500, 0, 500));
    assert_eq!(calculate_v2_verify_params(4, 1_024, None, 77), (77, 0, 77));
}

#[test]
fn tail_pieces_get_their_own_length() {
    let overrides = v2_tail_overrides(&[20_000, 16_384, 0, 5], 16_384);
    let mut expected = HashMap::new();
    expected.insert(1, 3_616);
    expected.insert(3, 5);
    assert_eq!(overrides, expected);
    assert!(v2_tail_overrides(&[10], 0).is_empty());
}

#[test]
fn geometry_length_by_meta_version() {
    assert_eq!(geometry_length(Some(2), 0, 5, 16_384, &[], 0), 81_920);
    assert_eq!(geometry_length(Some(2), 60, 5, 16_384, &[], 0), 49_152);
    assert_eq!(geometry_length(None, 0, 0, 16_384, &[10, 20], 0), 30);
    assert_eq!(geometry_length(Some(1), 0, 0, 16_384, &[], 77), 77);
    assert_eq!(total_of(&[1, 2, 3]), 6);
}

#[test]
fn the_matching_root_starts_last_before_the_offset() {
    let roots = [root(0, 100), root(100, 50), root(100, 60)];
    assert_eq!(matching_root(&roots, 120), Some(2));
    assert_eq!(matching_root(&roots, 50), Some(0));
    assert_eq!(matching_root(&[root(10, 5)], 5), None);
}

#[test]
fn assembled_pieces_are_routed_to_a_verifier() {
    assert_eq!(verify_route(false, false, false, false, false), VerifyRoute::V1);
    assert_eq!(verify_route(true, false, true, true, false), VerifyRoute::V1);
    assert_eq!(verify_route(true, true, true, true, true), VerifyRoute::V2WithLocalHash);
    assert_eq!(verify_route(true, true, false, true, true), VerifyRoute::V2WithProof);
    assert_eq!(verify_route(true, true, false, false, true), VerifyRoute::V1);
    assert_eq!(verify_route(true, true, false, false, false), VerifyRoute::AwaitHashes);
}

#[test]
fn hash_requests_address_the_piece_layer() {
    assert_eq!(hash_request(3, 32_768, 32_768), (2, 1));
    assert_eq!(hash_request(0, 16_384, 0), (0, 0));
    assert_eq!(hash_request(3, 1_024, 0), (3, 0));
}

#[test]
fn short_proofs_are_piece_hashes() {
    let proof = vec![7u8; 32];
    assert_eq!(
        merkle_target(proof.clone(), Some(vec![1u8; 32]), vec![9u8; 32]),
        (vec![1u8; 32], vec![])
    );
    assert_eq!(
        merkle_target(proof.clone(), None, vec![9u8; 32]),
        (proof, vec![])
    );
    let long = vec![3u8; 64];
    assert_eq!(
        merkle_target(long.clone(), Some(vec![1u8; 32]), vec![9u8; 32]),
        (vec![9u8; 32], long)
    );
}

fn manager(piece_len: u32, total: u64) -> BlockManager {
    let mut bm = BlockManager::new();
    bm.set_geometry(piece_len, total, vec![], vec![], HashMap::new(), false);
    bm
}

#[test]
fn block_requests_skip_held_and_active_blocks() {
    let mut bm = manager(32_768, 98_304);
    let roots = HashMap::new();

    let (mut active, mut batch, mut slots) = (Vec::new(), Vec::new(), 10usize);
    request_blocks_for_piece(&bm, &roots, 32_768, 1, &mut active, &mut batch, &mut slots);
    assert_eq!(batch, vec![(1, 0, 16_384), (1, 16_384, 16_384)]);
    assert_eq!(active, batch);
    assert_eq!(slots, 8);

    // Asking again finds both already active.
    request_blocks_for_piece(&bm, &roots, 32_768, 1, &mut active, &mut batch, &mut slots);
    assert_eq!(batch.len(), 2);
    assert_eq!(slots, 8);

    // A held block is skipped; a single slot takes just one block.
    bm.block_bitfield[4] = true;
    let (mut active, mut batch, mut slots) = (Vec::new(), Vec::new(), 1usize);
    request_blocks_for_piece(&bm, &roots, 32_768, 2, &mut active, &mut batch, &mut slots);
    assert_eq!(batch, vec![(2, 16_384, 16_384)]);
    assert_eq!(slots, 0);
}

#[test]
fn test_v2_tail_block_request_clamping() {
    // A 20000-byte file in 16384-byte pieces: its tail piece asks for 3616 bytes.
    let bm = manager(16_384, 32_768);
    let mut roots = HashMap::new();
    roots.insert(1, root(0, 20_000));
    assert_eq!(v2_piece_limit(&roots, 16_384, 1), Some(3_616));
    let (mut active, mut batch, mut slots) = (Vec::new(), Vec::new(), 100usize);
    request_blocks_for_piece(&bm, &roots, 16_384, 1, &mut active, &mut batch, &mut slots);
    assert_eq!(batch, vec![(1, 0, 3_616)]);
}

#[test]
fn interest_follows_what_the_peer_has() {
    let bits = vec![false, true, false];
    assert!(should_be_interested(&bits, &[0, 1], &[], false));
    assert!(!should_be_interested(&bits, &[0, 2], &[], false));
    assert!(should_be_interested(&bits, &[0], &[1], false));
    assert!(should_be_interested(&[], &[0], &[], true));
    assert!(!should_be_interested(&[], &[0], &[0], false));
    assert_eq!(available_slots(0), 512);
    assert_eq!(available_slots(600), 0);
}

#[test]
fn scarcest_pieces_start_first() {
    let bits = vec![true; 10];
    let mut bits_missing_9 = bits.clone();
    bits_missing_9[9] = false;
    let mut verifying = HashSet::new();
    verifying.insert(1u32);
    let pending: Vec<u32> = Vec::new();
    let candidates = [5u32, 3, 9, 1, 7];
    let availability = [2usize, 1, 1, 0, 1];
    assert_eq!(
        choose_pieces_to_start(&candidates, &availability, &bits_missing_9, &verifying, &pending, 10),
        vec![3, 7, 5]
    );
    assert_eq!(
        choose_pieces_to_start(&candidates, &availability, &bits_missing_9, &verifying, &pending, 1),
        vec![3]
    );
    let pending = vec![3u32];
    assert_eq!(
        choose_pieces_to_start(&candidates, &availability, &bits, &verifying, &pending, 10),
        vec![9, 7, 5]
    );
}

fn piece_one_requests(bm: &BlockManager) -> Vec<(u32, u32, u32)> {
    let roots = HashMap::new();
    let (mut active, mut batch, mut slots) = (Vec::new(), Vec::new(), 512usize);
    request_blocks_for_piece(bm, &roots, bm.piece_length as u64, 1, &mut active, &mut batch, &mut slots);
    batch
}

#[test]
fn test_assign_work_non_aligned_boundary_piece_identity() {
    let bm = manager(20_000, 40_000);
    let requests = piece_one_requests(&bm);
    assert!(!requests.is_empty(), "Expected at least one boundary request");
    assert!(
        requests.iter().all(|(idx, _, _)| *idx == 1),
        "All requests must target piece 1, got {:?}",
        requests
    );
}

#[test]
fn test_assign_work_non_aligned_boundary_offsets_for_piece() {
    let bm = manager(20_000, 40_000);
    let mut piece_1_offsets: Vec<(u32, u32)> = piece_one_requests(&bm)
        .iter()
        .filter(|(idx, _, _)| *idx == 1)
        .map(|(_, begin, len)| (*begin, *len))
        .collect();
    piece_1_offsets.sort_unstable();
    assert_eq!(
        piece_1_offsets,
        vec![(0, 16_384), (16_384, 3_616)],
        "Piece-1 requests must follow piece-local geometry exactly"
    );
}

#[test]
fn test_restart_resume_non_aligned_requests_only_missing_blocks() {
    let mut bm = manager(20_000, 40_000);
    // One piece-1 block arrives and is buffered.
    let addr = bm.inflate_address_from_overlay(1, 0, 16_384).unwrap();
    assert_eq!(bm.handle_v1_block_buffering(addr, &vec![0u8; 16_384]), None);
    assert_eq!(
        piece_one_requests(&bm),
        vec![(1, 16_384, 3_616)],
        "Resume must request only the remaining piece-1 boundary block"
    );
}

#[test]
fn test_assign_work_non_aligned_no_zero_or_oversize_block_requests() {
    let bm = manager(20_000, 40_000);
    let requests = piece_one_requests(&bm);
    assert!(!requests.is_empty(), "Expected request batch");
    for (piece_index, begin, len) in requests {
        assert!(len > 0, "Zero-length request is invalid");
        assert_eq!(piece_index, 1, "Boundary request must remain in target piece namespace");
        assert!(
            begin + len <= 20_000,
            "Request exceeds piece boundary: begin={} len={}",
            begin,
            len
        );
    }
}

#[test]
fn test_assign_work_tiny_piece_keeps_target_piece_identity() {
    let bm = manager(1_024, 2_048);
    assert_eq!(
        piece_one_requests(&bm),
        vec![(1, 0, 1_024)],
        "Tiny-piece request should stay in piece-local namespace"
    );
}

#[test]
fn committed_neighbour_does_not_hide_a_boundary_block() {
    let mut bm = manager(20_000, 40_000);
    bm.commit_v1_piece(0);
    // Piece 0 is held; piece 1 still needs both its blocks.
    assert_eq!(piece_one_requests(&bm), vec![(1, 0, 16_384), (1, 16_384, 3_616)]);
    let roots = HashMap::new();
    let (mut active, mut batch, mut slots) = (Vec::new(), Vec::new(), 512usize);
    request_blocks_for_piece(&bm, &roots, 20_000, 0, &mut active, &mut batch, &mut slots);
    assert!(batch.is_empty());
}

#[test]
fn test_assign_work_is_sequential() {
    let bm = manager(16_384 * 10, 16_384 * 10);
    let roots = HashMap::new();
    let (mut active, mut batch, mut slots) = (Vec::new(), Vec::new(), 512usize);
    request_blocks_for_piece(&bm, &roots, 163_840, 0, &mut active, &mut batch, &mut slots);
    let mut expected_offset = 0;
    for (index, begin, length) in &batch {
        assert_eq!(*index, 0, "Should work on Piece 0");
        assert_eq!(*length, 16384, "Block length mismatch");
        assert_eq!(*begin, expected_offset, "Non-sequential request detected!");
        expected_offset += 16384;
    }
    assert_eq!(batch.len(), 10, "Expected 10 requests to fill the piece");
}

#[test]
fn test_assign_work_multi_piece_saturation() {
    let piece_len = 16_384 * 4;
    let num_pieces = 15u32;
    let bm = manager(piece_len, (piece_len * num_pieces) as u64);
    let roots = HashMap::new();
    let (mut active, mut batch, mut slots) = (Vec::new(), Vec::new(), available_slots(0));
    for p in 0..num_pieces {
        request_blocks_for_piece(&bm, &roots, piece_len as u64, p, &mut active, &mut batch, &mut slots);
    }
    assert_eq!(
        batch.len(),
        60,
        "Should request all available blocks (60) as it's less than pipeline depth"
    );
    for piece_idx in 0..num_pieces {
        let offsets: Vec<u32> = batch
            .iter()
            .filter(|(i, _, _)| *i == piece_idx)
            .map(|(_, off, _)| *off)
            .collect();
        let mut sorted = offsets.clone();
        sorted.sort();
        assert_eq!(offsets, sorted, "Non-sequential blocks detected for Piece {}", piece_idx);
    }
    let p0 = batch.iter().position(|(i, _, _)| *i == 0).unwrap();
    let p2 = batch.iter().position(|(i, _, _)| *i == 2).unwrap();
    assert!(p0 < p2, "Random Order Detected! Pending requests must be sorted.");
}

#[test]
fn test_hybrid_v1_v2_interop() {
    // A v2 piece in a hybrid torrent, without a local hash or a proof, falls
    // back to its v1 hash instead of waiting for hashes.
    let route = verify_route(true, true, false, false, true);
    assert_eq!(
        route,
        VerifyRoute::V1,
        "Should have fallen back to V1 verification (Effect::VerifyPiece)"
    );
}

#[test]
fn test_v2_hybrid_boundary_routing() {
    // A 32768-byte piece spanning two 16384-byte files: the block at 16384
    // belongs to the second file, the one at 0 to the first.
    let roots = [root(0, 16_384), root(16_384, 16_384)];
    assert_eq!(
        matching_root(&roots, 16_384),
        Some(1),
        "Completion at offset 16384 should verify against Root B"
    );
    assert_eq!(
        matching_root(&roots, 0),
        Some(0),
        "Completion at offset 0 should verify against Root A"
    );
}

use superseedr::assign::wants_more_work;
use superseedr::geometry::pick_hash_root;

#[test]
fn hash_requests_use_the_first_available_root() {
    // A request naming no root is answered by the first root whose layer is at hand.
    let roots = vec![vec![0xAA; 32], vec![0xBB; 32]];
    assert_eq!(pick_hash_root(&roots, &[], &[false, true]), Some(1));
    assert_eq!(pick_hash_root(&roots, &[], &[true, true]), Some(0));
}

#[test]
fn hash_requests_without_a_layer_are_rejected() {
    // No layer at hand (out of range), or a root that does not match: rejected.
    let roots = vec![vec![0xAA; 32]];
    assert_eq!(pick_hash_root(&roots, &[], &[false]), None);
    assert_eq!(pick_hash_root(&roots, &[0xBB; 32], &[true]), None);
    assert_eq!(pick_hash_root(&roots, &[0xAA; 32], &[true]), Some(0));
}

#[test]
fn pipeline_refills_at_half_depth() {
    assert!(wants_more_work(256));
    assert!(!wants_more_work(257));
}
