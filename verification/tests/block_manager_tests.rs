use std::collections::HashMap;
use superseedr::block_manager::{BlockDecision, BlockManager, BLOCK_SIZE};

const BLK_SIZE: u32 = BLOCK_SIZE; // 16384

// Helper to create a basic BlockManager
fn setup_manager(piece_len: u32, total_len: u64) -> BlockManager {
    let piece_count = (total_len as f64 / piece_len as f64).ceil() as usize;
    let v1_hashes = vec![[0; 20]; piece_count];
    let mut manager = BlockManager::new();
    manager.set_geometry(
        piece_len,
        total_len,
        v1_hashes,
        vec![],
        HashMap::new(),
        false,
    );
    manager
}

fn create_manager(piece_len: u32, total_len: u64) -> BlockManager {
    let mut bm = BlockManager::new();
    bm.set_geometry(piece_len, total_len, vec![], vec![], HashMap::new(), false);
    bm
}


#[test]
fn test_geometry_and_total_blocks() {
    // Case 1: Perfect alignment
    let piece_len = 2 * BLK_SIZE; // 32768
    let total_len = piece_len as u64 * 3; // 3 pieces total
    let manager = setup_manager(piece_len, total_len);

    // Piece 0: 2 blocks (0-1), Piece 1: 2 blocks (2-3), Piece 2: 2 blocks (4-5)
    // Total blocks: 6
    assert_eq!(manager.piece_length, piece_len);
    assert_eq!(manager.total_length, total_len);
    assert_eq!(manager.total_pieces(), 3);
    assert_eq!(manager.total_blocks, 6); // 3 * (32768 / 16384)

    // Case 2: Uneven total length
    let total_len = 100_000u64; // Requires 7 blocks (6 * 16384 + 1)
    let manager = setup_manager(piece_len, total_len);
    assert_eq!(manager.total_blocks, 7);
}

#[test]
fn test_calculate_piece_size_full_and_last() {
    let piece_len = 4 * BLK_SIZE; // 65536
    let total_len = (piece_len as u64 * 2) + (BLK_SIZE as u64 / 2); // Two full pieces + small remainder
    let manager = setup_manager(piece_len, total_len);

    // Piece 0 (full)
    assert_eq!(manager.calculate_piece_size(0), piece_len);

    // Piece 1 (full)
    assert_eq!(manager.calculate_piece_size(1), piece_len);

    // Piece 2 (partial) - Expected size BLK_SIZE/2 (8192)
    assert_eq!(manager.calculate_piece_size(2), BLK_SIZE / 2);

    // Piece 3 (non-existent)
    assert_eq!(manager.calculate_piece_size(3), 0);
}

#[test]
fn test_block_range_calculation() {
    let piece_len = 3 * BLK_SIZE; // 49152 (3 blocks)
    let total_len = piece_len as u64 * 2 + (BLK_SIZE as u64 / 2); // 2 full pieces + partial last
    let manager = setup_manager(piece_len, total_len);

    // Piece 0: 3 blocks (0, 1, 2)
    assert_eq!(manager.get_block_range(0), (0, 3));

    // Piece 1: 3 blocks (3, 4, 5)
    assert_eq!(manager.get_block_range(1), (3, 6));

    // Piece 2 (partial): 1 block (6)
    assert_eq!(manager.get_block_range(2), (6, 7));

    // Non-existent piece: 0 blocks
    assert_eq!(manager.get_block_range(3), (7, 7));
}

#[test]
fn test_inflate_and_flatten_address() {
    let piece_len = 4 * BLK_SIZE; // 65536
    let total_len = piece_len as u64 * 2;
    let manager = setup_manager(piece_len, total_len);

    let global_idx_0 = 0;
    let addr_0 = manager.inflate_address(global_idx_0);
    assert_eq!(addr_0.piece_index, 0);
    assert_eq!(addr_0.byte_offset, 0);
    assert_eq!(addr_0.global_offset, 0);
    assert_eq!(addr_0.length, BLK_SIZE);
    assert_eq!(manager.flatten_address(addr_0), global_idx_0);

    let global_idx_3 = 3;
    let addr_3 = manager.inflate_address(global_idx_3);
    assert_eq!(addr_3.piece_index, 0);
    assert_eq!(addr_3.byte_offset, 3 * BLK_SIZE);
    assert_eq!(addr_3.global_offset, 3 * BLK_SIZE as u64);
    assert_eq!(addr_3.length, BLK_SIZE);
    assert_eq!(manager.flatten_address(addr_3), global_idx_3);

    let global_idx_4 = 4;
    let addr_4 = manager.inflate_address(global_idx_4);
    assert_eq!(addr_4.piece_index, 1);
    assert_eq!(addr_4.byte_offset, 0);
    assert_eq!(addr_4.global_offset, 4 * BLK_SIZE as u64);
    assert_eq!(addr_4.length, BLK_SIZE);
    assert_eq!(manager.flatten_address(addr_4), global_idx_4);
}

#[test]
fn test_inflate_address_final_partial_block() {
    let piece_len = 4 * BLK_SIZE; // 65536
                                  // Total length is 1 full piece + 1/2 of a block for piece 1
    let total_len = piece_len as u64 + (BLK_SIZE as u64 / 2);
    let manager = setup_manager(piece_len, total_len);

    // Piece 0 blocks (0, 1, 2, 3)
    // Piece 1 blocks (4) -> only 8192 bytes
    let global_idx_4 = 4;
    let addr_4 = manager.inflate_address(global_idx_4);

    assert_eq!(manager.total_blocks, 5); // 4 full blocks + 1 partial block
    assert_eq!(addr_4.piece_index, 1);
    assert_eq!(addr_4.byte_offset, 0);
    assert_eq!(addr_4.global_offset, 4 * BLK_SIZE as u64);
    assert_eq!(addr_4.length, BLK_SIZE / 2); // Half block (8192)
    assert_eq!(manager.flatten_address(addr_4), global_idx_4);
}

#[test]
fn test_inflate_address_from_overlay_security_guard() {
    let piece_len = 2 * BLK_SIZE; // 32768
    let total_len = piece_len as u64;
    let manager = setup_manager(piece_len, total_len);

    // VALID: Block 0 of Piece 0, full size
    let valid_addr = manager.inflate_address_from_overlay(0, 0, BLK_SIZE);
    assert!(valid_addr.is_some());

    // VALID: Last block of Piece 0, starting at BLK_SIZE, size BLK_SIZE
    let valid_addr_2 = manager.inflate_address_from_overlay(0, BLK_SIZE, BLK_SIZE);
    assert!(valid_addr_2.is_some());

    // INVALID: Starts at the last byte of the piece, but asks for BLK_SIZE
    let invalid_addr_1 = manager.inflate_address_from_overlay(0, piece_len - 1, BLK_SIZE);
    assert!(invalid_addr_1.is_none());

    // INVALID: Starts at BLK_SIZE, asks for BLK_SIZE + 1 (Oversize)
    let invalid_addr_2 = manager.inflate_address_from_overlay(0, BLK_SIZE, BLK_SIZE + 1);
    assert!(invalid_addr_2.is_none());

    // INVALID: Starts one byte past the piece length
    let invalid_addr_3 = manager.inflate_address_from_overlay(0, piece_len, BLK_SIZE);
    assert!(invalid_addr_3.is_none());
}

#[test]
fn test_non_aligned_adjacent_piece_completion_independence() {
    // This captures the boundary-aliasing risk when piece length is not block-aligned.
    let piece_len = 20_000;
    let total_len = 40_000;
    let mut manager = setup_manager(piece_len, total_len);

    // Mark piece 0 complete first (sets global blocks 0 and 1).
    manager.commit_v1_piece(0);
    assert!(
        !manager.is_piece_complete(1),
        "Piece 1 must not be complete after only piece 0 has been committed"
    );

    // Simulate receiving the second global block for piece 1's range.
    let addr = manager.inflate_address(2);
    let _ = manager.commit_verified_block(addr);

    // Expected behavior: still incomplete, because the initial bytes of piece 1 were never received
    // in piece-1-local space.
    assert!(
        !manager.is_piece_complete(1),
        "Piece 1 should not be marked complete via shared global boundary blocks alone"
    );
}

#[test]
fn test_decision_routing_v1_only() {
    let mut bm = BlockManager::new();
    // V1 Setup: No V2 file info provided
    bm.set_geometry(16384, 16384 * 10, vec![], vec![], HashMap::new(), false);

    let addr = bm.inflate_address(0); // Block 0
    let decision = bm.handle_incoming_block_decision(addr);

    // MUST return BufferV1
    assert_eq!(decision, BlockDecision::BufferV1);
}

#[test]
fn test_decision_routing_v2_simple() {
    let mut bm = BlockManager::new();
    let root_a = [0xAA; 32];
    let root_b = [0xBB; 32];

    // V2 Setup: 2 Files.
    // File A: 32KB (2 blocks)
    // File B: 16KB (1 block)
    let v2_info = vec![(32768, root_a), (16384, root_b)];

    // Total len = 48KB
    bm.set_geometry(16384, 49152, vec![], v2_info, HashMap::new(), false);

    let addr_a1 = bm.inflate_address(0); // Block 0
    let dec_a1 = bm.handle_incoming_block_decision(addr_a1);

    match dec_a1 {
        BlockDecision::VerifyV2 {
            file_index,
            root_hash,
            block_index_in_file,
        } => {
            assert_eq!(file_index, 0); // File A
            assert_eq!(root_hash, root_a);
            assert_eq!(block_index_in_file, 0);
        }
        _ => panic!("Expected VerifyV2 for File A"),
    }

    let addr_b = bm.inflate_address(2); // Block 2
    let dec_b = bm.handle_incoming_block_decision(addr_b);

    match dec_b {
        BlockDecision::VerifyV2 {
            file_index,
            root_hash,
            block_index_in_file,
        } => {
            assert_eq!(file_index, 1); // File B
            assert_eq!(root_hash, root_b);
            assert_eq!(block_index_in_file, 0); // First block relative to File B
        }
        _ => panic!("Expected VerifyV2 for File B"),
    }
}

#[test]
fn test_decision_routing_boundary_check() {
    let mut bm = BlockManager::new();
    let root = [0xCC; 32];
    // File starts at 0, ends at 16385 (1 block + 1 byte)
    let v2_info = vec![(16385, root)];

    bm.set_geometry(16384, 16385, vec![], v2_info, HashMap::new(), false);

    let addr_0 = bm.inflate_address(0);
    let dec_0 = bm.handle_incoming_block_decision(addr_0);
    assert!(matches!(
        dec_0,
        BlockDecision::VerifyV2 {
            block_index_in_file: 0,
            ..
        }
    ));

    // Global offset 16384 is inside the file range [0, 16385)
    let addr_1 = bm.inflate_address(1);
    let dec_1 = bm.handle_incoming_block_decision(addr_1);

    match dec_1 {
        BlockDecision::VerifyV2 {
            file_index,
            block_index_in_file,
            ..
        } => {
            assert_eq!(file_index, 0);
            assert_eq!(block_index_in_file, 1);
        }
        _ => panic!("Expected VerifyV2 for partial block at end of file"),
    }
}

#[test]
fn test_endgame_duplicate_completion_suppression() {
    let mut bm = BlockManager::new();
    let piece_len = 32768;
    let total_len = 32768;
    // v1_hashes and v2_file_info can be empty for this logic test
    bm.set_geometry(piece_len, total_len, vec![], vec![], HashMap::new(), false);

    let block_size = 16384;
    let data_block_0 = vec![1u8; block_size];
    let data_block_1 = vec![2u8; block_size];

    // Create addresses for Block 0 and Block 1
    let addr_0 = bm
        .inflate_address_from_overlay(0, 0, block_size as u32)
        .unwrap();
    let addr_1 = bm
        .inflate_address_from_overlay(0, block_size as u32, block_size as u32)
        .unwrap();

    let res1 = bm.handle_v1_block_buffering(addr_0, &data_block_0);
    assert!(res1.is_none(), "First block should not trigger completion");

    let res2 = bm.handle_v1_block_buffering(addr_1, &data_block_1);
    assert!(
        res2.is_some(),
        "Second block SHOULD trigger completion and return data"
    );

    // In the old code, this would return Some(data) again, triggering a verification storm.
    let res3 = bm.handle_v1_block_buffering(addr_1, &data_block_1);

    assert!(
        res3.is_none(),
        "Duplicate block received after completion MUST return None to prevent double-verification"
    );
}

#[test]
fn test_geometry_exact_alignment() {
    // Case: Total length is exactly 2 pieces, each exactly 2 blocks long.
    let piece_len = 32768; // 2 * 16384
    let total_len = 65536; // 2 * 32768
    let bm = create_manager(piece_len, total_len);

    assert_eq!(bm.total_blocks, 4);
    assert_eq!(bm.block_bitfield.len(), 4);

    // Check ranges
    assert_eq!(bm.get_block_range(0), (0, 2));
    assert_eq!(bm.get_block_range(1), (2, 4));
    // Out of bounds piece should return (total, total)
    assert_eq!(bm.get_block_range(2), (4, 4));
}

#[test]
fn test_geometry_tiny_remainder() {
    // Case: 1 full piece + 1 byte remainder
    let piece_len = 16384;
    let total_len = 16385;
    let bm = create_manager(piece_len, total_len);

    assert_eq!(bm.total_blocks, 2);

    // Piece 0: 1 full block
    let (s0, e0) = bm.get_block_range(0);
    assert_eq!((s0, e0), (0, 1));

    // Piece 1: 1 block (partial)
    let (s1, e1) = bm.get_block_range(1);
    assert_eq!((s1, e1), (1, 2));

    // Check inflation of that last byte
    let addr = bm.inflate_address(1);
    assert_eq!(addr.length, 1);
    assert_eq!(addr.piece_index, 1);
}

#[test]
fn test_geometry_partial_blocks_mid_stream() {
    // Case: Piece length is NOT a multiple of Block Size (rare but legal in V1)
    // Piece Len = 20000 (1 full block 16384 + partial 3616)
    // Total Len = 40000 (2 pieces)
    let piece_len = 20000;
    let total_len = 40000;
    let bm = create_manager(piece_len, total_len);

    // Piece 0: Blocks 0 and 1.
    // Block 0 is full (0-16384). Block 1 is partial (16384-20000).
    // BUT: BlockManager aligns strictly to 16k grid globally.
    // Let's verify how get_block_range handles this.

    // Piece 0 spans bytes 0..20000.
    // Block 0: 0..16384
    // Block 1: 16384..32768 (Piece 0 ends at 20000, so it uses part of Block 1)

    let (s0, e0) = bm.get_block_range(0);
    // Start block 0, End block 2 (covers indices 0, 1)
    assert_eq!((s0, e0), (0, 2));

    // Piece 1 spans bytes 20000..40000.
    // Starts in Block 1 (offset 3616 inside block).
    // Ends in Block 2 (32768..49152).

    let (s1, e1) = bm.get_block_range(1);
    // Should include Block 1 and Block 2.
    assert_eq!((s1, e1), (1, 3));
}

#[test]
fn test_inflate_address_overflow_protection() {
    let piece_len = 32768;
    let total_len = 65536;
    let bm = create_manager(piece_len, total_len);

    // Offset 32760, length 10 (Sums to 32770 > 32768)
    let res = bm.inflate_address_from_overlay(0, 32760, 10);
    assert!(
        res.is_none(),
        "Should reject block extending past piece boundary"
    );

    let res = bm.inflate_address_from_overlay(0, 0, u32::MAX);
    assert!(res.is_none(), "Should reject length > piece size");

    let res = bm.inflate_address_from_overlay(0, 32767, 1);
    assert!(res.is_some(), "Should accept last byte of piece");
}

#[test]
fn test_duplicate_block_handling() {
    let piece_len = 16384;
    let total_len = 16384;
    let mut bm = create_manager(piece_len, total_len);

    let data = vec![1u8; 16384];
    let addr = bm.inflate_address_from_overlay(0, 0, 16384).unwrap();

    let res1 = bm.handle_v1_block_buffering(addr, &data);
    assert!(res1.is_some()); // Completes the piece immediately
    bm.commit_v1_piece(0); // Mark globally done

    // inflate_address might succeed, but processing should handle logic

    // We simulate logic in PieceManager: check bitfield first
    if bm.block_bitfield[0] {
        // Logic handles it
    }

    // Test low-level buffering refusal if mask is set
    // Reset buffer state manually to simulate a race where assembler exists
    // but piece is already done globally.
    let addr_dup = bm.inflate_address_from_overlay(0, 0, 16384).unwrap();

    // If we try to handle it again:
    // handle_v1_block_buffering creates a new assembler if one doesn't exist.
    // It returns data. This is "correct" for V1 (idempotent),
    // but verify it doesn't crash or corrupt state.
    let res2 = bm.handle_v1_block_buffering(addr_dup, &data);
    assert!(res2.is_some());
}

#[test]
fn test_revert_piece_clears_bits() {
    let mut bm = BlockManager::new();
    let piece_len = 32768; // 2 blocks
    let total_len = 32768;
    bm.set_geometry(piece_len, total_len, vec![], vec![], HashMap::new(), false);

    bm.commit_v1_piece(0);
    assert!(bm.block_bitfield[0]);
    assert!(bm.block_bitfield[1]);
    assert!(bm.legacy_buffers.is_empty());

    bm.revert_v1_piece_completion(0);
    assert!(!bm.block_bitfield[0], "Block 0 bit not cleared");
    assert!(!bm.block_bitfield[1], "Block 1 bit not cleared");

    let data = vec![0u8; 16384];
    let addr = bm.inflate_address_from_overlay(0, 0, 16384).unwrap();
    let res = bm.handle_v1_block_buffering(addr, &data);
    assert!(res.is_none()); // Buffered 1/2 blocks

    let assembler = bm.legacy_buffers.get(&0).unwrap();
    assert_eq!(assembler.received_blocks, 1);
}

#[test]
fn test_pick_blocks_standard_vs_endgame() {
    let mut bm = BlockManager::new();
    // 1 piece, 4 blocks
    let piece_len = 16384 * 4;
    bm.set_geometry(
        piece_len,
        piece_len as u64,
        vec![],
        vec![],
        HashMap::new(),
        false,
    );

    let peer_bitfield = vec![true]; // Peer has Piece 0
    let rarest = vec![0];

    bm.mark_pending(0);

    // Standard Mode: Should skip Block 0, pick Block 1
    let picks_std = bm.pick_blocks_for_peer(&peer_bitfield, 1, &rarest, false);
    assert_eq!(picks_std.len(), 1);
    assert_eq!(picks_std[0].block_index, 1); // Skips 0

    // Endgame Mode: Should duplicate Block 0 if needed, or pick others.
    // Our logic: pick unacquired blocks. If unacquired is pending,
    // skip in standard, take in endgame.

    let picks_endgame = bm.pick_blocks_for_peer(&peer_bitfield, 5, &rarest, true);

    // Should define behavior:
    // Current impl iterates: 0 (Pending), 1 (Pending-ish/Available), 2, 3
    // If logic is correct, it returns all 4 blocks including pending ones.

    let has_block_0 = picks_endgame.iter().any(|b| b.block_index == 0);
    assert!(has_block_0, "Endgame should pick pending blocks");
}
