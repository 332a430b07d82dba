use std::collections::HashMap;

use superseedr::assign::should_be_interested;
use superseedr::lifecycle::{fit_bitfield, piece_count_from_metadata};
use superseedr::state::{
    calculate_piece_priorities, check_completion, expand_bitfield, generate_bitfield,
    optimistic_unchoke_due, rank_peers_for_unchoke, rebuild_need_queue, receive_peer_bitfield,
    recalculate_chokes, ChokePeer, ChokeStatus, CompletionCheck, EffectivePiecePriority,
    FilePriority, TorrentStatus, UPLOAD_SLOTS_DEFAULT,
};

fn peer(id: &str) -> ChokePeer {
    ChokePeer {
        ip_port: id.to_string(),
        am_choking: ChokeStatus::Choke,
        peer_is_interested_in_us: false,
        bytes_downloaded_from_peer: 0,
        bytes_uploaded_to_peer: 0,
    }
}

fn find<'a>(peers: &'a [ChokePeer], id: &str) -> &'a ChokePeer {
    peers.iter().find(|p| p.ip_port == id).unwrap()
}

#[test]
fn test_recalculate_chokes_unchokes_fastest_downloader_rule() {
    // Leeching: 5 interested peers compete for 4 slots, ranked by download.
    let mut peers = Vec::new();

    let mut slow_peer = peer("slow_peer");
    slow_peer.peer_is_interested_in_us = true;
    slow_peer.bytes_downloaded_from_peer = 10;
    slow_peer.am_choking = ChokeStatus::Unchoke;
    peers.push(slow_peer);

    let mut fast_peer = peer("fast_peer");
    fast_peer.peer_is_interested_in_us = true;
    fast_peer.bytes_downloaded_from_peer = 10_000;
    peers.push(fast_peer);

    for i in 1..=3 {
        let mut p = peer(&format!("med_peer_{}", i));
        p.peer_is_interested_in_us = true;
        p.bytes_downloaded_from_peer = 100;
        peers.push(p);
    }

    let mut timer = None;
    let changes = recalculate_chokes(&mut peers, false, &mut timer, 0, 0);

    assert_eq!(find(&peers, "fast_peer").am_choking, ChokeStatus::Unchoke);
    assert_eq!(find(&peers, "slow_peer").am_choking, ChokeStatus::Choke);

    let slow_index = peers.iter().position(|p| p.ip_port == "slow_peer").unwrap();
    let sent_choke = changes
        .iter()
        .any(|(i, s)| *i == slow_index && *s == ChokeStatus::Choke);
    assert!(sent_choke, "Should send Choke to slow peer");

    let unchoked_count = peers
        .iter()
        .filter(|p| p.am_choking == ChokeStatus::Unchoke)
        .count();
    assert_eq!(
        unchoked_count, UPLOAD_SLOTS_DEFAULT,
        "Total unchoked count should be exactly 4."
    );
}

#[test]
fn test_recalculate_chokes_unchokes_fastest_uploader_when_seeding() {
    // Seeding: 5 interested peers compete for 4 slots, ranked by upload.
    let mut peers = Vec::new();

    let mut slow_leecher = peer("slow_leecher");
    slow_leecher.peer_is_interested_in_us = true;
    slow_leecher.bytes_uploaded_to_peer = 1_000;
    slow_leecher.am_choking = ChokeStatus::Unchoke;
    peers.push(slow_leecher);

    let mut fast_leecher = peer("fast_leecher");
    fast_leecher.peer_is_interested_in_us = true;
    fast_leecher.bytes_uploaded_to_peer = 50_000;
    peers.push(fast_leecher);

    for i in 1..=3 {
        let mut p = peer(&format!("med_leecher_{}", i));
        p.peer_is_interested_in_us = true;
        p.bytes_uploaded_to_peer = 10_000;
        p.am_choking = ChokeStatus::Choke;
        peers.push(p);
    }

    let mut timer = None;
    let _ = recalculate_chokes(&mut peers, true, &mut timer, 0, 0);

    assert_eq!(find(&peers, "fast_leecher").am_choking, ChokeStatus::Unchoke);
    assert_eq!(find(&peers, "slow_leecher").am_choking, ChokeStatus::Choke);

    let unchoked_count = peers
        .iter()
        .filter(|p| p.am_choking == ChokeStatus::Unchoke)
        .count();
    assert_eq!(
        unchoked_count, UPLOAD_SLOTS_DEFAULT,
        "Total unchoked count should be exactly 4."
    );
}

#[test]
fn chokes_reset_round_counters_and_skip_uninterested() {
    let mut peers = vec![peer("a"), peer("b")];
    peers[0].peer_is_interested_in_us = true;
    peers[0].bytes_downloaded_from_peer = 7;
    peers[1].bytes_downloaded_from_peer = 9;
    peers[1].am_choking = ChokeStatus::Unchoke;

    let mut timer = None;
    let changes = recalculate_chokes(&mut peers, false, &mut timer, 0, 0);

    assert_eq!(changes, vec![(0, ChokeStatus::Unchoke), (1, ChokeStatus::Choke)]);
    assert!(peers.iter().all(|p| p.bytes_downloaded_from_peer == 0));
    assert_eq!(timer, None);
}

#[test]
fn optimistic_unchoke_picks_from_the_rest_and_restarts_timer() {
    let mut peers = Vec::new();
    for i in 0..6u64 {
        let mut p = peer(&format!("p{}", i));
        p.peer_is_interested_in_us = true;
        p.bytes_downloaded_from_peer = 100 - i;
        peers.push(p);
    }
    // Ranking is p0..p5; the rest after 4 slots is [p4, p5]; seed 1 picks p5.
    let mut timer = Some(1_000);
    let _ = recalculate_chokes(&mut peers, false, &mut timer, 40_000, 1);
    assert_eq!(timer, Some(40_000));
    assert_eq!(find(&peers, "p5").am_choking, ChokeStatus::Unchoke);
    assert_eq!(find(&peers, "p4").am_choking, ChokeStatus::Choke);
    let unchoked = peers
        .iter()
        .filter(|p| p.am_choking == ChokeStatus::Unchoke)
        .count();
    assert_eq!(unchoked, 5);
}

#[test]
fn optimistic_unchoke_waits_thirty_seconds() {
    assert!(!optimistic_unchoke_due(None, 100_000));
    assert!(!optimistic_unchoke_due(Some(10_000), 40_000));
    assert!(optimistic_unchoke_due(Some(10_000), 40_001));
    assert!(!optimistic_unchoke_due(Some(50_000), 40_000));
}

#[test]
fn ranking_breaks_ties_by_position() {
    let mut peers = vec![peer("a"), peer("b"), peer("c")];
    for p in peers.iter_mut() {
        p.peer_is_interested_in_us = true;
        p.bytes_uploaded_to_peer = 5;
    }
    peers[2].bytes_uploaded_to_peer = 6;
    assert_eq!(rank_peers_for_unchoke(&peers, true), vec![2, 0, 1]);
}

#[test]
fn test_file_priority_boundary_mapping() {
    // 3 pieces of 10 bytes; file A (15 bytes) skipped, file B (15 bytes) normal.
    let mut priorities = HashMap::new();
    priorities.insert(0, FilePriority::Skip);
    priorities.insert(1, FilePriority::Normal);

    let vec = calculate_piece_priorities(3, 10, &[15, 15], &priorities);

    assert_eq!(vec[0], EffectivePiecePriority::Skip);
    assert_eq!(vec[1], EffectivePiecePriority::Normal);
    assert_eq!(vec[2], EffectivePiecePriority::Normal);
}

#[test]
fn high_priority_wins_on_a_shared_piece() {
    let mut priorities = HashMap::new();
    priorities.insert(0, FilePriority::High);
    priorities.insert(1, FilePriority::Normal);
    let vec = calculate_piece_priorities(3, 10, &[15, 15], &priorities);
    assert_eq!(
        vec,
        vec![
            EffectivePiecePriority::High,
            EffectivePiecePriority::High,
            EffectivePiecePriority::Normal
        ]
    );
}

#[test]
fn test_completion_with_skipped_files() {
    // Piece 0 skipped, piece 1 done: finished, but not physically complete.
    let done = [false, true];
    let priorities = [EffectivePiecePriority::Skip, EffectivePiecePriority::Normal];
    let outcome = check_completion(&TorrentStatus::Standard, &done, &priorities);
    assert_eq!(
        outcome,
        CompletionCheck::Finished {
            physically_complete: false
        },
        "Should NOT send 'completed' event if files were skipped"
    );
}

#[test]
fn completion_is_not_checked_while_validating() {
    let done = [true, true];
    assert_eq!(
        check_completion(&TorrentStatus::Validating, &done, &[]),
        CompletionCheck::Incomplete
    );
    assert_eq!(
        check_completion(&TorrentStatus::Endgame, &done, &[]),
        CompletionCheck::Finished {
            physically_complete: true
        }
    );
    assert_eq!(
        check_completion(&TorrentStatus::Standard, &[], &[]),
        CompletionCheck::Incomplete
    );
}

#[test]
fn test_repro_validation_complete_ignores_skip_mixed() {
    // Two files of one piece each; file A skipped.
    let mut file_priorities = HashMap::new();
    file_priorities.insert(0, FilePriority::Skip);
    let priorities = calculate_piece_priorities(2, 10, &[10, 10], &file_priorities);

    let queue = rebuild_need_queue(&[false, false], &priorities);
    assert_eq!(queue, vec![1], "Setup failed: Queue should contain only piece 1");
    assert!(
        !queue.contains(&0),
        "REGRESSION: Skipped piece 0 was added back to queue! Queue: {:?}",
        queue
    );
    assert!(queue.contains(&1), "Piece 1 should still be needed");
}

#[test]
fn need_queue_lists_missing_pieces_in_order() {
    assert_eq!(rebuild_need_queue(&[true, false, false, true], &[]), vec![1, 2]);
}

#[test]
fn bitfield_round_trip() {
    let done = vec![true, false, true, true, false, false, false, true, true, false];
    let bytes = generate_bitfield(&done);
    assert_eq!(bytes, vec![0b1011_0001, 0b1000_0000]);
    assert_eq!(expand_bitfield(&bytes, done.len()), done);
}

#[test]
fn test_repro_magnet_bitfield_truncation() {
    // A bitfield arriving before the metadata (no piece count yet): 8 pieces, all held.
    let mut bits = receive_peer_bitfield(&[], &[0xFF], 0).unwrap();
    assert!(
        !bits.is_empty(),
        "BUG REPRODUCED: Peer bitfield was truncated/wiped because we had 0 pieces!"
    );

    // The metadata defines 8 pieces; the bitfield is fitted to them.
    let num_pieces = piece_count_from_metadata(8 * 20, 0);
    fit_bitfield(&mut bits, num_pieces);
    assert_eq!(bits.len(), 8, "Bitfield should be resized to correct piece count");
    assert!(
        bits.iter().all(|&b| b),
        "Peer data lost! Expected all TRUE, got {:?}",
        bits
    );

    // Validation found nothing: every piece is needed, and the seeder is interesting.
    let need = rebuild_need_queue(&[false; 8], &[]);
    assert!(
        should_be_interested(&bits, &need, &[], false),
        "We should be interested in the seeder (failed if bitfield was wiped)"
    );
}

#[test]
fn bitfields_are_cut_padded_and_refused_when_repeated() {
    let flags = receive_peer_bitfield(&[], &[0xFF, 0xFF], 10).unwrap();
    assert_eq!(flags.len(), 10);
    assert_eq!(receive_peer_bitfield(&[false, true], &[0xFF], 8), None);
    assert_eq!(
        expand_bitfield(&[0x80], 12),
        vec![true, false, false, false, false, false, false, false, false, false, false, false]
    );
}

#[test]
fn test_optimistic_unchoke_rotates() {
    // 6 interested peers for 4 slots; the optimistic unchoke is overdue.
    let mut peers = Vec::new();
    for i in 1..=4 {
        let mut p = peer(&format!("fast_A{}", i));
        p.peer_is_interested_in_us = true;
        p.bytes_downloaded_from_peer = 1000;
        peers.push(p);
    }
    let mut opt = peer("optimistic_B");
    opt.peer_is_interested_in_us = true;
    opt.bytes_downloaded_from_peer = 100;
    peers.push(opt);
    let mut slow = peer("slow_C");
    slow.peer_is_interested_in_us = true;
    slow.bytes_downloaded_from_peer = 10;
    peers.push(slow);

    let now = 100_000;
    let mut timer = Some(now - 31_000);
    let _ = recalculate_chokes(&mut peers, false, &mut timer, now, 0);

    let unchoked_count = peers
        .iter()
        .filter(|p| p.am_choking == ChokeStatus::Unchoke)
        .count();
    assert_eq!(
        unchoked_count,
        UPLOAD_SLOTS_DEFAULT + 1,
        "Total unchoked count mismatch. Expected 5 (4+1)."
    );
    assert_eq!(find(&peers, "fast_A1").am_choking, ChokeStatus::Unchoke);
    assert_eq!(find(&peers, "optimistic_B").am_choking, ChokeStatus::Unchoke);
    assert_eq!(find(&peers, "slow_C").am_choking, ChokeStatus::Choke);
}

#[test]
fn test_check_completion_transitions_to_done_rule() {
    let outcome = check_completion(&TorrentStatus::Standard, &[true, true, true], &[]);
    assert_eq!(
        outcome,
        CompletionCheck::Finished {
            physically_complete: true
        }
    );
}

#[test]
fn test_peer_have_updates_bitfield_and_triggers_work_rule() {
    let mut bits = vec![false; 10];
    superseedr::session::record_have(&mut bits, 5);
    assert!(bits[5]);
    assert!(
        should_be_interested(&bits, &[5], &[], false),
        "Should send Interested message"
    );
}
