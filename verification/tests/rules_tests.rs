use std::collections::HashMap;

use superseedr::block_manager::BlockManager;
use superseedr::disk::{
    has_complete_storage_layout, next_retry_step, retry_step, skip_hashing_pieces, v1_piece_count,
    v1_piece_span, PersistedFile, RetryStep, MAX_PIECE_WRITE_ATTEMPTS, MAX_UPLOAD_REQUEST_ATTEMPTS,
};
use superseedr::lifecycle::{
    announce_on_start, cancel_batch, count_write_failure, fit_bitfield, piece_count_from_metadata,
    piece_verified_outcome, status_after_delete, VerifiedOutcome,
};
use superseedr::session::{
    bytes_left, dial_decision, disconnect_batch_ready, failure_batch_ready, is_full,
    keep_backoff_entry, max_pending_v2_items, peer_stuck, record_have, seeds_to_disconnect,
    upload_decision, DialDecision, UploadDecision,
};
use superseedr::state::TorrentStatus;
use superseedr::tracker::{
    apply_tracker_error, apply_tracker_response, backoff_blocks, record_peer_failure,
    tick_tracker, TrackerState,
};

fn fresh_tracker() -> TrackerState {
    TrackerState {
        next_announce_time: 0,
        leeching_interval: None,
        seeding_interval: None,
    }
}

#[test]
fn tick_announces_once_per_interval() {
    let mut t = fresh_tracker();
    assert!(tick_tracker(&mut t, 5_000, false));
    assert_eq!(t.next_announce_time, 65_000);
    assert!(!tick_tracker(&mut t, 5_000, false));
    assert!(!tick_tracker(&mut t, 64_999, false));
    assert!(tick_tracker(&mut t, 65_000, false));
    assert_eq!(t.next_announce_time, 125_000);
}

#[test]
fn tracker_response_sets_both_intervals() {
    let mut t = fresh_tracker();
    apply_tracker_response(&mut t, 1_000, false, 1800, Some(900));
    assert_eq!(t.seeding_interval, Some(1801));
    assert_eq!(t.leeching_interval, Some(901));
    assert_eq!(t.next_announce_time, 1_000 + 901_000);

    let mut t = fresh_tracker();
    apply_tracker_response(&mut t, 0, true, 0, None);
    assert_eq!(t.seeding_interval, Some(1800));
    assert_eq!(t.leeching_interval, Some(60));
    assert_eq!(t.next_announce_time, 1_800_000);
}

#[test]
fn tracker_error_doubles_the_interval_up_to_an_hour() {
    let mut t = fresh_tracker();
    apply_tracker_error(&mut t, 10_000, false);
    assert_eq!(t.next_announce_time, 10_000 + 120_000);

    let mut t = fresh_tracker();
    apply_tracker_error(&mut t, 0, true);
    assert_eq!(t.next_announce_time, 3_600_000);

    let mut t = fresh_tracker();
    t.leeching_interval = Some(1000);
    apply_tracker_error(&mut t, 0, false);
    assert_eq!(t.next_announce_time, 2_000_000);
    assert_eq!(t.leeching_interval, Some(1000));
}

#[test]
fn peer_failures_back_off_exponentially() {
    assert_eq!(record_peer_failure(0, 0), (1, 15_000));
    assert_eq!(record_peer_failure(1, 0), (2, 30_000));
    assert_eq!(record_peer_failure(5, 1_000), (6, 1_000 + 480_000));
    assert_eq!(record_peer_failure(9, 0), (10, 1_800_000));
    assert_eq!(record_peer_failure(10, 0), (10, 1_800_000));
    assert!(backoff_blocks(Some((3, 10_000)), 9_999));
    assert!(!backoff_blocks(Some((3, 10_000)), 10_000));
    assert!(!backoff_blocks(None, 0));
}

#[test]
fn dialing_respects_backoff_and_existing_sessions() {
    assert_eq!(dial_decision(Some((2, 500)), 100, false), DialDecision::Backoff);
    assert_eq!(dial_decision(Some((2, 500)), 600, true), DialDecision::AlreadyConnected);
    assert_eq!(dial_decision(None, 600, false), DialDecision::Dial);
}

#[test]
fn test_peer_disconnect_batches_until_threshold_rule() {
    let mut pending = 0usize;
    let mut flushed_at = None;
    for i in 0..101usize {
        pending += 1;
        if disconnect_batch_ready(pending, false) {
            assert_eq!(i, 99);
            assert_eq!(pending, 100);
            flushed_at = Some(i);
            pending = 0;
        } else {
            assert_eq!(pending, i + 1 - flushed_at.map(|f| f + 1).unwrap_or(0));
        }
    }
    assert_eq!(flushed_at, Some(99));
    assert_eq!(pending, 1);
}

#[test]
fn test_peer_disconnect_force_flush_rule() {
    assert!(!disconnect_batch_ready(5, false));
    assert!(disconnect_batch_ready(5, true));
    assert!(!disconnect_batch_ready(0, true));
    assert!(!failure_batch_ready(99));
    assert!(failure_batch_ready(100));
}

#[test]
fn uploads_need_an_unchoked_peer_and_a_done_piece() {
    assert_eq!(upload_decision(false, 16384, Some(true), true), UploadDecision::Dropped);
    assert_eq!(upload_decision(true, 131_073, Some(true), true), UploadDecision::Dropped);
    assert_eq!(upload_decision(true, 131_072, Some(true), true), UploadDecision::Serve);
    assert_eq!(upload_decision(true, 16384, Some(false), true), UploadDecision::Refused);
    assert_eq!(upload_decision(true, 16384, None, true), UploadDecision::Refused);
    assert_eq!(upload_decision(true, 16384, Some(true), false), UploadDecision::Refused);
}

#[test]
fn test_cleanup_flushes_stuck_peers_via_batch() {
    // A connection without a peer id, made ten seconds ago, is stuck.
    assert!(peer_stuck(true, 10_000, 0));
    assert!(!peer_stuck(true, 5_000, 0));
    assert!(!peer_stuck(false, 10_000, 0));
    assert!(keep_backoff_entry(9));
    assert!(!keep_backoff_entry(10));
    assert_eq!(max_pending_v2_items(None), 65_536);
    assert_eq!(max_pending_v2_items(Some(1 << 20)), 1024);
}

#[test]
fn seeds_are_dropped_once_we_seed() {
    let bits = vec![vec![true, true], vec![true, false], vec![], vec![true, true]];
    assert_eq!(seeds_to_disconnect(true, &bits), vec![0, 3]);
    assert_eq!(seeds_to_disconnect(false, &bits), Vec::<usize>::new());
    assert!(is_full(&[true]));
    assert!(!is_full(&[]));
}

#[test]
fn have_messages_and_shutdown_accounting() {
    let mut bits = vec![false, false];
    record_have(&mut bits, 1);
    assert_eq!(bits, vec![false, true]);
    record_have(&mut bits, 5);
    assert_eq!(bits, vec![false, true]);
    assert_eq!(bytes_left(100_000, 3, 16_384), 50_848);
    assert_eq!(bytes_left(10, 1, 16_384), 0);
}

#[test]
fn disk_retries_double_then_give_up() {
    let mut attempt = 0u32;
    assert_eq!(
        retry_step(&mut attempt, MAX_PIECE_WRITE_ATTEMPTS, 50),
        RetryStep::Wait { delay_ms: 2_050 }
    );
    assert_eq!(attempt, 1);
    assert_eq!(
        retry_step(&mut attempt, MAX_PIECE_WRITE_ATTEMPTS, 0),
        RetryStep::Wait { delay_ms: 4_000 }
    );
    let mut attempt = MAX_UPLOAD_REQUEST_ATTEMPTS;
    assert_eq!(
        retry_step(&mut attempt, MAX_UPLOAD_REQUEST_ATTEMPTS, 0),
        RetryStep::GiveUp
    );
    let mut attempt = 2u32;
    match next_retry_step(&mut attempt, MAX_PIECE_WRITE_ATTEMPTS) {
        RetryStep::Wait { delay_ms } => assert!((8_000..=8_100).contains(&delay_ms)),
        RetryStep::GiveUp => panic!("should retry"),
    }
}

fn persisted(len: u64, found: Option<(bool, u64)>) -> PersistedFile {
    PersistedFile {
        is_padding: false,
        expected_len: len,
        found,
    }
}

#[test]
fn test_has_complete_storage_layout_true_for_exact_single_file() {
    assert!(
        has_complete_storage_layout(&[persisted(1024, Some((true, 1024)))]),
        "exact-size persisted layout should be considered complete"
    );
}

#[test]
fn test_has_complete_storage_layout_false_for_size_mismatch() {
    assert!(
        !has_complete_storage_layout(&[persisted(1024, Some((true, 1000)))]),
        "length mismatch must not be considered a complete persisted layout"
    );
}

#[test]
fn storage_layout_ignores_padding_and_rejects_missing_or_directories() {
    let padding = PersistedFile {
        is_padding: true,
        expected_len: 10,
        found: None,
    };
    assert!(has_complete_storage_layout(&[padding, persisted(5, Some((true, 5)))]));
    assert!(!has_complete_storage_layout(&[persisted(5, None)]));
    assert!(!has_complete_storage_layout(&[persisted(5, Some((false, 5)))]));
}

#[test]
fn test_skip_hashing_true_does_not_mark_complete_when_storage_missing() {
    let layout_complete = has_complete_storage_layout(&[persisted(1024, None)]);
    let pieces = skip_hashing_pieces(layout_complete, 64, 1024, None);
    assert!(
        pieces.is_empty(),
        "Missing payload must not be treated as fully validated when skip_hashing=true"
    );
}

#[test]
fn skip_hashing_reports_every_piece() {
    assert_eq!(skip_hashing_pieces(true, 16_384, 100_000, None), vec![0, 1, 2, 3, 4, 5, 6]);
    assert_eq!(skip_hashing_pieces(true, 16_384, 100_000, Some(3)), vec![0, 1, 2]);
    assert_eq!(skip_hashing_pieces(true, 0, 100_000, None), Vec::<u32>::new());
    assert_eq!(v1_piece_count(100_000, 16_384), 7);
    assert_eq!(v1_piece_count(32_768, 16_384), 2);
    assert_eq!(v1_piece_count(5, 0), 0);
    assert_eq!(v1_piece_span(100_000, 16_384, 6), (98_304, 1_696));
    assert_eq!(v1_piece_span(100_000, 16_384, 7), (114_688, 0));
}

#[test]
fn startup_and_piece_outcomes() {
    assert!(!announce_on_start(true, true, true));
    assert!(announce_on_start(false, false, true));
    assert!(!announce_on_start(false, false, false));
    assert_eq!(piece_count_from_metadata(60, 9), 3);
    assert_eq!(piece_count_from_metadata(0, 9), 9);
    assert_eq!(piece_verified_outcome(5, 5, true, false), VerifiedOutcome::Ignored);
    assert_eq!(piece_verified_outcome(1, 5, false, true), VerifiedOutcome::Reject);
    assert_eq!(piece_verified_outcome(1, 5, true, true), VerifiedOutcome::Redundant);
    assert_eq!(piece_verified_outcome(1, 5, true, false), VerifiedOutcome::Write);
    assert_eq!(count_write_failure(None), 1);
    assert_eq!(count_write_failure(Some(4)), 5);
    assert_eq!(count_write_failure(Some(u32::MAX)), u32::MAX);
    assert_eq!(status_after_delete(true), TorrentStatus::Validating);
    assert_eq!(status_after_delete(false), TorrentStatus::AwaitingMetadata);
}

#[test]
fn bitfields_fit_the_piece_count() {
    let mut bits = vec![true, true, true];
    fit_bitfield(&mut bits, 2);
    assert_eq!(bits, vec![true, true]);
    fit_bitfield(&mut bits, 4);
    assert_eq!(bits, vec![true, true, false, false]);
}

#[test]
fn written_piece_cancels_its_blocks() {
    let mut bm = BlockManager::new();
    bm.set_geometry(20_000, 40_000, vec![], vec![], HashMap::new(), false);
    // Piece 1 (bytes 20000..40000) is cancelled block by block, piece-locally.
    assert_eq!(cancel_batch(&bm, 1), vec![(1, 0, 16_384), (1, 16_384, 3_616)]);
    assert_eq!(cancel_batch(&bm, 0), vec![(0, 0, 16_384), (0, 16_384, 3_616)]);
}

use superseedr::metrics::{bytes_written, eta_secs, next_announce_in, pieces_completed};

#[test]
fn metrics_figures() {
    assert_eq!(pieces_completed(true, 4, 10, 10), 4);
    assert_eq!(pieces_completed(false, 4, 10, 3), 7);
    assert_eq!(bytes_written(10, 10, 100_000, 16_384), 100_000);
    assert_eq!(bytes_written(3, 10, 100_000, 16_384), 49_152);
    assert_eq!(eta_secs(0, 0, 100, 10, 0), Some(0));
    assert_eq!(eta_secs(2, 0, 100, 10, 0), None);
    assert_eq!(eta_secs(2, 80, 100, 10, 5), Some(5));
    assert_eq!(eta_secs(2, 80, 100, u64::MAX, 5), Some(0));
    assert_eq!(next_announce_in(&[], 5), None);
    assert_eq!(next_announce_in(&[9_000, 7_000, 8_000], 5_000), Some(2_000));
    assert_eq!(next_announce_in(&[9_000, 3_000], 5_000), Some(0));
}

use superseedr::tracker::tick_trackers;

#[test]
fn test_tracker_spam_during_validation_rule() {
    let mut trackers = vec![TrackerState {
        next_announce_time: 1_000,
        leeching_interval: Some(60),
        seeding_interval: None,
    }];
    let announce = tick_trackers(&mut trackers, 1_001, false, true, false);
    assert!(
        announce.is_empty(),
        "FAILURE: Tracker announce was sent during the validation phase, indicating the system is inefficiently spamming the tracker while busy."
    );
    assert_eq!(trackers[0].next_announce_time, 1_000);
}

#[test]
fn ticks_announce_due_trackers_only() {
    let mut trackers = vec![fresh_tracker(), fresh_tracker(), fresh_tracker()];
    trackers[1].next_announce_time = 50_000;
    trackers[2].seeding_interval = Some(10);
    let announce = tick_trackers(&mut trackers, 1_000, true, false, false);
    assert_eq!(announce, vec![0, 2]);
    assert_eq!(trackers[0].next_announce_time, 61_000);
    assert_eq!(trackers[1].next_announce_time, 50_000);
    assert_eq!(trackers[2].next_announce_time, 11_000);
    assert!(tick_trackers(&mut trackers, 1_000, true, false, true).is_empty());
}

#[test]
fn test_manager_init_active_triggers_announce_rule() {
    assert!(announce_on_start(false, true, false), "Should trigger AnnounceToTracker.");
}

#[test]
fn test_manager_init_paused_halts_activity_rule() {
    assert!(
        !announce_on_start(true, false, false),
        "No network activity should be generated when starting paused."
    );
}

#[test]
fn test_piece_verified_valid_trigger_write_rule() {
    assert_eq!(piece_verified_outcome(1, 5, true, false), VerifiedOutcome::Write);
}

#[test]
fn test_piece_verified_invalid_disconnects_peer_rule() {
    assert_eq!(piece_verified_outcome(1, 5, false, false), VerifiedOutcome::Reject);
}

#[test]
fn test_v2_memory_cap_enforcement() {
    // 500 MiB pieces leave room for two buffered pieces; three are too many.
    let limit = max_pending_v2_items(Some(500 * 1024 * 1024));
    assert_eq!(limit, 2);
    let buffered = 3usize;
    assert!(buffered > limit, "Sanity check: 3 items inserted");
}

#[test]
fn test_non_aligned_verify_fail_requeue_clears_exact_piece_state() {
    let mut bm = BlockManager::new();
    bm.set_geometry(20_000, 40_000, vec![], vec![], HashMap::new(), false);
    bm.commit_v1_piece(0);
    // The failed piece's assembly is reset.
    bm.reset_v1_buffer(1);
    assert!(bm.is_piece_complete(0), "Piece 0 completion state must remain unchanged");
    assert!(
        !bm.is_piece_complete(1),
        "Piece 1 must be requeued and incomplete after verification failure"
    );
}

use superseedr::lifecycle::{validation_announce, ValidationAnnounce};

#[test]
fn validation_end_announces_by_stage() {
    assert_eq!(validation_announce(false, false), ValidationAnnounce::ConnectFromTrackers);
    assert_eq!(validation_announce(false, true), ValidationAnnounce::AnnounceAll);
    assert_eq!(validation_announce(true, false), ValidationAnnounce::Quiet);
}
