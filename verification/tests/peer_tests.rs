use superseedr::peer::PeerState;
use superseedr::state::ChokeStatus;

#[test]
fn a_new_peer_starts_choked_and_idle() {
    let p = PeerState::new("10.0.0.1:6881".to_string(), 42);
    assert_eq!(p.am_choking, ChokeStatus::Choke);
    assert_eq!(p.peer_choking, ChokeStatus::Choke);
    assert!(!p.am_interested);
    assert!(p.pending_requests.is_empty());
    assert_eq!(p.created_at, 42);
    assert_eq!(p.inflight_requests, 0);
}

#[test]
fn test_peer_chokes_us_mid_download_rule() {
    let mut p = PeerState::new("peer_A".to_string(), 0);
    p.on_unchoked();
    p.add_pending(5);
    let requeue = p.on_choked();
    assert_eq!(p.peer_choking, ChokeStatus::Choke);
    assert_eq!(requeue, vec![5]);
}

#[test]
fn choking_drops_all_work_in_flight() {
    let mut p = PeerState::new("peer_A".to_string(), 0);
    p.on_unchoked();
    p.add_pending(0);
    p.add_pending(1);
    p.add_pending(0);
    p.active_blocks.push((0, 0, 16_384));
    p.record_requests(3);
    assert_eq!(p.pending_requests, vec![0, 1]);

    let requeue = p.on_choked();
    assert_eq!(p.peer_choking, ChokeStatus::Choke);
    assert_eq!(requeue, vec![0, 1]);
    assert!(p.pending_requests.is_empty());
    assert!(p.active_blocks.is_empty());
    assert_eq!(p.inflight_requests, 0);
}

#[test]
fn regression_metric_integer_overflow() {
    let mut p = PeerState::new("peer_A".to_string(), 0);
    p.on_block_sent(u64::MAX - 100);
    p.on_block_sent(200);
    assert_eq!(p.bytes_uploaded_to_peer, u64::MAX);
    assert_eq!(p.total_bytes_uploaded, u64::MAX);
    assert_eq!(p.take_tick_bytes(), (0, u64::MAX));
    assert_eq!(p.bytes_uploaded_in_tick, 0);
}

#[test]
fn received_blocks_are_counted_when_useful() {
    let mut p = PeerState::new("peer_A".to_string(), 0);
    p.active_blocks.push((2, 0, 100));
    p.active_blocks.push((2, 100, 50));
    p.record_requests(2);
    p.on_block_received(2, 0, 100, true);
    assert_eq!(p.inflight_requests, 1);
    assert_eq!(p.active_blocks, vec![(2, 100, 50)]);
    assert_eq!(p.bytes_downloaded_from_peer, 100);
    p.on_block_received(2, 100, 50, false);
    assert_eq!(p.bytes_downloaded_from_peer, 100);
    assert!(p.active_blocks.is_empty());
    p.on_block_received(9, 9, 9, false);
    assert_eq!(p.inflight_requests, 0);
}

#[test]
fn interest_changes_are_reported_once() {
    let mut p = PeerState::new("peer_A".to_string(), 0);
    assert_eq!(p.update_interest(true), Some(true));
    assert_eq!(p.update_interest(true), None);
    assert_eq!(p.update_interest(false), Some(false));
    p.on_interested();
    assert!(p.peer_is_interested_in_us);
    p.add_pending(4);
    p.add_pending(5);
    p.remove_pending(4);
    assert_eq!(p.pending_requests, vec![5]);
}
