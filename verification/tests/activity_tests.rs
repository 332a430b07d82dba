use superseedr::activity::{generate_activity_message, ActivitySnapshot};
use superseedr::state::{TorrentActivity, TorrentStatus};
use superseedr::text::{cap_activity_message, peer_addr, ACTIVITY_MESSAGE_MAX_LEN};

fn snapshot() -> ActivitySnapshot {
    ActivitySnapshot {
        is_paused: false,
        status: TorrentStatus::AwaitingMetadata,
        last_activity: TorrentActivity::Initializing,
        metadata_length_known: false,
        connected_peers: 0,
        useful_peers: 0,
        peers_sending_data: 0,
        need_count: 0,
        total_pieces: 0,
        pieces_remaining: 0,
        validation_pieces_found: 0,
    }
}

#[test]
fn test_activity_message_metadata_and_peer_count() {
    let mut s = snapshot();
    s.status = TorrentStatus::AwaitingMetadata;
    s.metadata_length_known = true;
    s.connected_peers = 3;

    let msg = generate_activity_message(&s, 0, 0);
    assert_eq!(msg, "Metadata (3 peers)");
    assert!(msg.chars().count() <= ACTIVITY_MESSAGE_MAX_LEN);
}

#[test]
fn test_activity_message_validation_shows_progress_percentage() {
    let mut s = snapshot();
    s.status = TorrentStatus::Validating;
    s.validation_pieces_found = 4;
    s.total_pieces = 10;

    let msg = generate_activity_message(&s, 0, 0);
    assert_eq!(msg, "Validating 40% (4/10)");
    assert!(msg.chars().count() <= ACTIVITY_MESSAGE_MAX_LEN);
}

#[test]
fn test_activity_message_requesting_pieces_shows_quantifiers() {
    let mut s = snapshot();
    s.status = TorrentStatus::Standard;
    s.last_activity = TorrentActivity::RequestingPieces;
    s.need_count = 4;
    s.connected_peers = 2;
    s.useful_peers = 1;
    s.peers_sending_data = 1;

    let msg = generate_activity_message(&s, 0, 0);
    assert_eq!(msg, "Request 4 (1/2)");
    assert!(msg.chars().count() <= ACTIVITY_MESSAGE_MAX_LEN);
}

#[test]
fn test_activity_message_waiting_for_data_is_plain_language() {
    let mut s = snapshot();
    s.status = TorrentStatus::Standard;
    s.last_activity = TorrentActivity::Initializing;
    s.need_count = 1;
    s.total_pieces = 5;
    s.pieces_remaining = 3;
    s.connected_peers = 3;
    s.useful_peers = 2;
    s.peers_sending_data = 1;

    let msg = generate_activity_message(&s, 0, 0);
    assert_eq!(msg, "Waiting data (1/3)");
    assert!(!msg.to_lowercase().contains("unchoke"));
    assert!(msg.chars().count() <= ACTIVITY_MESSAGE_MAX_LEN);
}

#[test]
fn test_activity_message_done_strings_preserved() {
    let mut s = snapshot();
    s.status = TorrentStatus::Done;

    assert_eq!(generate_activity_message(&s, 0, 10), "Seeding");
    assert_eq!(generate_activity_message(&s, 0, 0), "Finished");
}

#[test]
fn paused_and_processing_lines() {
    let mut s = snapshot();
    s.is_paused = true;
    assert_eq!(generate_activity_message(&s, 5, 5), "Paused");
    s.is_paused = false;
    s.last_activity = TorrentActivity::ProcessingPeers(120);
    assert_eq!(generate_activity_message(&s, 0, 0), "Processing peer (120)");
    s.last_activity = TorrentActivity::Initializing;
    assert_eq!(generate_activity_message(&s, 0, 0), "Metadata from peers (0)");
}

#[test]
fn transfer_lines_name_the_piece() {
    let mut s = snapshot();
    s.status = TorrentStatus::Standard;
    s.last_activity = TorrentActivity::DownloadingPiece(42);
    assert_eq!(generate_activity_message(&s, 1, 0), "Receiving piece #42");
    s.last_activity = TorrentActivity::VerifyingPiece(7);
    assert_eq!(generate_activity_message(&s, 1, 0), "Verifying piece #7");
    s.last_activity = TorrentActivity::AnnouncingToTracker;
    assert_eq!(generate_activity_message(&s, 1, 0), "Downloading");
    s.last_activity = TorrentActivity::SendingPiece(0);
    assert_eq!(generate_activity_message(&s, 0, 3), "Sending piece #0");
    s.last_activity = TorrentActivity::Initializing;
    assert_eq!(generate_activity_message(&s, 0, 3), "Uploading");
}

#[test]
fn idle_lines_report_peers_and_progress() {
    let mut s = snapshot();
    s.status = TorrentStatus::Standard;
    s.total_pieces = 8;
    s.pieces_remaining = 6;
    assert_eq!(generate_activity_message(&s, 0, 0), "Connecting (25%)");
    s.connected_peers = 2;
    assert_eq!(generate_activity_message(&s, 0, 0), "Idle (2, 25%)");
    s.need_count = 3;
    assert_eq!(generate_activity_message(&s, 0, 0), "Need pieces (2)");
    s.last_activity = TorrentActivity::AnnouncingToTracker;
    assert_eq!(generate_activity_message(&s, 0, 0), "Tracker (2 peers)");
    s.last_activity = TorrentActivity::SearchingDht;
    assert_eq!(generate_activity_message(&s, 0, 0), "DHT search (2)");
    s.status = TorrentStatus::Validating;
    s.total_pieces = 0;
    assert_eq!(generate_activity_message(&s, 0, 0), "Validating");
}

#[test]
fn long_lines_are_cut_to_the_limit() {
    let long = "Metadata from peers (123456789012345)".to_string();
    let capped = cap_activity_message(long);
    assert_eq!(capped, "Metadata from peers (1234...");
    assert_eq!(capped.chars().count(), ACTIVITY_MESSAGE_MAX_LEN);
    assert_eq!(cap_activity_message("short".to_string()), "short");
}

#[test]
fn peer_addresses_join_ip_and_port() {
    assert_eq!(peer_addr("10.0.0.1", 6881), "10.0.0.1:6881");
    assert_eq!(peer_addr("::1", 0), "::1:0");
}

use superseedr::activity::peer_counts;
use superseedr::peer::PeerState;

#[test]
fn peer_counts_feed_the_status_line() {
    let mut p1 = PeerState::new("p1".to_string(), 0);
    p1.update_interest(true);
    p1.on_unchoked();
    let mut p2 = PeerState::new("p2".to_string(), 0);
    p2.update_interest(true);
    let p3 = PeerState::new("p3".to_string(), 0);
    let (connected, useful, sending) = peer_counts(&[p1, p2, p3]);
    assert_eq!((connected, useful, sending), (3, 2, 1));

    let mut s = snapshot();
    s.status = TorrentStatus::Standard;
    s.need_count = 1;
    s.total_pieces = 5;
    s.pieces_remaining = 3;
    s.connected_peers = connected;
    s.useful_peers = useful;
    s.peers_sending_data = sending;
    assert_eq!(generate_activity_message(&s, 0, 0), "Waiting data (1/3)");
}
