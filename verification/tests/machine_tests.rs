use superseedr::machine::{Action, Effect, ManagerEvent, PeerCommand, TorrentMeta, TorrentState};
use superseedr::state::{ChokeStatus, TorrentStatus};
use superseedr::session::DialDecision;
use superseedr::tracker::TrackerState;

fn create_empty_state() -> TorrentState {
    let mut state = TorrentState::new(vec![0; 20], None, Vec::new(), 0);
    state.has_data_path = true;
    state
}

fn state_with_pieces(n: usize, trackers: Vec<String>) -> TorrentState {
    let meta = TorrentMeta {
        total_length: 16384 * n as u64,
        piece_length: 16384,
        num_pieces: n,
        web_seeds: Vec::new(),
    };
    let mut state = TorrentState::new(vec![0; 20], Some(meta), trackers, 0);
    state.has_data_path = true;
    state
}

fn add_peer(state: &mut TorrentState, id: &str) {
    let _ = state.update(Action::RegisterPeer { peer_id: id.to_string() });
}

fn peer<'a>(state: &'a TorrentState, id: &str) -> &'a superseedr::peer::PeerState {
    state.peers.iter().find(|p| p.ip_port == id).unwrap()
}

#[test]
fn test_check_completion_transitions_to_done() {
    let mut state = state_with_pieces(3, vec!["http://tracker".to_string()]);
    state.torrent_status = TorrentStatus::Standard;
    for i in 0..3 {
        state.done[i] = true;
    }

    let effects = state.update(Action::CheckCompletion);

    assert_eq!(state.torrent_status, TorrentStatus::Done);
    let announce_completed = effects
        .iter()
        .any(|e| matches!(e, Effect::AnnounceCompleted { .. }));
    assert!(announce_completed);
}

#[test]
fn test_peer_disconnect_decrements_count() {
    let mut state = create_empty_state();
    add_peer(&mut state, "peer_X");
    state.number_of_successfully_connected_peers = 1;

    let effects = state.update(Action::PeerDisconnected {
        peer_id: "peer_X".to_string(),
        force: true,
    });

    assert!(!state.peers.iter().any(|p| p.ip_port == "peer_X"));
    assert_eq!(state.number_of_successfully_connected_peers, 0);
    assert!(effects
        .iter()
        .any(|e| matches!(e, Effect::DisconnectPeer { .. })));
    assert!(effects.iter().any(|e| matches!(
        e,
        Effect::EmitManagerEvent(ManagerEvent::PeerDisconnected)
    )));
}

#[test]
fn test_peer_chokes_us_mid_download() {
    let mut state = create_empty_state();
    add_peer(&mut state, "peer_A");
    {
        let p = state.peers.iter_mut().find(|p| p.ip_port == "peer_A").unwrap();
        p.peer_choking = ChokeStatus::Unchoke;
        p.am_interested = true;
        p.pending_requests.push(5);
    }
    state.pending_queue.push(5);

    let _ = state.update(Action::PeerChoked {
        peer_id: "peer_A".into(),
    });

    assert_eq!(peer(&state, "peer_A").peer_choking, ChokeStatus::Choke);
    assert!(peer(&state, "peer_A").pending_requests.is_empty());
    assert_eq!(state.need_queue, vec![5]);
    assert!(state.pending_queue.is_empty());
}

#[test]
fn test_peer_have_updates_bitfield_and_triggers_work() {
    let mut state = state_with_pieces(10, Vec::new());
    state.torrent_status = TorrentStatus::Standard;
    add_peer(&mut state, "peer_A");
    state.peers[0].bitfield = vec![false; 10];
    state.need_queue.push(5);

    let effects = state.update(Action::PeerHavePiece {
        peer_id: "peer_A".into(),
        piece_index: 5,
    });

    assert!(peer(&state, "peer_A").bitfield[5]);
    let interest = effects.iter().any(|e| {
        matches!(e, Effect::SendToPeer { cmd: PeerCommand::ClientInterested, .. })
    });
    assert!(interest, "Should send Interested message");
}

#[test]
fn test_cancel_upload_aborts_task() {
    let mut state = create_empty_state();
    add_peer(&mut state, "leecher");

    let effects = state.update(Action::CancelUpload {
        peer_id: "leecher".into(),
        piece_index: 0,
        block_offset: 0,
        length: 16384,
    });

    let abort = effects.iter().any(|e| {
        matches!(e, Effect::AbortUpload { peer_id, piece_index, .. }
            if peer_id == "leecher" && *piece_index == 0)
    });
    assert!(abort);
}

#[test]
fn regression_peer_count_sync() {
    let mut state = create_empty_state();
    let peer_id = "peer_A".to_string();

    add_peer(&mut state, &peer_id);
    state.update(Action::PeerSuccessfullyConnected {
        peer_id: peer_id.clone(),
    });
    assert_eq!(
        state.number_of_successfully_connected_peers, 1,
        "Counter after first connection"
    );

    state.update(Action::PeerSuccessfullyConnected {
        peer_id: peer_id.clone(),
    });
    assert_eq!(
        state.number_of_successfully_connected_peers, 1,
        "Counter on duplicate connection"
    );

    state.update(Action::PeerDisconnected {
        peer_id: peer_id.clone(),
        force: true,
    });
    assert_eq!(
        state.number_of_successfully_connected_peers, 0,
        "Counter after disconnection"
    );
}

#[test]
fn test_tracker_spam_during_validation() {
    let tracker_url = "http://tracker.test".to_string();
    let mut state = state_with_pieces(100, vec![tracker_url.clone()]);
    assert_eq!(state.torrent_status, TorrentStatus::Validating);
    state.trackers[0] = TrackerState {
        next_announce_time: state.now_ms,
        leeching_interval: Some(60),
        seeding_interval: None,
    };

    let _ = state.update(Action::Tick { dt_ms: 1 });
    state.trackers[0].next_announce_time = state.now_ms;

    let effects = state.update(Action::Tick { dt_ms: 1 });

    let announce_sent = effects
        .iter()
        .any(|e| matches!(e, Effect::AnnounceToTracker { .. }));
    assert!(!announce_sent);
}

#[test]
fn test_manager_init_active_triggers_announce() {
    let tracker_url = "http://test.tracker".to_string();
    let mut state = TorrentState::new(vec![0; 20], None, vec![tracker_url.clone()], 0);

    let effects = state.update(Action::TorrentManagerInit {
        is_paused: false,
        announce_immediately: true,
    });

    let announce_sent = effects
        .iter()
        .any(|e| matches!(e, Effect::AnnounceToTracker { url } if url == &tracker_url));
    assert!(announce_sent, "Should trigger AnnounceToTracker.");
    assert!(!state.is_paused);
}

#[test]
fn test_manager_init_paused_halts_activity() {
    let tracker_url = "http://test.tracker".to_string();
    let mut state = TorrentState::new(vec![0; 20], None, vec![tracker_url], 0);

    let effects = state.update(Action::TorrentManagerInit {
        is_paused: true,
        announce_immediately: false,
    });

    assert!(state.is_paused);
    let network_activity = effects
        .iter()
        .any(|e| matches!(e, Effect::AnnounceToTracker { .. }));
    assert!(!network_activity);
}

#[test]
fn test_peer_disconnect_batches_until_threshold() {
    let mut state = create_empty_state();
    state.torrent_status = TorrentStatus::Standard;

    for i in 0..101 {
        let pid = format!("peer_{}", i);
        add_peer(&mut state, &pid);

        let effects = state.update(Action::PeerDisconnected {
            peer_id: pid.clone(),
            force: false,
        });

        if i < 99 {
            assert!(effects.is_empty() || matches!(effects[0], Effect::DoNothing));
            assert_eq!(state.pending_disconnects.len(), i + 1);
        } else if i == 99 {
            assert_eq!(effects.len(), 200);
            assert!(state.pending_disconnects.is_empty());
        }
    }

    assert_eq!(state.pending_disconnects.len(), 1);
}

#[test]
fn test_peer_disconnect_force_flush() {
    let mut state = create_empty_state();

    for i in 0..5 {
        let pid = format!("peer_{}", i);
        add_peer(&mut state, &pid);
        state.update(Action::PeerDisconnected {
            peer_id: pid,
            force: false,
        });
    }

    assert_eq!(state.pending_disconnects.len(), 5);

    let effects = state.update(Action::PeerDisconnected {
        peer_id: String::new(),
        force: true,
    });

    assert_eq!(effects.len(), 10);
    assert!(state.pending_disconnects.is_empty());
    assert_eq!(state.peers.len(), 0);
}

#[test]
fn machine_new_starts_validating_with_metadata() {
    let state = state_with_pieces(4, vec!["http://a".to_string()]);
    assert_eq!(state.torrent_status, TorrentStatus::Validating);
    assert_eq!(state.done, vec![false; 4]);
    assert_eq!(state.trackers[0].next_announce_time, 0);
    assert_eq!(state.optimistic_unchoke_timer, Some(0));
    let later = TorrentState::new(Vec::new(), None, Vec::new(), 40_000);
    assert_eq!(later.optimistic_unchoke_timer, Some(9_000));
    assert_eq!(later.torrent_status, TorrentStatus::AwaitingMetadata);
}

#[test]
fn machine_pause_requeues_pending_and_resume_redials() {
    let mut state = create_empty_state();
    add_peer(&mut state, "10.0.0.1:6881");
    state.need_queue = vec![1];
    state.pending_queue = vec![2, 3];
    let effects = state.update(Action::Pause);
    assert_eq!(effects.len(), 3);
    assert!(matches!(effects[1], Effect::ClearAllUploads));
    assert_eq!(state.need_queue, vec![1, 2, 3]);
    assert!(state.pending_queue.is_empty());
    assert!(state.peers.is_empty());
    assert_eq!(state.last_known_peers, vec!["10.0.0.1:6881".to_string()]);

    let effects = state.update(Action::Resume);
    assert!(matches!(effects[0], Effect::TriggerDhtSearch));
    assert!(matches!(effects.last().unwrap(), Effect::ReconnectPeer { addr } if addr == "10.0.0.1:6881"));
    assert!(state.last_known_peers.is_empty());
    assert!(!state.is_paused);
}

#[test]
fn machine_tracker_response_schedules_and_skips_backed_off_peers() {
    let mut state = create_empty_state();
    state.tracker_urls = vec!["http://t".to_string()];
    state.trackers = vec![TrackerState {
        next_announce_time: 0,
        leeching_interval: None,
        seeding_interval: None,
    }];
    state.now_ms = 1_000;
    state.timed_out_peers = vec![("1.2.3.4:80".to_string(), 1, 50_000)];
    let effects = state.update(Action::TrackerResponse {
        url: "http://t".to_string(),
        peers: vec![("1.2.3.4".to_string(), 80), ("5.6.7.8".to_string(), 81)],
        interval: 1799,
        min_interval: Some(29),
    });
    assert_eq!(effects.len(), 1);
    assert!(matches!(&effects[0], Effect::ConnectToPeer { ip, port } if ip == "5.6.7.8" && *port == 81));
    assert_eq!(state.trackers[0].seeding_interval, Some(1800));
    assert_eq!(state.trackers[0].leeching_interval, Some(30));
    assert_eq!(state.trackers[0].next_announce_time, 31_000);
}

#[test]
fn machine_connection_failures_back_off_in_batches() {
    let mut state = create_empty_state();
    state.now_ms = 10;
    for i in 0..99 {
        let e = state.update(Action::PeerConnectionFailed { peer_addr: format!("p{}", i) });
        assert!(matches!(e[0], Effect::DoNothing));
    }
    let e = state.update(Action::PeerConnectionFailed { peer_addr: "p0".to_string() });
    assert!(e.is_empty());
    assert!(state.pending_failures.is_empty());
    let entry = state.timed_out_peers.iter().find(|t| t.0 == "p0").unwrap();
    assert_eq!(entry.1, 2);
    assert_eq!(entry.2, 10 + 30_000);
    let other = state.timed_out_peers.iter().find(|t| t.0 == "p1").unwrap();
    assert_eq!((other.1, other.2), (1, 10 + 15_000));
}

#[test]
fn machine_request_upload_needs_unchoke_and_piece() {
    let mut state = state_with_pieces(2, Vec::new());
    add_peer(&mut state, "leecher");
    state.done[1] = true;
    let e = state.update(Action::RequestUpload { peer_id: "leecher".into(), piece_index: 1, block_offset: 0, length: 16384 });
    assert!(matches!(e[0], Effect::DoNothing));
    state.peers[0].am_choking = ChokeStatus::Unchoke;
    let e = state.update(Action::RequestUpload { peer_id: "leecher".into(), piece_index: 1, block_offset: 0, length: 16384 });
    assert!(matches!(&e[0], Effect::ReadFromDisk { piece_index: 1, length: 16384, .. }));
    let e = state.update(Action::RequestUpload { peer_id: "leecher".into(), piece_index: 1, block_offset: 0, length: 131_073 });
    assert!(matches!(e[0], Effect::DoNothing));
}

#[test]
fn machine_shutdown_reports_bytes_left() {
    let mut state = state_with_pieces(4, vec!["http://t".to_string()]);
    state.done[0] = true;
    state.session_total_uploaded = 7;
    let e = state.update(Action::Shutdown);
    match &e[0] {
        Effect::PrepareShutdown { tracker_urls, left, uploaded, downloaded } => {
            assert_eq!(tracker_urls, &vec!["http://t".to_string()]);
            assert_eq!(*left, 3 * 16384);
            assert_eq!(*uploaded, 7);
            assert_eq!(*downloaded, 0);
        }
        _ => panic!("expected PrepareShutdown"),
    }
    assert!(state.is_paused);
}

#[test]
fn machine_assign_work_requests_piece_peer_has_batch() {
    let mut state = state_with_pieces(10, Vec::new());
    state.torrent_status = TorrentStatus::Standard;
    state
        .block_manager
        .set_geometry(16384, 163840, vec![], vec![], std::collections::HashMap::new(), false);
    state.need_queue = (0..10).collect();
    add_peer(&mut state, "peer_A");
    {
        let p = &mut state.peers[0];
        p.bitfield = vec![false; 10];
        p.bitfield[0] = true;
        p.peer_choking = ChokeStatus::Unchoke;
    }

    let effects = state.update(Action::AssignWork { peer_id: "peer_A".into() });

    assert!(matches!(&effects[0], Effect::SendToPeer { cmd: PeerCommand::ClientInterested, .. }));
    match &effects[1] {
        Effect::SendToPeer { peer_id, cmd: PeerCommand::BulkRequest(batch) } => {
            assert_eq!(peer_id, "peer_A");
            assert_eq!(batch, &vec![(0u32, 0u32, 16384u32)]);
        }
        other => panic!("expected a request batch, got {:?}", other),
    }
    assert_eq!(state.pending_queue, vec![0]);
    assert!(!state.need_queue.contains(&0));
    assert_eq!(state.peers[0].pending_requests, vec![0]);
    assert_eq!(state.peers[0].inflight_requests, 1);
    assert!(state.peers[0].am_interested);
}

#[test]
fn machine_assign_work_enters_endgame_when_nothing_left() {
    let mut state = state_with_pieces(1, Vec::new());
    state.torrent_status = TorrentStatus::Standard;
    state
        .block_manager
        .set_geometry(16384, 16384, vec![], vec![], std::collections::HashMap::new(), false);
    state.need_queue = vec![0];
    add_peer(&mut state, "peer_A");
    state.peers[0].bitfield = vec![true];
    state.peers[0].peer_choking = ChokeStatus::Unchoke;
    let _ = state.update(Action::AssignWork { peer_id: "peer_A".into() });
    assert_eq!(state.torrent_status, TorrentStatus::Endgame);
    assert!(state.need_queue.is_empty());
}

#[test]
fn machine_recalculate_chokes_resets_interval_counters() {
    let mut state = create_empty_state();
    state.torrent_status = TorrentStatus::Standard;
    state.optimistic_unchoke_timer = Some(state.now_ms);
    for (id, bytes) in [("slow_peer", 10u64), ("fast_peer", 10_000), ("med_peer_0", 100), ("med_peer_1", 100), ("med_peer_2", 100)] {
        add_peer(&mut state, id);
        let p = state.peers.iter_mut().find(|p| p.ip_port == id).unwrap();
        p.peer_is_interested_in_us = true;
        p.bytes_downloaded_from_peer = bytes;
        if id == "slow_peer" {
            p.am_choking = ChokeStatus::Unchoke;
        }
    }
    let effects = state.update(Action::RecalculateChokes { random_seed: 7 });
    assert!(effects.iter().any(|e| matches!(e, Effect::SendToPeer { peer_id, cmd: PeerCommand::Choke } if peer_id == "slow_peer")));
    assert!(effects.iter().any(|e| matches!(e, Effect::SendToPeer { peer_id, cmd: PeerCommand::Unchoke } if peer_id == "fast_peer")));
    let unchoked = state.peers.iter().filter(|p| p.am_choking == ChokeStatus::Unchoke).count();
    assert_eq!(unchoked, 4);
    assert!(state.peers.iter().all(|p| p.bytes_downloaded_from_peer == 0));
}

#[test]
fn machine_piece_verified_valid_triggers_write() {
    let mut state = state_with_pieces(4, Vec::new());
    state.torrent_status = TorrentStatus::Standard;
    state.verifying_pieces.insert(1);
    let effects = state.update(Action::PieceVerified { peer_id: "peer_1".into(), piece_index: 1, valid: true, data: vec![1, 2, 3] });
    assert!(matches!(&effects[0], Effect::WriteToDisk { peer_id, piece_index: 1, data } if peer_id == "peer_1" && data == &vec![1u8, 2, 3]));
    assert!(!state.verifying_pieces.contains(&1));
}

#[test]
fn machine_piece_verified_invalid_disconnects_peer() {
    let mut state = state_with_pieces(4, Vec::new());
    let effects = state.update(Action::PieceVerified { peer_id: "bad_peer".into(), piece_index: 2, valid: false, data: vec![] });
    assert!(matches!(&effects[0], Effect::DisconnectPeer { peer_id } if peer_id == "bad_peer"));
    let effects = state.update(Action::PieceVerified { peer_id: "bad_peer".into(), piece_index: 9, valid: false, data: vec![] });
    assert!(matches!(effects[0], Effect::DoNothing));
}

#[test]
fn machine_delete_resets_and_reports() {
    let mut state = state_with_pieces(3, Vec::new());
    add_peer(&mut state, "p");
    state.done[0] = true;
    state.session_total_downloaded = 99;
    let effects = state.update(Action::Delete);
    assert!(matches!(&effects[0], Effect::EmitManagerEvent(ManagerEvent::DeletionComplete(h, Ok(()))) if h == &vec![0u8; 20]));
    assert!(state.peers.is_empty());
    assert_eq!(state.done, vec![false; 3]);
    assert_eq!(state.session_total_downloaded, 0);
    assert!(state.is_paused);
    assert_eq!(state.torrent_status, TorrentStatus::Validating);
    state.has_file_layout = true;
    let effects = state.update(Action::Delete);
    assert!(matches!(effects[0], Effect::DeleteFiles));
}

#[test]
fn machine_admission_guard() {
    let mut state = create_empty_state();
    state.now_ms = 100;
    assert!(matches!(state.admit_peer("1.2.3.4", 80), Some(DialDecision::Dial)));
    add_peer(&mut state, "1.2.3.4:80");
    assert!(matches!(state.admit_peer("1.2.3.4", 80), Some(DialDecision::AlreadyConnected)));
    state.timed_out_peers.push(("5.6.7.8:1".to_string(), 1, 500));
    assert!(matches!(state.admit_peer("5.6.7.8", 1), Some(DialDecision::Backoff)));
    state.accepting_new_peers = false;
    assert!(state.admit_peer("9.9.9.9", 9).is_none());
}

fn state_with_geometry(piece_length: u64, total_length: u64, num_pieces: usize) -> TorrentState {
    let meta = TorrentMeta { total_length, piece_length, num_pieces, web_seeds: Vec::new() };
    let mut state = TorrentState::new(vec![0; 20], Some(meta), Vec::new(), 0);
    state.has_data_path = true;
    state.block_manager.set_geometry(
        piece_length as u32,
        total_length,
        vec![],
        vec![],
        std::collections::HashMap::new(),
        false,
    );
    state
}

fn sends_bulk_request(effects: &[Effect]) -> bool {
    effects
        .iter()
        .any(|e| matches!(e, Effect::SendToPeer { cmd: PeerCommand::BulkRequest(_), .. }))
}

#[test]
fn test_recalculate_chokes_unchokes_fastest_downloader() {
    let mut state = create_empty_state();
    state.torrent_status = TorrentStatus::Standard;
    state.optimistic_unchoke_timer = Some(state.now_ms);

    add_peer(&mut state, "slow_peer");
    {
        let p = state.peers.iter_mut().find(|p| p.ip_port == "slow_peer").unwrap();
        p.peer_is_interested_in_us = true;
        p.bytes_downloaded_from_peer = 10;
        p.am_choking = ChokeStatus::Unchoke;
    }
    add_peer(&mut state, "fast_peer");
    {
        let p = state.peers.iter_mut().find(|p| p.ip_port == "fast_peer").unwrap();
        p.peer_is_interested_in_us = true;
        p.bytes_downloaded_from_peer = 10_000;
    }
    for i in 1..=3 {
        let id = format!("med_peer_{}", i);
        add_peer(&mut state, &id);
        let p = state.peers.iter_mut().find(|p| p.ip_port == id).unwrap();
        p.peer_is_interested_in_us = true;
        p.bytes_downloaded_from_peer = 100;
    }

    let effects = state.update(Action::RecalculateChokes { random_seed: 0 });

    assert_eq!(peer(&state, "fast_peer").am_choking, ChokeStatus::Unchoke);
    assert_eq!(peer(&state, "slow_peer").am_choking, ChokeStatus::Choke);
    assert!(effects.iter().any(|e| matches!(e, Effect::SendToPeer { peer_id, cmd: PeerCommand::Choke } if peer_id == "slow_peer")));
    let unchoked = state.peers.iter().filter(|p| p.am_choking == ChokeStatus::Unchoke).count();
    assert_eq!(unchoked, 4);
}

#[test]
fn test_assign_work_requests_piece_peer_has() {
    let mut state = state_with_geometry(16384, 163840, 10);
    state.torrent_status = TorrentStatus::Standard;
    add_peer(&mut state, "peer_A");
    {
        let p = &mut state.peers[0];
        p.peer_choking = ChokeStatus::Unchoke;
        p.bitfield = vec![false; 10];
        p.bitfield[0] = true;
    }
    state.need_queue.push(0);

    let effects = state.update(Action::AssignWork { peer_id: "peer_A".to_string() });

    let request = effects.iter().find_map(|e| match e {
        Effect::SendToPeer { cmd: PeerCommand::BulkRequest(reqs), .. } => reqs.first().map(|r| r.0),
        _ => None,
    });
    assert_eq!(request, Some(0));
}

#[test]
fn test_piece_verified_valid_trigger_write() {
    let mut state = state_with_pieces(5, Vec::new());
    let data = vec![1u8, 2, 3, 4];
    let effects = state.update(Action::PieceVerified {
        peer_id: "peer_1".into(),
        piece_index: 1,
        valid: true,
        data: data.clone(),
    });
    assert!(effects.iter().any(|e| matches!(e, Effect::WriteToDisk { piece_index: 1, .. })));
}

#[test]
fn test_piece_verified_invalid_disconnects_peer() {
    let mut state = state_with_pieces(5, Vec::new());
    let effects = state.update(Action::PieceVerified {
        peer_id: "bad_peer".into(),
        piece_index: 1,
        valid: false,
        data: vec![],
    });
    assert!(effects.iter().any(|e| matches!(e, Effect::DisconnectPeer { peer_id } if peer_id == "bad_peer")));
}

#[test]
fn test_enter_endgame_mode() {
    let mut state = state_with_geometry(16384, 16384 * 2, 2);
    state.torrent_status = TorrentStatus::Standard;

    add_peer(&mut state, "peer_A");
    {
        let p = &mut state.peers[0];
        p.bitfield = vec![true, true];
        p.peer_choking = ChokeStatus::Unchoke;
    }
    // Piece 0 is already in flight with another peer.
    add_peer(&mut state, "other_peer");
    {
        let p = &mut state.peers[1];
        p.bitfield = vec![true, true];
        p.peer_choking = ChokeStatus::Unchoke;
        p.am_interested = true;
        p.pending_requests = vec![0];
    }
    state.pending_queue = vec![0];
    state.need_queue = vec![1];

    let _ = state.update(Action::AssignWork { peer_id: "peer_A".into() });

    assert!(state.need_queue.is_empty());
    assert_eq!(state.torrent_status, TorrentStatus::Endgame);
}

#[test]
fn test_assign_work_sends_interested_even_if_unchoked() {
    let mut state = state_with_geometry(16384, 163840, 1);
    state.torrent_status = TorrentStatus::Standard;
    state.need_queue = vec![0];

    add_peer(&mut state, "generous_seeder");
    {
        let p = &mut state.peers[0];
        p.bitfield = vec![true];
        p.peer_choking = ChokeStatus::Unchoke;
        p.am_interested = false;
    }

    let effects = state.update(Action::AssignWork { peer_id: "generous_seeder".to_string() });

    let sent_interested = effects
        .iter()
        .any(|e| matches!(e, Effect::SendToPeer { cmd: PeerCommand::ClientInterested, .. }));
    let sent_request = effects.iter().any(|e| {
        matches!(e, Effect::SendToPeer { cmd: PeerCommand::BulkRequest(reqs), .. }
            if !reqs.is_empty() && reqs[0].0 == 0)
    });
    assert!(sent_interested);
    assert!(sent_request);
    assert!(peer(&state, "generous_seeder").am_interested);
}

#[test]
fn test_non_aligned_choke_disconnect_requeues_without_ghost_pending() {
    let mut state = state_with_geometry(20_000, 40_000, 2);
    state.torrent_status = TorrentStatus::Standard;

    add_peer(&mut state, "race_peer");
    {
        let p = &mut state.peers[0];
        p.peer_choking = ChokeStatus::Unchoke;
        p.bitfield = vec![true, true];
        p.pending_requests = vec![1];
        p.am_interested = true;
    }
    state.pending_queue = vec![1];

    let _ = state.update(Action::PeerChoked { peer_id: "race_peer".to_string() });
    let _ = state.update(Action::PeerDisconnected { peer_id: "race_peer".to_string(), force: true });

    assert!(!state.pending_queue.contains(&1));
    assert!(state.need_queue.contains(&1));
    assert!(!state.peers.iter().any(|p| p.ip_port == "race_peer"));
}

#[test]
fn test_assign_work_is_blocked_when_path_is_missing() {
    let num_pieces = 5usize;
    let mut state = state_with_geometry(16384, (16384 * num_pieces) as u64, num_pieces);
    state.torrent_status = TorrentStatus::Standard;
    state.need_queue = (0..num_pieces as u32).collect();
    state.has_data_path = false;

    add_peer(&mut state, "seeder_peer");
    {
        let p = &mut state.peers[0];
        p.peer_choking = ChokeStatus::Unchoke;
        p.bitfield = vec![true; num_pieces];
    }

    let effects = state.update(Action::AssignWork { peer_id: "seeder_peer".to_string() });

    assert!(!sends_bulk_request(&effects));
    assert!(peer(&state, "seeder_peer").pending_requests.is_empty());
}

#[test]
fn test_delete_action_without_path_emits_completion() {
    let mut state = state_with_pieces(5, Vec::new());
    let info_hash = state.info_hash.clone();
    state.has_data_path = false;
    state.has_file_layout = false;
    state.torrent_status = TorrentStatus::Validating;

    let effects = state.update(Action::Delete);

    assert!(!effects.iter().any(|e| matches!(e, Effect::DeleteFiles)));
    let completion = effects.iter().find(|e| {
        matches!(e, Effect::EmitManagerEvent(ManagerEvent::DeletionComplete(hash, result))
            if hash == &info_hash && result.is_ok())
    });
    assert!(completion.is_some());
    assert!(state.is_paused);
    assert_eq!(state.torrent_status, TorrentStatus::Validating);
    assert_eq!(state.last_activity, superseedr::state::TorrentActivity::Initializing);
}
