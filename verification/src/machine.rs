//! The torrent's state machine: what the manager keeps for one torrent, the
//! events it reacts to, and the effects it hands to its runtime to carry out.
//!
//! `TorrentState::update` takes one event and answers the effects in order;
//! the runtime performs them (messages to peers, announces, disk work) and
//! feeds what comes back in as further events. Times are milliseconds on the
//! manager's monotonic clock.
use crate::peer::{sat_add, PeerState};
use crate::block_manager::count_true;
use crate::state::{
    check_completion, spec_check_completion, ChokeStatus, CompletionCheck, EffectivePiecePriority,
    TorrentActivity, TorrentStatus,
};
use crate::tracker::{
    MAX_PEER_BACKOFF_SECS, MAX_PEER_FAILURES, after_secs, announce_due, apply_tracker_error, due_positions, spec_ticked, tick_trackers, apply_tracker_response, record_peer_failure,
    spec_announce_interval, spec_leeching_interval_from, spec_next_failure_count,
    spec_peer_backoff_secs, spec_seeding_interval_from, spec_tracker_error_backoff, TrackerState,
};
use crate::assign::{
    available_slots, choose_pieces_to_start, is_candidate_order, local_block_count, piece_picks,
    pieces_at, request_blocks_for_piece, should_be_interested, spec_available_slots,
    spec_should_be_interested, MAX_PIPELINE_DEPTH,
};
use crate::block_manager::{clip, BlockManager};
use crate::geometry::FileRoot;
use std::collections::{HashMap, HashSet};
use vstd::prelude::*;

verus! {

broadcast use vstd::std_specs::hash::group_hash_axioms;

/// A message for one peer session.
#[derive(Debug)]
pub enum PeerCommand {
    Choke,
    Unchoke,
    ClientInterested,
    NotInterested,
    /// Block requests (piece, offset, length).
    BulkRequest(Vec<(u32, u32, u32)>),
    /// Withdrawn block requests (piece, offset, length).
    BulkCancel(Vec<(u32, u32, u32)>),
}

/// What the manager reports to the application about this torrent.
#[derive(Debug)]
pub enum ManagerEvent {
    PeerConnected,
    PeerDisconnected,
    BlockSent,
    DiskWriteFinished,
    /// The torrent's data was removed (or there was nothing to remove): its
    /// info hash and the outcome.
    DeletionComplete(Vec<u8>, Result<(), String>),
}

/// Work the runtime carries out for the state machine.
#[derive(Debug)]
pub enum Effect {
    DoNothing,
    EmitMetrics { bytes_dl: u64, bytes_ul: u64 },
    EmitManagerEvent(ManagerEvent),
    SendToPeer { peer_id: String, cmd: PeerCommand },
    DisconnectPeer { peer_id: String },
    AnnounceCompleted { url: String },
    WriteToDisk { peer_id: String, piece_index: u32, data: Vec<u8> },
    ReadFromDisk { peer_id: String, piece_index: u32, offset: u32, length: u32 },
    BroadcastHave { piece_index: u32 },
    ConnectToPeer { ip: String, port: u16 },
    /// Dial a peer known from before a pause, by its "ip:port" key.
    ReconnectPeer { addr: String },
    StartWebSeed { url: String },
    StartValidation,
    AnnounceToTracker { url: String },
    ConnectToPeersFromTrackers,
    AbortUpload { peer_id: String, piece_index: u32, offset: u32, length: u32 },
    ClearAllUploads,
    DeleteFiles,
    TriggerDhtSearch,
    PrepareShutdown { tracker_urls: Vec<String>, left: u64, uploaded: u64, downloaded: u64 },
}

/// The events the state machine reacts to.
#[derive(Debug)]
pub enum Action {
    TorrentManagerInit { is_paused: bool, announce_immediately: bool },
    Tick { dt_ms: u64 },
    RecalculateChokes { random_seed: u64 },
    CheckCompletion,
    AssignWork { peer_id: String },
    ConnectToWebSeeds,
    RegisterPeer { peer_id: String },
    PeerSuccessfullyConnected { peer_id: String },
    PeerDisconnected { peer_id: String, force: bool },
    UpdatePeerId { peer_addr: String, new_id: Vec<u8> },
    PeerBitfieldReceived { peer_id: String, bitfield: Vec<u8> },
    PeerChoked { peer_id: String },
    PeerUnchoked { peer_id: String },
    PeerInterested { peer_id: String },
    PeerHavePiece { peer_id: String, piece_index: u32 },
    PieceVerified { peer_id: String, piece_index: u32, valid: bool, data: Vec<u8> },
    PieceWriteFailed { piece_index: u32 },
    RequestUpload { peer_id: String, piece_index: u32, block_offset: u32, length: u32 },
    TrackerResponse {
        url: String,
        peers: Vec<(String, u16)>,
        interval: u64,
        min_interval: Option<u64>,
    },
    TrackerError { url: String },
    PeerConnectionFailed { peer_addr: String },
    CancelUpload { peer_id: String, piece_index: u32, block_offset: u32, length: u32 },
    BlockSentToPeer { peer_id: String, byte_count: u64 },
    Pause,
    Resume,
    Delete,
    UpdateListenPort,
    ValidationProgress { count: u32 },
    Shutdown,
    FatalError,
}

/// Everything the manager keeps for one torrent.
#[derive(Debug)]
pub struct TorrentState {
    pub info_hash: Vec<u8>,
    /// The torrent's metadata is known.
    pub has_metadata: bool,
    /// Total payload bytes, once the metadata is known.
    pub total_length: u64,
    /// Bytes per piece, once the metadata is known.
    pub piece_length: u64,
    /// The web seeds the metadata lists.
    pub web_seeds: Vec<String>,
    pub is_paused: bool,
    pub torrent_status: TorrentStatus,
    pub last_activity: TorrentActivity,
    pub has_made_first_connection: bool,
    pub session_total_uploaded: u64,
    pub session_total_downloaded: u64,
    pub bytes_downloaded_in_interval: u64,
    pub bytes_uploaded_in_interval: u64,
    pub number_of_successfully_connected_peers: usize,
    /// The connected peers, each known by its `ip_port`, each listed once.
    pub peers: Vec<PeerState>,
    /// Which pieces are done.
    pub done: Vec<bool>,
    /// How much each piece is wanted; empty when no priorities are set.
    pub piece_priorities: Vec<EffectivePiecePriority>,
    /// Pieces still to be started.
    pub need_queue: Vec<u32>,
    /// Pieces some peer is working on.
    pub pending_queue: Vec<u32>,
    /// The trackers' URLs, parallel to `trackers`.
    pub tracker_urls: Vec<String>,
    pub trackers: Vec<TrackerState>,
    /// Peer addresses that failed to connect: (address, failures, next attempt).
    pub timed_out_peers: Vec<(String, u32, u64)>,
    /// The peers connected when the torrent was last paused.
    pub last_known_peers: Vec<String>,
    pub optimistic_unchoke_timer: Option<u64>,
    pub validation_pieces_found: u32,
    pub now_ms: u64,
    pub has_started_announce_sent: bool,
    /// Pieces being hashed.
    pub verifying_pieces: HashSet<u32>,
    /// The block bookkeeping.
    pub block_manager: BlockManager,
    /// For each piece of a v2 torrent, the file it lies in.
    pub piece_roots: HashMap<u32, FileRoot>,
    /// The user chose where the data lives.
    pub has_data_path: bool,
    /// The data's file layout is known.
    pub has_file_layout: bool,
    pub pending_disconnects: Vec<String>,
    pub pending_failures: Vec<String>,
    /// New peer connections are taken.
    pub accepting_new_peers: bool,
}

/// The position of the peer known as `id`, if one is.
pub open spec fn peer_pos(peers: Seq<PeerState>, id: Seq<char>) -> Option<int> {
    if exists|i: int| 0 <= i < peers.len() && (#[trigger] peers[i]).ip_port@ == id {
        Some(choose|i: int| 0 <= i < peers.len() && (#[trigger] peers[i]).ip_port@ == id)
    } else {
        None
    }
}

/// No two peers share an `ip_port`.
pub open spec fn peer_ids_unique(peers: Seq<PeerState>) -> bool {
    forall|i: int, j: int|
        0 <= i < peers.len() && 0 <= j < peers.len() && i != j ==> (#[trigger] peers[i]).ip_port@
            != (#[trigger] peers[j]).ip_port@
}

/// The position of `url` among the trackers, if it is one.
pub open spec fn tracker_pos(urls: Seq<String>, url: Seq<char>) -> Option<int> {
    if exists|i: int| 0 <= i < urls.len() && (#[trigger] urls[i])@ == url {
        Some(choose|i: int| 0 <= i < urls.len() && (#[trigger] urls[i])@ == url)
    } else {
        None
    }
}

/// No URL is listed twice.
pub open spec fn urls_unique(urls: Seq<String>) -> bool {
    forall|i: int, j: int|
        0 <= i < urls.len() && 0 <= j < urls.len() && i != j ==> (#[trigger] urls[i])@
            != (#[trigger] urls[j])@
}

/// One announce per tracker, in order.
pub open spec fn announce_all(urls: Seq<String>) -> Seq<Effect> {
    urls.map_values(|u: String| Effect::AnnounceToTracker { url: u })
}

/// One web seed start per listed seed, in order.
pub open spec fn start_web_seeds(urls: Seq<String>) -> Seq<Effect> {
    urls.map_values(|u: String| Effect::StartWebSeed { url: u })
}

/// `piece` is in a queue that lists each piece once.
pub open spec fn queued(q: Seq<u32>, piece: u32) -> bool {
    q.contains(piece)
}

/// The queue without `p`.
pub open spec fn without(q: Seq<u32>, p: u32) -> Seq<u32> {
    if q.contains(p) {
        q.remove(q.index_of(p))
    } else {
        q
    }
}

/// A piece handed back from a peer: unless it is done, it leaves the pending
/// queue and goes (once) to the back of the need queue.
pub open spec fn requeue_one(need: Seq<u32>, pending: Seq<u32>, done: Seq<bool>, p: u32) -> (
    Seq<u32>,
    Seq<u32>,
) {
    if p < done.len() && done[p as int] {
        (need, pending)
    } else {
        (if need.contains(p) {
            need
        } else {
            need.push(p)
        }, without(pending, p))
    }
}

/// The pieces `ps` handed back in order.
pub open spec fn requeue_all(need: Seq<u32>, pending: Seq<u32>, done: Seq<bool>, ps: Seq<u32>) -> (
    Seq<u32>,
    Seq<u32>,
)
    decreases ps.len(),
{
    if ps.len() == 0 {
        (need, pending)
    } else {
        let r = requeue_all(need, pending, done, ps.drop_last());
        requeue_one(r.0, r.1, done, ps.last())
    }
}

pub proof fn lemma_without(q: Seq<u32>, p: u32)
    requires
        q.no_duplicates(),
    ensures
        without(q, p).no_duplicates(),
        forall|x: u32| #[trigger] without(q, p).contains(x) <==> (q.contains(x) && x != p),
        q.contains(p) ==> without(q, p).len() + 1 == q.len(),
{
    if q.contains(p) {
        let i = q.index_of(p);
        assert(0 <= i < q.len() && q[i] == p);
        let r = q.remove(i);
        assert forall|x: u32| #[trigger] r.contains(x) <==> (q.contains(x) && x != p) by {
            if r.contains(x) {
                let k = choose|k: int| 0 <= k < r.len() && r[k] == x;
                if k < i {
                    assert(q[k] == x);
                } else {
                    assert(q[k + 1] == x);
                }
            }
            if q.contains(x) && x != p {
                let k = choose|k: int| 0 <= k < q.len() && q[k] == x;
                assert(k != i);
                if k < i {
                    assert(r[k] == x);
                } else {
                    assert(r[k - 1] == x);
                }
            }
        }
        assert forall|a: int, b: int| 0 <= a < r.len() && 0 <= b < r.len() && a != b implies r[a]
            != r[b] by {
            let qa = if a < i {
                a
            } else {
                a + 1
            };
            let qb = if b < i {
                b
            } else {
                b + 1
            };
            assert(r[a] == q[qa]);
            assert(r[b] == q[qb]);
        }
    }
}

/// What holds of the peers between any two events: each is well formed and
/// known by its own address; a peer choking us has no work from us; we are
/// interested in every peer we wait on; when done, we are interested in none.
pub open spec fn peers_ok(peers: Seq<PeerState>, status: TorrentStatus) -> bool {
    &&& forall|i: int| 0 <= i < peers.len() ==> (#[trigger] peers[i]).wf()
    &&& peer_ids_unique(peers)
    &&& forall|i: int|
        0 <= i < peers.len() && (#[trigger] peers[i]).peer_choking == ChokeStatus::Choke
            ==> peers[i].pending_requests@.len() == 0
    &&& forall|i: int|
        0 <= i < peers.len() && (#[trigger] peers[i]).pending_requests@.len() > 0
            ==> peers[i].am_interested
}

/// The need and pending queues list each piece once, and no piece is in both.
pub open spec fn queues_ok(need: Seq<u32>, pending: Seq<u32>) -> bool {
    &&& need.no_duplicates()
    &&& pending.no_duplicates()
    &&& forall|p: u32| #[trigger] queued(need, p) ==> !pending.contains(p)
}

impl TorrentState {
    /// What holds of the state between any two events.
    pub open spec fn inv(&self) -> bool {
        &&& self.tracker_urls@.len() == self.trackers@.len()
        &&& urls_unique(self.tracker_urls@)
        &&& peers_ok(self.peers@, self.torrent_status)
        &&& queues_ok(self.need_queue@, self.pending_queue@)
        &&& self.piece_priorities@.len() == 0 || self.piece_priorities@.len() == self.done@.len()
        &&& self.piece_length <= u32::MAX
        &&& self.block_manager.wf()
        &&& forall|k: int|
            0 <= k < self.timed_out_peers@.len() ==> (#[trigger] self.timed_out_peers@[k]).1
                <= crate::tracker::MAX_PEER_FAILURES
    }

    /// Once done, nothing is left to start or in flight, and we are
    /// interested in no peer.
    pub open spec fn done_settled(&self) -> bool {
        self.torrent_status == TorrentStatus::Done ==> {
            &&& self.need_queue@.len() == 0
            &&& self.pending_queue@.len() == 0
            &&& forall|i: int| 0 <= i < self.peers@.len() ==> !(#[trigger] self.peers@[i]).am_interested
        }
    }
}

/// Some peer works on piece `p`.
pub open spec fn held(peers: Seq<PeerState>, p: u32) -> bool {
    exists|i: int| 0 <= i < peers.len() && (#[trigger] peers[i]).pending_requests@.contains(p)
}

/// The bytes the peers sent us in all.
pub open spec fn total_downloaded(peers: Seq<PeerState>) -> int
    decreases peers.len(),
{
    if peers.len() == 0 {
        0
    } else {
        total_downloaded(peers.drop_last()) + peers.last().total_bytes_downloaded
    }
}

/// The bytes we sent the peers in all.
pub open spec fn total_uploaded(peers: Seq<PeerState>) -> int
    decreases peers.len(),
{
    if peers.len() == 0 {
        0
    } else {
        total_uploaded(peers.drop_last()) + peers.last().total_bytes_uploaded
    }
}

impl TorrentState {
    /// How the queues, the peers' work and the counters agree: every piece in
    /// flight is worked on by some peer, and no piece in flight or still
    /// needed is done; a peer is only asked for pieces it has and that are not
    /// waiting to be started; in endgame nothing is left to start, and outside
    /// endgame no two peers work on the same piece; the connected count is the
    /// number of peers; and the session's transfer totals are at least the
    /// peers' (unless the session counter stopped at its maximum).
    pub open spec fn consistent(&self) -> bool {
        &&& forall|p: u32| #[trigger]
            self.pending_queue@.contains(p) ==> held(self.peers@, p) && p < self.done@.len()
                && !self.done@[p as int]
        &&& forall|p: u32| #[trigger]
            queued(self.need_queue@, p) ==> p < self.done@.len() && !self.done@[p as int]
        &&& forall|i: int, p: u32|
            0 <= i < self.peers@.len() && #[trigger] self.peers@[i].pending_requests@.contains(p)
                ==> crate::assign::peer_has(self.peers@[i].bitfield@, p)
                && !self.need_queue@.contains(p) && p < self.done@.len()
        &&& self.torrent_status == TorrentStatus::Endgame ==> self.need_queue@.len() == 0
        &&& self.number_of_successfully_connected_peers == self.peers@.len()
        &&& self.session_total_downloaded >= total_downloaded(self.peers@)
            || self.session_total_downloaded == u64::MAX
        &&& self.session_total_uploaded >= total_uploaded(self.peers@)
            || self.session_total_uploaded == u64::MAX
        &&& self.torrent_status != TorrentStatus::Endgame ==> forall|i: int, j: int, p: u32|
            #![trigger self.peers@[i].pending_requests@.contains(p), self.peers@[j].pending_requests@.contains(p)]
            0 <= i < self.peers@.len() && 0 <= j < self.peers@.len() && i != j
                && self.peers@[i].pending_requests@.contains(p)
                ==> !self.peers@[j].pending_requests@.contains(p)
    }
}

/// `id` is one of the listed addresses.
pub open spec fn in_ids(ids: Seq<String>, id: Seq<char>) -> bool {
    exists|k: int| 0 <= k < ids.len() && (#[trigger] ids[k])@ == id
}

/// The events on which the original manager itself lets the queues, the
/// peers' work and the counters drift apart (see `consistent`): a new peer is
/// registered without being counted; shutdown drops the peers but keeps the
/// connected count and the pieces in flight; and, in endgame, a peer that
/// chokes us or leaves, or a pause, hands work back to the need queue; a failed
/// write hands its piece back while a peer still works on it, or in endgame.
pub open spec fn disturbs(s: TorrentState, a: Action) -> bool {
    match a {
        Action::RegisterPeer { peer_id } => peer_pos(s.peers@, peer_id@) is None,
        Action::Shutdown => s.peers@.len() > 0,
        Action::PieceWriteFailed { piece_index } => piece_index < s.done@.len()
            && !s.done@[piece_index as int] && (s.torrent_status == TorrentStatus::Endgame || held(
            s.peers@,
            piece_index,
        )),
        Action::PeerChoked { peer_id } => s.torrent_status == TorrentStatus::Endgame && match peer_pos(
            s.peers@,
            peer_id@,
        ) {
            Some(i) => s.peers@[i].pending_requests@.len() > 0,
            None => false,
        },
        Action::PeerDisconnected { peer_id, force } => {
            let batch = if peer_id@.len() > 0 {
                s.pending_disconnects@.push(peer_id)
            } else {
                s.pending_disconnects@
            };
            let waits = (!force && batch.len() < crate::session::PEER_BATCH_SIZE) || batch.len() == 0;
            &&& s.torrent_status == TorrentStatus::Endgame
            &&& !waits
            &&& exists|i: int|
                0 <= i < s.peers@.len() && (#[trigger] s.peers@[i]).pending_requests@.len() > 0
                    && in_ids(batch, s.peers@[i].ip_port@)
        },
        Action::Pause => s.torrent_status == TorrentStatus::Endgame && s.pending_queue@.len() > 0,
        Action::FatalError => s.torrent_status == TorrentStatus::Endgame && s.pending_queue@.len() > 0,
        _ => false,
    }
}

proof fn lemma_totals_same(a: Seq<PeerState>, b: Seq<PeerState>)
    requires
        a.len() == b.len(),
        forall|i: int|
            0 <= i < a.len() ==> (#[trigger] a[i]).total_bytes_downloaded == b[i].total_bytes_downloaded
                && a[i].total_bytes_uploaded == b[i].total_bytes_uploaded,
    ensures
        total_downloaded(a) == total_downloaded(b),
        total_uploaded(a) == total_uploaded(b),
    decreases a.len(),
{
    if a.len() > 0 {
        lemma_totals_same(a.drop_last(), b.drop_last());
        assert(a.last() == a[a.len() - 1]);
    }
}

proof fn lemma_totals_nonneg(a: Seq<PeerState>)
    ensures
        total_downloaded(a) >= 0,
        total_uploaded(a) >= 0,
    decreases a.len(),
{
    if a.len() > 0 {
        lemma_totals_nonneg(a.drop_last());
    }
}

proof fn lemma_totals_update(a: Seq<PeerState>, i: int, x: PeerState)
    requires
        0 <= i < a.len(),
    ensures
        total_downloaded(a.update(i, x)) == total_downloaded(a) - a[i].total_bytes_downloaded
            + x.total_bytes_downloaded,
        total_uploaded(a.update(i, x)) == total_uploaded(a) - a[i].total_bytes_uploaded
            + x.total_bytes_uploaded,
    decreases a.len(),
{
    let b = a.update(i, x);
    if i < a.len() - 1 {
        assert(b.drop_last() =~= a.drop_last().update(i, x));
        lemma_totals_update(a.drop_last(), i, x);
    } else {
        assert(b.drop_last() =~= a.drop_last());
    }
}

proof fn lemma_totals_remove(a: Seq<PeerState>, i: int)
    requires
        0 <= i < a.len(),
    ensures
        total_downloaded(a.remove(i)) == total_downloaded(a) - a[i].total_bytes_downloaded,
        total_uploaded(a.remove(i)) == total_uploaded(a) - a[i].total_bytes_uploaded,
    decreases a.len(),
{
    let b = a.remove(i);
    if i < a.len() - 1 {
        assert(b.drop_last() =~= a.drop_last().remove(i));
        assert(b.last() == a.last());
        lemma_totals_remove(a.drop_last(), i);
    } else {
        assert(b =~= a.drop_last());
    }
}

/// A state whose queues and peers' work are all empty, with the same peers'
/// totals and counters, is consistent when the first is.
proof fn lemma_cleared_work(o: TorrentState, n: TorrentState)
    requires
        o.consistent(),
        n.need_queue@.len() == 0,
        n.pending_queue@.len() == 0,
        n.peers@.len() == o.peers@.len(),
        forall|i: int|
            0 <= i < o.peers@.len() ==> (#[trigger] n.peers@[i]).pending_requests@.len() == 0
                && n.peers@[i].total_bytes_downloaded == o.peers@[i].total_bytes_downloaded
                && n.peers@[i].total_bytes_uploaded == o.peers@[i].total_bytes_uploaded,
        n.number_of_successfully_connected_peers == o.number_of_successfully_connected_peers,
        n.session_total_downloaded == o.session_total_downloaded,
        n.session_total_uploaded == o.session_total_uploaded,
    ensures
        n.consistent(),
{
    lemma_totals_same(o.peers@, n.peers@);
    assert forall|i: int, p: u32|
        0 <= i < n.peers@.len() && #[trigger] n.peers@[i].pending_requests@.contains(p) implies false by {
        assert(n.peers@[i].pending_requests@.len() == 0);
    }
    assert forall|p: u32| #[trigger] n.pending_queue@.contains(p) implies false by {}
    assert forall|p: u32| #[trigger] queued(n.need_queue@, p) implies false by {}
}

/// A piece handed back that is not done.
pub open spec fn returned(ps: Seq<u32>, done: Seq<bool>, x: u32) -> bool {
    ps.contains(x) && !(x < done.len() && done[x as int])
}

/// What handing back `ps` does to the queues, as sets: the need queue gains
/// the returned pieces, the pending queue loses them.
proof fn lemma_requeue_sets(need: Seq<u32>, pending: Seq<u32>, done: Seq<bool>, ps: Seq<u32>)
    requires
        queues_ok(need, pending),
    ensures
        queues_ok(requeue_all(need, pending, done, ps).0, requeue_all(need, pending, done, ps).1),
        forall|x: u32| #[trigger]
            requeue_all(need, pending, done, ps).0.contains(x) <==> need.contains(x) || returned(ps, done, x),
        forall|x: u32| #[trigger]
            requeue_all(need, pending, done, ps).1.contains(x) <==> pending.contains(x) && !returned(ps, done, x),
        ps.len() == 0 ==> requeue_all(need, pending, done, ps) == (need, pending),
    decreases ps.len(),
{
    if ps.len() > 0 {
        let prev = ps.drop_last();
        lemma_requeue_sets(need, pending, done, prev);
        let r = requeue_all(need, pending, done, prev);
        let p = ps.last();
        lemma_without(r.1, p);
        let q = requeue_all(need, pending, done, ps);
        assert(q == requeue_one(r.0, r.1, done, p));
        assert forall|x: u32| #[trigger] returned(ps, done, x) <==> returned(prev, done, x) || (x == p
            && !(p < done.len() && done[p as int])) by {
            if ps.contains(x) {
                let k = choose|k: int| 0 <= k < ps.len() && ps[k] == x;
                if k < ps.len() - 1 {
                    assert(prev[k] == x);
                }
            }
            if prev.contains(x) {
                let k = choose|k: int| 0 <= k < prev.len() && prev[k] == x;
                assert(ps[k] == x);
            }
            if x == p {
                assert(ps[ps.len() - 1] == x);
            }
        }
        if !(p < done.len() && done[p as int]) {
            if !r.0.contains(p) {
                assert forall|a: int, b: int| 0 <= a < q.0.len() && 0 <= b < q.0.len() && a != b implies q.0[a]
                    != q.0[b] by {
                    if a == r.0.len() as int {
                        assert(r.0[b] != p);
                    } else if b == r.0.len() as int {
                        assert(r.0[a] != p);
                    }
                }
                assert forall|x: u32| #[trigger] q.0.contains(x) <==> r.0.contains(x) || x == p by {
                    if q.0.contains(x) {
                        let k = choose|k: int| 0 <= k < q.0.len() && q.0[k] == x;
                        if k < r.0.len() {
                            assert(r.0[k] == x);
                        }
                    }
                    if r.0.contains(x) {
                        let k = choose|k: int| 0 <= k < r.0.len() && r.0[k] == x;
                        assert(q.0[k] == x);
                    }
                    if x == p {
                        assert(q.0[r.0.len() as int] == p);
                    }
                }
            }
            assert forall|x: u32| #[trigger] queued(q.0, x) implies !q.1.contains(x) by {
                if x != p {
                    assert(r.0.contains(x));
                    assert(queued(r.0, x));
                }
            }
        }
    }
}

/// A peer that stops working on its pieces (it choked us, or it left) keeps
/// the state consistent when, outside endgame or with nothing handed back,
/// its pieces go back to the need queue.
proof fn lemma_hand_back(o: TorrentState, n: TorrentState, i: int, removed: bool)
    requires
        o.consistent(),
        queues_ok(o.need_queue@, o.pending_queue@),
        0 <= i < o.peers@.len(),
        o.torrent_status != TorrentStatus::Endgame || o.peers@[i].pending_requests@.len() == 0,
        (n.need_queue@, n.pending_queue@) == requeue_all(
            o.need_queue@,
            o.pending_queue@,
            o.done@,
            o.peers@[i].pending_requests@,
        ),
        n.done == o.done,
        n.torrent_status == o.torrent_status,
        n.session_total_downloaded == o.session_total_downloaded,
        n.session_total_uploaded == o.session_total_uploaded,
        n.number_of_successfully_connected_peers == n.peers@.len(),
        removed ==> n.peers@ == o.peers@.remove(i),
        !removed ==> {
            &&& n.peers@ == o.peers@.update(i, n.peers@[i])
            &&& n.peers@[i].pending_requests@.len() == 0
            &&& n.peers@[i].total_bytes_downloaded == o.peers@[i].total_bytes_downloaded
            &&& n.peers@[i].total_bytes_uploaded == o.peers@[i].total_bytes_uploaded
        },
    ensures
        n.consistent(),
{
    let ps = o.peers@[i].pending_requests@;
    lemma_requeue_sets(o.need_queue@, o.pending_queue@, o.done@, ps);
    lemma_totals_nonneg(n.peers@);
    // Where each remaining peer stood before.
    let from = |j: int| if removed && j >= i { j + 1 } else { j };
    assert forall|j: int| 0 <= j < n.peers@.len() && (!removed ==> j != i) implies n.peers@[j] == o.peers@[from(j)]
        && from(j) != i && 0 <= from(j) < o.peers@.len() by {}
    if removed {
        lemma_totals_remove(o.peers@, i);
    } else {
        lemma_totals_update(o.peers@, i, n.peers@[i]);
    }
    assert forall|p: u32| #[trigger] n.pending_queue@.contains(p) implies held(n.peers@, p) && p < n.done@.len()
        && !n.done@[p as int] by {
        assert(o.pending_queue@.contains(p) && !returned(ps, o.done@, p));
        assert(held(o.peers@, p));
        let k = choose|k: int| 0 <= k < o.peers@.len() && (#[trigger] o.peers@[k]).pending_requests@.contains(p);
        if k == i {
            assert(ps.contains(p));
        } else {
            let j = if removed && k > i { k - 1 } else { k };
            assert(n.peers@[j] == o.peers@[k]);
            assert(n.peers@[j].pending_requests@.contains(p));
        }
    }
    assert forall|p: u32| #[trigger] queued(n.need_queue@, p) implies p < n.done@.len() && !n.done@[p as int] by {
        if o.need_queue@.contains(p) {
            assert(queued(o.need_queue@, p));
        } else {
            assert(returned(ps, o.done@, p));
            assert(o.peers@[i].pending_requests@.contains(p));
        }
    }
    assert forall|j: int, p: u32|
        0 <= j < n.peers@.len() && #[trigger] n.peers@[j].pending_requests@.contains(p) implies crate::assign::peer_has(n.peers@[j].bitfield@, p)
            && !n.need_queue@.contains(p) by {
        if !removed && j == i {
            assert(n.peers@[i].pending_requests@.len() == 0);
        } else {
            let k = from(j);
            assert(o.peers@[k].pending_requests@.contains(p));
            if returned(ps, o.done@, p) {
                assert(o.peers@[i].pending_requests@.contains(p));
                assert(o.torrent_status != TorrentStatus::Endgame);
            }
        }
    }
    if n.torrent_status == TorrentStatus::Endgame {
        assert(ps.len() == 0);
        assert(n.need_queue@ == o.need_queue@);
    }
    if n.torrent_status != TorrentStatus::Endgame {
        assert forall|a: int, b: int, p: u32|
            0 <= a < n.peers@.len() && 0 <= b < n.peers@.len() && a != b
                && n.peers@[a].pending_requests@.contains(p) implies !n.peers@[b].pending_requests@.contains(p) by {
            if !removed && (a == i || b == i) {
                assert(n.peers@[i].pending_requests@.len() == 0);
                if a == i {
                    assert(!n.peers@[a].pending_requests@.contains(p));
                }
            } else {
                assert(o.peers@[from(a)].pending_requests@.contains(p));
                if n.peers@[b].pending_requests@.contains(p) {
                    assert(o.peers@[from(b)].pending_requests@.contains(p));
                }
            }
        }
    }
}

/// A state whose peers do the same work and hold the same bitfields, with
/// the same queues, is consistent when the first is and its counters agree.
proof fn lemma_same_work_counted(o: TorrentState, n: TorrentState)
    requires
        o.consistent(),
        n.peers@.len() == o.peers@.len(),
        forall|i: int|
            0 <= i < o.peers@.len() ==> (#[trigger] n.peers@[i]).pending_requests == o.peers@[i].pending_requests
                && n.peers@[i].bitfield == o.peers@[i].bitfield,
        n.need_queue == o.need_queue,
        n.pending_queue == o.pending_queue,
        n.done == o.done,
        n.torrent_status == o.torrent_status,
        n.number_of_successfully_connected_peers == n.peers@.len(),
        n.session_total_downloaded >= total_downloaded(n.peers@) || n.session_total_downloaded == u64::MAX,
        n.session_total_uploaded >= total_uploaded(n.peers@) || n.session_total_uploaded == u64::MAX,
    ensures
        n.consistent(),
{
    assert forall|p: u32| #[trigger] n.pending_queue@.contains(p) implies held(n.peers@, p) by {
        assert(held(o.peers@, p));
        let i = choose|i: int| 0 <= i < o.peers@.len() && (#[trigger] o.peers@[i]).pending_requests@.contains(p);
        assert(n.peers@[i].pending_requests@.contains(p));
    }
    assert forall|i: int, p: u32|
        0 <= i < n.peers@.len() && #[trigger] n.peers@[i].pending_requests@.contains(p) implies crate::assign::peer_has(n.peers@[i].bitfield@, p)
            && !n.need_queue@.contains(p) && p < n.done@.len() by {
        assert(o.peers@[i].pending_requests@.contains(p));
    }
    if n.torrent_status != TorrentStatus::Endgame {
        assert forall|i: int, j: int, p: u32|
            0 <= i < n.peers@.len() && 0 <= j < n.peers@.len() && i != j
                && n.peers@[i].pending_requests@.contains(p) implies !n.peers@[j].pending_requests@.contains(p) by {
            assert(o.peers@[i].pending_requests@.contains(p));
            if n.peers@[j].pending_requests@.contains(p) {
                assert(o.peers@[j].pending_requests@.contains(p));
            }
        }
    }
}

/// A failed write of a piece nobody works on, outside endgame, keeps the
/// state consistent.
proof fn lemma_write_failed(o: TorrentState, n: TorrentState, p: u32)
    requires
        o.consistent(),
        queues_ok(o.need_queue@, o.pending_queue@),
        !disturbs(o, Action::PieceWriteFailed { piece_index: p }),
        p < o.done@.len(),
        (n.need_queue@, n.pending_queue@) == requeue_one(o.need_queue@, o.pending_queue@, o.done@, p),
        n == (TorrentState { need_queue: n.need_queue, pending_queue: n.pending_queue, ..o }),
    ensures
        n.consistent(),
{
    lemma_requeue_sets(o.need_queue@, o.pending_queue@, o.done@, seq![p]);
    assert(seq![p].drop_last() =~= Seq::<u32>::empty());
    assert(seq![p].last() == p);
    assert(requeue_all(o.need_queue@, o.pending_queue@, o.done@, Seq::<u32>::empty()) == (
        o.need_queue@,
        o.pending_queue@,
    ));
    assert(requeue_all(o.need_queue@, o.pending_queue@, o.done@, seq![p]) == requeue_one(
        o.need_queue@,
        o.pending_queue@,
        o.done@,
        p,
    ));
    assert forall|x: u32| #[trigger] returned(seq![p], o.done@, x) ==> x == p by {
        if seq![p].contains(x) {
            let k = choose|k: int| 0 <= k < 1 && seq![p][k] == x;
        }
    }
    if !o.done@[p as int] {
        assert(seq![p][0] == p);
        assert(returned(seq![p], o.done@, p));
    }
    assert forall|q: u32| #[trigger] n.pending_queue@.contains(q) implies held(n.peers@, q) && q < n.done@.len()
        && !n.done@[q as int] by {}
    assert forall|q: u32| #[trigger] queued(n.need_queue@, q) implies q < n.done@.len() && !n.done@[q as int] by {
        if o.need_queue@.contains(q) {
            assert(queued(o.need_queue@, q));
        }
    }
    assert forall|i: int, q: u32|
        0 <= i < n.peers@.len() && #[trigger] n.peers@[i].pending_requests@.contains(q) implies crate::assign::peer_has(n.peers@[i].bitfield@, q)
            && !n.need_queue@.contains(q) && q < n.done@.len() by {
        if q == p && !o.done@[p as int] {
            assert(held(o.peers@, p));
        }
    }
}

/// `n` is consistent when `o` is.
#[verifier::opaque]
pub open spec fn keeps(o: TorrentState, n: TorrentState) -> bool {
    o.consistent() ==> n.consistent()
}

/// While pieces are started with peer `p0`: the state stays consistent, and
/// the pieces chosen are ones the peer has, not done, and (outside endgame)
/// worked on by no peer yet.
#[verifier::opaque]
spec fn start_ok(o: TorrentState, p0: PeerState, chosen: Seq<u32>, s: TorrentState) -> bool {
    o.consistent() ==> {
        &&& s.consistent()
        &&& forall|j: int|
            0 <= j < chosen.len() ==> crate::assign::peer_has(p0.bitfield@, #[trigger] chosen[j])
                && chosen[j] < o.done@.len() && !o.done@[chosen[j] as int]
                && (o.torrent_status != TorrentStatus::Endgame ==> forall|q: int|
                0 <= q < o.peers@.len() ==> !o.peers@[q].pending_requests@.contains(chosen[j]))
    }
}

/// The pieces chosen to start with a peer: it has them, they are not done,
/// and outside endgame no peer works on them yet.
proof fn lemma_chosen_facts(
    o: TorrentState,
    p0: PeerState,
    i: int,
    cands: Seq<u32>,
    avail: Seq<usize>,
    r: Seq<usize>,
    chosen: Seq<u32>,
    m: int,
)
    requires
        o.consistent(),
        0 <= i < o.peers@.len(),
        p0 == o.peers@[i],
        cands == candidates(o),
        is_candidate_order(cands, avail, p0.bitfield@, o.verifying_pieces@, p0.pending_requests@, r),
        m >= 0,
        chosen == clip(pieces_at(cands, r), m),
    ensures
        forall|j: int|
            0 <= j < chosen.len() ==> crate::assign::peer_has(p0.bitfield@, #[trigger] chosen[j])
                && chosen[j] < o.done@.len() && !o.done@[chosen[j] as int]
                && (o.torrent_status != TorrentStatus::Endgame ==> forall|q: int|
                0 <= q < o.peers@.len() ==> !o.peers@[q].pending_requests@.contains(chosen[j])),
{
    assert forall|j: int| 0 <= j < chosen.len() implies crate::assign::peer_has(p0.bitfield@, #[trigger] chosen[j])
        && chosen[j] < o.done@.len() && !o.done@[chosen[j] as int]
        && (o.torrent_status != TorrentStatus::Endgame ==> forall|q: int|
        0 <= q < o.peers@.len() ==> !o.peers@[q].pending_requests@.contains(chosen[j])) by {
        let x = r[j];
        assert(r.contains(x));
        let c = cands[x as int];
        assert(chosen[j] == c);
        if (x as int) < o.need_queue@.len() {
            assert(o.need_queue@[x as int] == c);
            assert(queued(o.need_queue@, c));
            assert forall|q: int| 0 <= q < o.peers@.len() implies !o.peers@[q].pending_requests@.contains(c) by {
                if o.peers@[q].pending_requests@.contains(c) {
                    assert(!o.need_queue@.contains(c));
                }
            }
        } else {
            assert(o.torrent_status == TorrentStatus::Endgame);
            assert(o.pending_queue@[x - o.need_queue@.len()] == c);
            assert(o.pending_queue@.contains(c));
        }
    }
}

/// Starting a piece with peer `i` keeps the state consistent: the piece
/// leaves the need queue and joins the pending queue and the peer's work; the
/// peer has it, it is not done, and outside endgame no other peer works on it.
proof fn lemma_start_piece(b: TorrentState, a: TorrentState, i: int, pc: u32)
    requires
        b.consistent(),
        queues_ok(b.need_queue@, b.pending_queue@),
        0 <= i < b.peers@.len(),
        a.need_queue@ == without(b.need_queue@, pc),
        a.pending_queue@ == if b.pending_queue@.contains(pc) {
            b.pending_queue@
        } else {
            b.pending_queue@.push(pc)
        },
        a.peers@ == b.peers@.update(i, a.peers@[i]),
        a.peers@[i].pending_requests@.to_set() == b.peers@[i].pending_requests@.to_set().insert(pc),
        a.peers@[i].bitfield == b.peers@[i].bitfield,
        a.peers@[i].total_bytes_downloaded == b.peers@[i].total_bytes_downloaded,
        a.peers@[i].total_bytes_uploaded == b.peers@[i].total_bytes_uploaded,
        a.done == b.done,
        a.number_of_successfully_connected_peers == b.number_of_successfully_connected_peers,
        a.session_total_downloaded == b.session_total_downloaded,
        a.session_total_uploaded == b.session_total_uploaded,
        a.torrent_status == if a.need_queue@.len() == 0 && b.torrent_status != TorrentStatus::Endgame {
            TorrentStatus::Endgame
        } else {
            b.torrent_status
        },
        crate::assign::peer_has(b.peers@[i].bitfield@, pc),
        pc < b.done@.len(),
        !b.done@[pc as int],
        b.torrent_status != TorrentStatus::Endgame ==> forall|q: int|
            0 <= q < b.peers@.len() && q != i ==> !b.peers@[q].pending_requests@.contains(pc),
    ensures
        a.consistent(),
{
    lemma_without(b.need_queue@, pc);
    lemma_totals_update(b.peers@, i, a.peers@[i]);
    assert forall|x: u32| #[trigger] a.peers@[i].pending_requests@.contains(x) <==> b.peers@[i].pending_requests@.contains(x)
        || x == pc by {
        assert(a.peers@[i].pending_requests@.to_set().contains(x) == a.peers@[i].pending_requests@.contains(x));
        assert(b.peers@[i].pending_requests@.to_set().contains(x) == b.peers@[i].pending_requests@.contains(x));
    }
    assert forall|x: u32| #[trigger] a.pending_queue@.contains(x) implies held(a.peers@, x) && x < a.done@.len()
        && !a.done@[x as int] by {
        if x == pc {
            assert(a.peers@[i].pending_requests@.contains(pc));
        } else {
            if !b.pending_queue@.contains(pc) {
                let k = choose|k: int| 0 <= k < a.pending_queue@.len() && a.pending_queue@[k] == x;
                if k < b.pending_queue@.len() {
                    assert(b.pending_queue@[k] == x);
                }
            }
            assert(b.pending_queue@.contains(x));
            assert(held(b.peers@, x));
            let q = choose|q: int| 0 <= q < b.peers@.len() && (#[trigger] b.peers@[q]).pending_requests@.contains(x);
            if q == i {
                assert(a.peers@[i].pending_requests@.contains(x));
            } else {
                assert(a.peers@[q] == b.peers@[q]);
            }
        }
    }
    assert forall|x: u32| #[trigger] queued(a.need_queue@, x) implies x < a.done@.len() && !a.done@[x as int] by {
        assert(queued(b.need_queue@, x));
    }
    assert forall|q: int, x: u32|
        0 <= q < a.peers@.len() && #[trigger] a.peers@[q].pending_requests@.contains(x) implies crate::assign::peer_has(a.peers@[q].bitfield@, x)
            && !a.need_queue@.contains(x) && x < a.done@.len() by {
        if q == i {
            if x != pc {
                assert(b.peers@[i].pending_requests@.contains(x));
            }
        } else {
            assert(a.peers@[q] == b.peers@[q]);
            assert(b.peers@[q].pending_requests@.contains(x));
        }
    }
    if a.torrent_status != TorrentStatus::Endgame {
        assert(b.torrent_status != TorrentStatus::Endgame);
        assert forall|q1: int, q2: int, x: u32|
            0 <= q1 < a.peers@.len() && 0 <= q2 < a.peers@.len() && q1 != q2
                && a.peers@[q1].pending_requests@.contains(x) implies !a.peers@[q2].pending_requests@.contains(x) by {
            if q1 == i {
                if x == pc {
                    assert(a.peers@[q2] == b.peers@[q2]);
                } else {
                    assert(b.peers@[i].pending_requests@.contains(x));
                    if a.peers@[q2].pending_requests@.contains(x) {
                        assert(a.peers@[q2] == b.peers@[q2]);
                        assert(b.peers@[q2].pending_requests@.contains(x));
                    }
                }
            } else if q2 == i {
                assert(a.peers@[q1] == b.peers@[q1]);
                assert(b.peers@[q1].pending_requests@.contains(x));
                if a.peers@[i].pending_requests@.contains(x) && x != pc {
                    assert(b.peers@[i].pending_requests@.contains(x));
                }
            } else {
                assert(a.peers@[q1] == b.peers@[q1]);
                assert(a.peers@[q2] == b.peers@[q2]);
                assert(b.peers@[q1].pending_requests@.contains(x));
            }
        }
    }
}

/// Changing one peer so that it keeps only part of its work, with a bitfield
/// that still has every piece it keeps, and drops no piece in flight that
/// nobody else works on, keeps the state consistent.
proof fn lemma_peer_work(o: TorrentState, n: TorrentState, i: int)
    requires
        o.consistent(),
        0 <= i < o.peers@.len(),
        n.peers@ == o.peers@.update(i, n.peers@[i]),
        n.peers@[i].total_bytes_downloaded == o.peers@[i].total_bytes_downloaded,
        n.peers@[i].total_bytes_uploaded == o.peers@[i].total_bytes_uploaded,
        forall|p: u32| #[trigger]
            n.peers@[i].pending_requests@.contains(p) ==> o.peers@[i].pending_requests@.contains(p)
                && crate::assign::peer_has(n.peers@[i].bitfield@, p),
        forall|p: u32| #[trigger]
            o.pending_queue@.contains(p) && o.peers@[i].pending_requests@.contains(p)
                ==> n.peers@[i].pending_requests@.contains(p),
        n.need_queue == o.need_queue,
        n.pending_queue == o.pending_queue,
        n.done == o.done,
        n.torrent_status == o.torrent_status,
        n.number_of_successfully_connected_peers == o.number_of_successfully_connected_peers,
        n.session_total_downloaded == o.session_total_downloaded,
        n.session_total_uploaded == o.session_total_uploaded,
    ensures
        n.consistent(),
{
    lemma_totals_update(o.peers@, i, n.peers@[i]);
    assert forall|p: u32| #[trigger] n.pending_queue@.contains(p) implies held(n.peers@, p) by {
        assert(held(o.peers@, p));
        let q = choose|q: int| 0 <= q < o.peers@.len() && (#[trigger] o.peers@[q]).pending_requests@.contains(p);
        if q == i {
            assert(n.peers@[i].pending_requests@.contains(p));
        } else {
            assert(n.peers@[q] == o.peers@[q]);
        }
    }
    assert forall|q: int, p: u32|
        0 <= q < n.peers@.len() && #[trigger] n.peers@[q].pending_requests@.contains(p) implies crate::assign::peer_has(n.peers@[q].bitfield@, p)
            && !n.need_queue@.contains(p) && p < n.done@.len() by {
        if q == i {
            assert(o.peers@[i].pending_requests@.contains(p));
        } else {
            assert(n.peers@[q] == o.peers@[q]);
            assert(o.peers@[q].pending_requests@.contains(p));
        }
    }
    if n.torrent_status != TorrentStatus::Endgame {
        assert forall|a: int, b: int, p: u32|
            0 <= a < n.peers@.len() && 0 <= b < n.peers@.len() && a != b
                && n.peers@[a].pending_requests@.contains(p) implies !n.peers@[b].pending_requests@.contains(p) by {
            if a == i {
                assert(o.peers@[i].pending_requests@.contains(p));
                assert(n.peers@[b] == o.peers@[b]);
            } else if b == i {
                assert(n.peers@[a] == o.peers@[a]);
                assert(o.peers@[a].pending_requests@.contains(p));
                if n.peers@[i].pending_requests@.contains(p) {
                    assert(o.peers@[i].pending_requests@.contains(p));
                }
            } else {
                assert(n.peers@[a] == o.peers@[a]);
                assert(n.peers@[b] == o.peers@[b]);
                assert(o.peers@[a].pending_requests@.contains(p));
            }
        }
    }
}

/// A state whose peers do the same work and hold the same bitfields and
/// totals, with the same queues and counters, is consistent when the first is.
proof fn lemma_same_work(o: TorrentState, n: TorrentState)
    requires
        o.consistent(),
        n.peers@.len() == o.peers@.len(),
        forall|i: int|
            0 <= i < o.peers@.len() ==> (#[trigger] n.peers@[i]).pending_requests == o.peers@[i].pending_requests
                && n.peers@[i].bitfield == o.peers@[i].bitfield && n.peers@[i].total_bytes_downloaded
                == o.peers@[i].total_bytes_downloaded && n.peers@[i].total_bytes_uploaded
                == o.peers@[i].total_bytes_uploaded,
        n.need_queue == o.need_queue,
        n.pending_queue == o.pending_queue,
        n.done == o.done,
        n.torrent_status == o.torrent_status,
        n.number_of_successfully_connected_peers == o.number_of_successfully_connected_peers,
        n.session_total_downloaded == o.session_total_downloaded,
        n.session_total_uploaded == o.session_total_uploaded,
    ensures
        n.consistent(),
{
    lemma_totals_same(o.peers@, n.peers@);
    assert forall|p: u32| #[trigger] n.pending_queue@.contains(p) implies held(n.peers@, p) by {
        assert(held(o.peers@, p));
        let i = choose|i: int| 0 <= i < o.peers@.len() && (#[trigger] o.peers@[i]).pending_requests@.contains(p);
        assert(n.peers@[i].pending_requests@.contains(p));
    }
    assert forall|i: int, p: u32|
        0 <= i < n.peers@.len() && #[trigger] n.peers@[i].pending_requests@.contains(p) implies crate::assign::peer_has(n.peers@[i].bitfield@, p)
            && !n.need_queue@.contains(p) by {
        assert(o.peers@[i].pending_requests@.contains(p));
    }
    if n.torrent_status != TorrentStatus::Endgame {
        assert forall|i: int, j: int, p: u32|
            0 <= i < n.peers@.len() && 0 <= j < n.peers@.len() && i != j
                && n.peers@[i].pending_requests@.contains(p) implies !n.peers@[j].pending_requests@.contains(p) by {
            assert(o.peers@[i].pending_requests@.contains(p));
            assert(n.peers@[j] == n.peers@[j]);
            if n.peers@[j].pending_requests@.contains(p) {
                assert(o.peers@[j].pending_requests@.contains(p));
            }
        }
    }
}

/// Changing one peer keeps the peers valid when the new peer keeps its
/// address and is valid in itself.
pub proof fn lemma_peer_update(before: Seq<PeerState>, after: Seq<PeerState>, i: int, status: TorrentStatus)
    requires
        peers_ok(before, status),
        0 <= i < before.len(),
        after == before.update(i, after[i]),
        after[i].ip_port@ == before[i].ip_port@,
        after[i].wf(),
        after[i].peer_choking == ChokeStatus::Choke ==> after[i].pending_requests@.len() == 0,
        after[i].pending_requests@.len() > 0 ==> after[i].am_interested,
    ensures
        peers_ok(after, status),
{
    assert forall|a: int, b: int|
        0 <= a < after.len() && 0 <= b < after.len() && a != b implies (
        #[trigger] after[a]).ip_port@ != (#[trigger] after[b]).ip_port@ by {
        assert(after[a].ip_port@ == before[a].ip_port@);
        assert(after[b].ip_port@ == before[b].ip_port@);
    }
    assert forall|a: int| 0 <= a < after.len() implies (#[trigger] after[a]).wf() by {
        if a != i {
            assert(before[a].wf());
        }
    }
    assert forall|a: int|
        0 <= a < after.len() && (#[trigger] after[a]).peer_choking == ChokeStatus::Choke implies after[a].pending_requests@.len()
            == 0 by {
        if a != i {
            assert(before[a].peer_choking == ChokeStatus::Choke);
        }
    }
    assert forall|a: int|
        0 <= a < after.len() && (#[trigger] after[a]).pending_requests@.len() > 0 implies after[a].am_interested by {
        if a != i {
            assert(before[a].pending_requests@.len() > 0);
        }
    }
}

fn clone_strings(v: &Vec<String>) -> (out: Vec<String>)
    ensures
        out@ == v@,
{
    let mut out: Vec<String> = Vec::new();
    let mut i: usize = 0;
    while i < v.len()
        invariant
            0 <= i <= v@.len(),
            out@ == v@.take(i as int),
        decreases v@.len() - i,
    {
        out.push(v[i].clone());
        i = i + 1;
        proof {
            assert(out@ =~= v@.take(i as int));
        }
    }
    proof {
        assert(out@ =~= v@);
    }
    out
}

fn announce_effects(urls: &Vec<String>, effects: &mut Vec<Effect>)
    ensures
        final(effects)@ == old(effects)@ + announce_all(urls@),
{
    let ghost start = effects@;
    let mut i: usize = 0;
    while i < urls.len()
        invariant
            0 <= i <= urls@.len(),
            effects@ == start + announce_all(urls@.take(i as int)),
        decreases urls@.len() - i,
    {
        effects.push(Effect::AnnounceToTracker { url: urls[i].clone() });
        i = i + 1;
        proof {
            assert(announce_all(urls@.take(i as int)) =~= announce_all(urls@.take(i - 1)).push(
                Effect::AnnounceToTracker { url: urls@[i - 1] },
            ));
        }
    }
    proof {
        assert(urls@.take(urls@.len() as int) =~= urls@);
    }
}

fn web_seed_effects(urls: &Vec<String>, effects: &mut Vec<Effect>)
    ensures
        final(effects)@ == old(effects)@ + start_web_seeds(urls@),
{
    let ghost start = effects@;
    let mut i: usize = 0;
    while i < urls.len()
        invariant
            0 <= i <= urls@.len(),
            effects@ == start + start_web_seeds(urls@.take(i as int)),
        decreases urls@.len() - i,
    {
        effects.push(Effect::StartWebSeed { url: urls[i].clone() });
        i = i + 1;
        proof {
            assert(start_web_seeds(urls@.take(i as int)) =~= start_web_seeds(
                urls@.take(i - 1),
            ).push(Effect::StartWebSeed { url: urls@[i - 1] }));
        }
    }
    proof {
        assert(urls@.take(urls@.len() as int) =~= urls@);
    }
}

impl TorrentState {
    /// The position of the peer known as `id`.
    fn find_peer(&self, id: &String) -> (pos: Option<usize>)
        requires
            peer_ids_unique(self.peers@),
        ensures
            match pos {
                Some(i) => peer_pos(self.peers@, id@) == Some(i as int) && i < self.peers@.len(),
                None => peer_pos(self.peers@, id@) is None,
            },
    {
        let mut i: usize = 0;
        while i < self.peers.len()
            invariant
                0 <= i <= self.peers@.len(),
                peer_ids_unique(self.peers@),
                forall|k: int| 0 <= k < i ==> (#[trigger] self.peers@[k]).ip_port@ != id@,
            decreases self.peers@.len() - i,
        {
            if self.peers[i].ip_port == *id {
                proof {
                    let c = choose|k: int|
                        0 <= k < self.peers@.len() && (#[trigger] self.peers@[k]).ip_port@ == id@;
                    assert(self.peers@[i as int].ip_port@ == id@);
                    assert(c == i);
                }
                return Some(i);
            }
            i = i + 1;
        }
        None
    }

    /// The position of the tracker with this URL.
    fn find_tracker(&self, url: &String) -> (pos: Option<usize>)
        requires
            self.tracker_urls@.len() == self.trackers@.len(),
            urls_unique(self.tracker_urls@),
        ensures
            match pos {
                Some(i) => i < self.trackers@.len() && tracker_pos(self.tracker_urls@, url@) == Some(
                    i as int,
                ),
                None => tracker_pos(self.tracker_urls@, url@) is None,
            },
    {
        let mut i: usize = 0;
        while i < self.tracker_urls.len()
            invariant
                0 <= i <= self.tracker_urls@.len(),
                self.tracker_urls@.len() == self.trackers@.len(),
                urls_unique(self.tracker_urls@),
                forall|k: int| 0 <= k < i ==> (#[trigger] self.tracker_urls@[k])@ != url@,
            decreases self.tracker_urls@.len() - i,
        {
            if self.tracker_urls[i] == *url {
                proof {
                    let c = choose|k: int|
                        0 <= k < self.tracker_urls@.len() && (#[trigger] self.tracker_urls@[k])@
                            == url@;
                    assert(self.tracker_urls@[i as int]@ == url@);
                    assert(c == i);
                }
                return Some(i);
            }
            i = i + 1;
        }
        None
    }
}


/// The state with only its peers replaced.
pub open spec fn with_peers(s: TorrentState, peers: Vec<PeerState>) -> TorrentState {
    TorrentState { peers, ..s }
}

/// A peer after it choked us: nothing in flight, no work assigned.
pub open spec fn choked(old_p: PeerState, new_p: PeerState) -> bool {
    &&& new_p == (PeerState {
        peer_choking: ChokeStatus::Choke,
        inflight_requests: 0,
        active_blocks: new_p.active_blocks,
        pending_requests: new_p.pending_requests,
        ..old_p
    })
    &&& new_p.active_blocks@.len() == 0
    &&& new_p.pending_requests@.len() == 0
}

/// Whether the torrent counts as seeding for tracker intervals.
pub open spec fn seeding(s: TorrentState) -> bool {
    s.torrent_status == TorrentStatus::Done
}

/// Every tracker rescheduled `secs` seconds from now.
pub open spec fn all_rescheduled(old_t: Seq<TrackerState>, new_t: Seq<TrackerState>, at: int) -> bool {
    &&& new_t.len() == old_t.len()
    &&& forall|i: int|
        0 <= i < old_t.len() ==> #[trigger] new_t[i] == (TrackerState {
            next_announce_time: at as u64,
            ..old_t[i]
        })
}

fn nothing() -> (e: Vec<Effect>)
    ensures
        e@ == seq![Effect::DoNothing],
{
    let mut e: Vec<Effect> = Vec::new();
    e.push(Effect::DoNothing);
    e
}

fn single(x: Effect) -> (e: Vec<Effect>)
    ensures
        e@ == seq![x],
{
    let mut e: Vec<Effect> = Vec::new();
    e.push(x);
    e
}

fn position_of(q: &Vec<u32>, p: u32) -> (pos: Option<usize>)
    requires
        q@.no_duplicates(),
    ensures
        match pos {
            Some(i) => i < q@.len() && q@[i as int] == p && q@.contains(p) && q@.index_of(p) == i,
            None => !q@.contains(p),
        },
{
    let mut i: usize = 0;
    while i < q.len()
        invariant
            0 <= i <= q@.len(),
            q@.no_duplicates(),
            forall|k: int| 0 <= k < i ==> q@[k] != p,
        decreases q@.len() - i,
    {
        if q[i] == p {
            proof {
                assert(q@.contains(p));
                let c = q@.index_of(p);
                assert(q@[c] == p);
            }
            return Some(i);
        }
        i = i + 1;
    }
    None
}

impl TorrentState {
    /// Hands piece `p` back from a peer (see `requeue_one`).
    fn requeue_piece(&mut self, p: u32)
        requires
            old(self).need_queue@.no_duplicates(),
            old(self).pending_queue@.no_duplicates(),
            forall|x: u32| #[trigger]
                queued(old(self).need_queue@, x) ==> !old(self).pending_queue@.contains(x),
        ensures
            (final(self).need_queue@, final(self).pending_queue@) == requeue_one(
                old(self).need_queue@,
                old(self).pending_queue@,
                old(self).done@,
                p,
            ),
            final(self).need_queue@.no_duplicates(),
            final(self).pending_queue@.no_duplicates(),
            forall|x: u32| #[trigger]
                queued(final(self).need_queue@, x) ==> !final(self).pending_queue@.contains(x),
            *final(self) == (TorrentState {
                need_queue: final(self).need_queue,
                pending_queue: final(self).pending_queue,
                ..*old(self)
            }),
    {
        if (p as usize) < self.done.len() && self.done[p as usize] {
            return ;
        }
        proof {
            lemma_without(self.pending_queue@, p);
        }
        match position_of(&self.pending_queue, p) {
            Some(i) => {
                self.pending_queue.remove(i);
            },
            None => {},
        }
        match position_of(&self.need_queue, p) {
            Some(_) => {},
            None => {
                self.need_queue.push(p);
            },
        }
        proof {
            assert forall|x: u32| #[trigger]
                queued(self.need_queue@, x) implies !self.pending_queue@.contains(x) by {
                if old(self).need_queue@.contains(x) {
                    assert(queued(old(self).need_queue@, x));
                } else {
                    assert(self.need_queue@.last() == p);
                    let k = choose|k: int| 0 <= k < self.need_queue@.len() && self.need_queue@[k] == x;
                    if k < old(self).need_queue@.len() {
                        assert(old(self).need_queue@[k] == x);
                    }
                }
            }
            if !old(self).need_queue@.contains(p) {
                assert forall|a: int, b: int|
                    0 <= a < self.need_queue@.len() && 0 <= b < self.need_queue@.len() && a != b
                        implies self.need_queue@[a] != self.need_queue@[b] by {
                    if a == old(self).need_queue@.len() as int {
                        assert(old(self).need_queue@[b] != p);
                    } else if b == old(self).need_queue@.len() as int {
                        assert(old(self).need_queue@[a] != p);
                    }
                }
            }
        }
    }

    /// `TorrentManagerInit`: records whether the torrent starts paused; a
    /// running torrent starts its web seeds and, when asked to or while it
    /// still lacks metadata, announces to every tracker.
    pub fn on_init(&mut self, is_paused: bool, announce_immediately: bool) -> (effects: Vec<Effect>)
        requires
            old(self).inv(),
        ensures
            final(self).inv(),
            old(self).consistent() ==> final(self).consistent(),
            post_init(*old(self), *final(self), effects@, is_paused, announce_immediately),
    {
        let mut effects: Vec<Effect> = Vec::new();
        self.is_paused = is_paused;
        if is_paused {
            return effects;
        }
        web_seed_effects(&self.web_seeds, &mut effects);
        let awaiting = match self.torrent_status {
            TorrentStatus::AwaitingMetadata => true,
            _ => false,
        };
        if announce_immediately || awaiting {
            announce_effects(&self.tracker_urls, &mut effects);
            self.has_started_announce_sent = true;
        } else {
            proof {
                assert(effects@ =~= effects@ + Seq::<Effect>::empty());
            }
        }
        effects
    }

    /// `ConnectToWebSeeds`: starts every web seed the metadata lists.
    pub fn on_connect_web_seeds(&self) -> (effects: Vec<Effect>)
        ensures
            post_connect_web_seeds(*self, *self, effects@),
    {
        let mut effects: Vec<Effect> = Vec::new();
        web_seed_effects(&self.web_seeds, &mut effects);
        proof {
            assert(effects@ =~= start_web_seeds(self.web_seeds@));
        }
        effects
    }

    /// `RegisterPeer`: a new session is tracked as a fresh peer whose id is
    /// its address, unless one with that address is already known.
    pub fn on_register_peer(&mut self, peer_id: String) -> (effects: Vec<Effect>)
        requires
            old(self).inv(),
        ensures
            final(self).inv(),
            old(self).consistent() && !disturbs(*old(self), Action::RegisterPeer { peer_id }) ==> final(self).consistent(),
            post_register_peer(*old(self), *final(self), effects@, peer_id),
    {
        match self.find_peer(&peer_id) {
            Some(_) => {},
            None => {
                let bytes = peer_id.as_str().as_bytes_vec();
                let mut p = PeerState::new(peer_id, self.now_ms);
                p.peer_id = bytes;
                self.peers.push(p);
                proof {
                    let n = old(self).peers@.len() as int;
                    assert forall|i: int, j: int|
                        0 <= i < self.peers@.len() && 0 <= j < self.peers@.len() && i != j
                            implies (#[trigger] self.peers@[i]).ip_port@
                            != (#[trigger] self.peers@[j]).ip_port@ by {
                        if i == n {
                            assert(old(self).peers@[j] == self.peers@[j]);
                        } else if j == n {
                            assert(old(self).peers@[i] == self.peers@[i]);
                        } else {
                            assert(old(self).peers@[i] == self.peers@[i]);
                            assert(old(self).peers@[j] == self.peers@[j]);
                        }
                    }
                    assert forall|i: int| 0 <= i < self.peers@.len() implies (
                    #[trigger] self.peers@[i]).wf() by {
                        if i < n {
                            assert(old(self).peers@[i] == self.peers@[i]);
                        }
                    }
                }
            },
        }
        nothing()
    }

    /// `PeerSuccessfullyConnected`: the address leaves the backoff list,
    /// the first connection is noted, and the connected count is refreshed.
    pub fn on_peer_connected(&mut self, peer_id: String) -> (effects: Vec<Effect>)
        requires
            old(self).inv(),
        ensures
            final(self).inv(),
            old(self).consistent() ==> final(self).consistent(),
            post_peer_connected(*old(self), *final(self), effects@, peer_id),
    {
        self.remove_timed_out(&peer_id);
        self.has_made_first_connection = true;
        self.number_of_successfully_connected_peers = self.peers.len();
        proof {
            assert forall|k: int| 0 <= k < self.timed_out_peers@.len() implies (
            #[trigger] self.timed_out_peers@[k]).1 <= crate::tracker::MAX_PEER_FAILURES by {
                let e = self.timed_out_peers@[k];
                assert(old(self).timed_out_peers@.contains(e));
                let j = choose|j: int|
                    0 <= j < old(self).timed_out_peers@.len() && old(self).timed_out_peers@[j] == e;
                assert(old(self).timed_out_peers@[j].1 <= crate::tracker::MAX_PEER_FAILURES);
            }
        }
        single(Effect::EmitManagerEvent(ManagerEvent::PeerConnected))
    }

    /// Drops every backoff entry for `addr`.
    fn remove_timed_out(&mut self, addr: &String)
        ensures
            final(self).timed_out_peers@ == without_addr(old(self).timed_out_peers@, addr@),
            forall|k: int|
                0 <= k < final(self).timed_out_peers@.len() ==> old(self).timed_out_peers@.contains(
                    #[trigger] final(self).timed_out_peers@[k],
                ),
            *final(self) == (TorrentState { timed_out_peers: final(self).timed_out_peers, ..*old(self) }),
    {
        let mut kept: Vec<(String, u32, u64)> = Vec::new();
        let mut old_entries: Vec<(String, u32, u64)> = Vec::new();
        std::mem::swap(&mut old_entries, &mut self.timed_out_peers);
        let ghost entries = old_entries@;
        let mut i: usize = 0;
        while i < old_entries.len()
            invariant
                0 <= i <= entries.len(),
                old_entries@ == entries,
                kept@ == without_addr(entries.take(i as int), addr@),
                forall|k: int| 0 <= k < kept@.len() ==> entries.contains(#[trigger] kept@[k]),
            decreases entries.len() - i,
        {
            let e = &old_entries[i];
            proof {
                reveal(Seq::filter);
                let t1 = entries.take(i + 1);
                assert(t1.drop_last() =~= entries.take(i as int));
                assert(t1.last() == entries[i as int]);
            }
            if e.0 != *addr {
                kept.push((e.0.clone(), e.1, e.2));
                proof {
                    assert(kept@.last() == entries[i as int]);
                }
            }
            i = i + 1;
        }
        proof {
            assert(entries.take(entries.len() as int) =~= entries);
        }
        self.timed_out_peers = kept;
    }

    /// `UpdatePeerId`: records the id a peer's handshake announced.
    pub fn on_update_peer_id(&mut self, peer_addr: String, new_id: Vec<u8>) -> (effects: Vec<Effect>)
        requires
            old(self).inv(),
        ensures
            final(self).inv(),
            old(self).consistent() ==> final(self).consistent(),
            post_update_peer_id(*old(self), *final(self), effects@, peer_addr, new_id),
    {
        match self.find_peer(&peer_addr) {
            Some(i) => {
                self.peers[i].peer_id = new_id;
                proof {
                    lemma_peer_update(old(self).peers@, self.peers@, i as int, self.torrent_status);
                    if old(self).consistent() {
                        lemma_same_work(*old(self), *self);
                    }
                }
            },
            None => {},
        }
        nothing()
    }

    /// `PeerInterested`: the peer wants our pieces.
    pub fn on_peer_interested(&mut self, peer_id: String) -> (effects: Vec<Effect>)
        requires
            old(self).inv(),
        ensures
            final(self).inv(),
            old(self).consistent() ==> final(self).consistent(),
            post_peer_interested(*old(self), *final(self), effects@, peer_id),
    {
        match self.find_peer(&peer_id) {
            Some(i) => {
                self.peers[i].on_interested();
                proof {
                    lemma_peer_update(old(self).peers@, self.peers@, i as int, self.torrent_status);
                    if old(self).consistent() {
                        lemma_same_work(*old(self), *self);
                    }
                }
            },
            None => {},
        }
        nothing()
    }

}

/// The backoff entries with those for `addr` dropped.
pub open spec fn without_addr(entries: Seq<(String, u32, u64)>, addr: Seq<char>) -> Seq<
    (String, u32, u64),
> {
    entries.filter(|e: (String, u32, u64)| e.0@ != addr)
}


/// The position of the first backoff entry for `addr`.
pub open spec fn first_pos(entries: Seq<(String, u32, u64)>, addr: Seq<char>) -> Option<int> {
    if exists|k: int|
        0 <= k < entries.len() && (#[trigger] entries[k]).0@ == addr && forall|j: int|
            0 <= j < k ==> (#[trigger] entries[j]).0@ != addr {
        Some(
            choose|k: int|
                0 <= k < entries.len() && (#[trigger] entries[k]).0@ == addr && forall|j: int|
                    0 <= j < k ==> (#[trigger] entries[j]).0@ != addr,
        )
    } else {
        None
    }
}

/// The backoff (failures, next attempt) recorded for `addr`: its first entry.
pub open spec fn backoff_of(entries: Seq<(String, u32, u64)>, addr: Seq<char>) -> Option<(u32, u64)> {
    match first_pos(entries, addr) {
        Some(k) => Some((entries[k].1, entries[k].2)),
        None => None,
    }
}

/// The entries with `addr`'s backoff set to `v`: its first entry updated,
/// or a new entry at the end.
pub open spec fn upsert(entries: Seq<(String, u32, u64)>, addr: String, v: (u32, u64)) -> Seq<
    (String, u32, u64),
> {
    match first_pos(entries, addr@) {
        Some(k) => entries.update(k, (entries[k].0, v.0, v.1)),
        None => entries.push((addr, v.0, v.1)),
    }
}

/// The backoff entries after the failed addresses `batch`, in order: each
/// address's failure count goes up by one (capped) and its next attempt is
/// set by that count.
pub open spec fn record_failures(entries: Seq<(String, u32, u64)>, batch: Seq<String>, now_ms: u64) -> Seq<
    (String, u32, u64),
>
    decreases batch.len(),
{
    if batch.len() == 0 {
        entries
    } else {
        let r = record_failures(entries, batch.drop_last(), now_ms);
        let a = batch.last();
        let prev = match backoff_of(r, a@) {
            Some(b) => b.0,
            None => 0,
        };
        let c = spec_next_failure_count(prev);
        upsert(r, a, (c, (now_ms + 1000 * spec_peer_backoff_secs(c)) as u64))
    }
}

fn find_backoff(entries: &Vec<(String, u32, u64)>, addr: &String) -> (pos: Option<usize>)
    ensures
        match pos {
            Some(k) => first_pos(entries@, addr@) == Some(k as int) && k < entries@.len(),
            None => first_pos(entries@, addr@) is None,
        },
{
    let mut i: usize = 0;
    while i < entries.len()
        invariant
            0 <= i <= entries@.len(),
            forall|j: int| 0 <= j < i ==> (#[trigger] entries@[j]).0@ != addr@,
        decreases entries@.len() - i,
    {
        if entries[i].0 == *addr {
            proof {
                let c = choose|k: int|
                    0 <= k < entries@.len() && (#[trigger] entries@[k]).0@ == addr@ && forall|j: int|
                        0 <= j < k ==> (#[trigger] entries@[j]).0@ != addr@;
                assert(entries@[i as int].0@ == addr@);
                if c < i {
                } else if c > i {
                    assert(entries@[i as int].0@ != addr@);
                }
            }
            return Some(i);
        }
        i = i + 1;
    }
    None
}

fn backoff_for(entries: &Vec<(String, u32, u64)>, addr: &String) -> (b: Option<(u32, u64)>)
    ensures
        b == backoff_of(entries@, addr@),
{
    match find_backoff(entries, addr) {
        Some(k) => Some((entries[k].1, entries[k].2)),
        None => None,
    }
}

/// The peers from a tracker answer that may be dialed now: those whose
/// address is not waiting out a backoff, in the answer's order.
pub open spec fn dialable(
    peers: Seq<(String, u16)>,
    entries: Seq<(String, u32, u64)>,
    now_ms: u64,
) -> Seq<Effect>
    decreases peers.len(),
{
    if peers.len() == 0 {
        seq![]
    } else {
        let prev = dialable(peers.drop_last(), entries, now_ms);
        let pp = peers.last();
        if crate::tracker::spec_backoff_blocks(
            backoff_of(entries, crate::text::spec_peer_addr(pp.0@, pp.1)),
            now_ms,
        ) {
            prev
        } else {
            prev.push(Effect::ConnectToPeer { ip: pp.0, port: pp.1 })
        }
    }
}

/// The tracker answer's new schedule fits the clock.
pub open spec fn tracker_response_fits(
    s: TorrentState,
    url: Seq<char>,
    interval: u64,
    min_interval: Option<u64>,
) -> bool {
    tracker_pos(s.tracker_urls@, url) is Some ==> {
        &&& interval < u64::MAX
        &&& (min_interval matches Some(m) ==> m < u64::MAX)
        &&& after_secs(
            s.now_ms,
            if seeding(s) {
                spec_seeding_interval_from(interval)
            } else {
                spec_leeching_interval_from(min_interval)
            },
        ) <= u64::MAX
    }
}

/// The peers' addresses, in order.
pub open spec fn peer_addrs(peers: Seq<PeerState>) -> Seq<String> {
    peers.map_values(|p: PeerState| p.ip_port)
}

impl TorrentState {
    /// `PeerChoked`: everything in flight with the peer is dropped and the
    /// pieces it was working on go back to the need queue (unless done).
    #[verifier::spinoff_prover]
    #[verifier::rlimit(60)]
    pub fn on_peer_choked(&mut self, peer_id: String) -> (effects: Vec<Effect>)
        requires
            old(self).inv(),
        ensures
            final(self).inv(),
            old(self).consistent() && !disturbs(*old(self), Action::PeerChoked { peer_id }) ==> final(self).consistent(),
            old(self).done_settled() ==> final(self).done_settled(),
            post_peer_choked(*old(self), *final(self), effects@, peer_id),
    {
        match self.find_peer(&peer_id) {
            Some(i) => {
                let pieces = self.peers[i].on_choked();
                proof {
                    lemma_peer_update(old(self).peers@, self.peers@, i as int, self.torrent_status);
                }
                let ghost mid = *self;
                let mut k: usize = 0;
                while k < pieces.len()
                    invariant
                        0 <= k <= pieces@.len(),
                        pieces@ == old(self).peers@[i as int].pending_requests@,
                        queues_ok(self.need_queue@, self.pending_queue@),
                        (self.need_queue@, self.pending_queue@) == requeue_all(
                            old(self).need_queue@,
                            old(self).pending_queue@,
                            old(self).done@,
                            pieces@.take(k as int),
                        ),
                        *self == (TorrentState {
                            need_queue: self.need_queue,
                            pending_queue: self.pending_queue,
                            ..mid
                        }),
                        mid.done == old(self).done,
                    decreases pieces@.len() - k,
                {
                    proof {
                        assert(pieces@.take(k + 1).drop_last() =~= pieces@.take(k as int));
                    }
                    self.requeue_piece(pieces[k]);
                    k = k + 1;
                }
                proof {
                    assert(pieces@.take(pieces@.len() as int) =~= pieces@);
                    if old(self).consistent() && !disturbs(*old(self), Action::PeerChoked { peer_id }) {
                        assert(self.peers@ =~= old(self).peers@.update(i as int, self.peers@[i as int]));
                        lemma_hand_back(*old(self), *self, i as int, false);
                    }
                    if old(self).done_settled() && old(self).torrent_status == TorrentStatus::Done {
                        assert(!old(self).peers@[i as int].am_interested);
                        assert(pieces@.len() == 0);
                        assert forall|j: int| 0 <= j < self.peers@.len() implies !(
                        #[trigger] self.peers@[j]).am_interested by {
                            assert(!old(self).peers@[j].am_interested);
                        }
                    }
                }
            },
            None => {},
        }
        nothing()
    }

    /// `BlockSentToPeer`: the upload counters of the session and of the
    /// peer grow by the block, stopping at their maximum.
    pub fn on_block_sent(&mut self, peer_id: String, byte_count: u64) -> (effects: Vec<Effect>)
        requires
            old(self).inv(),
        ensures
            final(self).inv(),
            old(self).consistent() ==> final(self).consistent(),
            post_block_sent(*old(self), *final(self), effects@, peer_id, byte_count),
    {
        self.session_total_uploaded = self.session_total_uploaded.saturating_add(byte_count);
        self.bytes_uploaded_in_interval = self.bytes_uploaded_in_interval.saturating_add(byte_count);
        match self.find_peer(&peer_id) {
            Some(i) => {
                self.peers[i].on_block_sent(byte_count);
                proof {
                    lemma_peer_update(old(self).peers@, self.peers@, i as int, self.torrent_status);
                }
            },
            None => {},
        }
        proof {
            if old(self).consistent() {
                lemma_totals_nonneg(old(self).peers@);
                match peer_pos(old(self).peers@, peer_id@) {
                    Some(i) => {
                        lemma_totals_update(old(self).peers@, i, self.peers@[i]);
                    },
                    None => {},
                }
                lemma_same_work_counted(*old(self), *self);
            }
        }
        single(Effect::EmitManagerEvent(ManagerEvent::BlockSent))
    }

    /// `ValidationProgress`: records how many pieces the check found so far.
    pub fn on_validation_progress(&mut self, count: u32) -> (effects: Vec<Effect>)
        requires
            old(self).inv(),
        ensures
            final(self).inv(),
            old(self).consistent() ==> final(self).consistent(),
            post_validation_progress(*old(self), *final(self), effects@, count),
    {
        self.validation_pieces_found = count;
        nothing()
    }

    /// `CancelUpload`: the block's read is aborted.
    pub fn on_cancel_upload(&self, peer_id: String, piece_index: u32, block_offset: u32, length: u32) -> (effects: Vec<Effect>)
        ensures
            post_cancel_upload(*self, *self, effects@, peer_id, piece_index, block_offset, length),
    {
        single(Effect::AbortUpload { peer_id, piece_index, offset: block_offset, length })
    }

    /// `UpdateListenPort`: every tracker is told at once and next in a minute.
    pub fn on_update_listen_port(&mut self) -> (effects: Vec<Effect>)
        requires
            old(self).inv(),
            old(self).now_ms + 60_000 <= u64::MAX,
        ensures
            final(self).inv(),
            old(self).consistent() ==> final(self).consistent(),
            post_update_listen_port(*old(self), *final(self), effects@),
    {
        let mut effects: Vec<Effect> = Vec::new();
        self.reschedule_all(self.now_ms + 60_000);
        announce_effects(&self.tracker_urls, &mut effects);
        proof {
            assert(effects@ =~= announce_all(old(self).tracker_urls@));
        }
        effects
    }

    fn reschedule_all(&mut self, at: u64)
        ensures
            all_rescheduled(old(self).trackers@, final(self).trackers@, at as int),
            *final(self) == (TorrentState { trackers: final(self).trackers, ..*old(self) }),
    {
        let mut i: usize = 0;
        while i < self.trackers.len()
            invariant
                0 <= i <= self.trackers@.len(),
                self.trackers@.len() == old(self).trackers@.len(),
                forall|j: int| 0 <= j < i ==> #[trigger] self.trackers@[j] == (TrackerState {
                    next_announce_time: at,
                    ..old(self).trackers@[j]
                }),
                forall|j: int| i <= j < self.trackers@.len() ==> #[trigger] self.trackers@[j]
                    == old(self).trackers@[j],
                *self == (TorrentState { trackers: self.trackers, ..*old(self) }),
            decreases self.trackers@.len() - i,
        {
            self.trackers[i].next_announce_time = at;
            i = i + 1;
        }
    }

    /// `TrackerError`: the tracker is tried again after twice its current
    /// interval, at most an hour later.
    pub fn on_tracker_error(&mut self, url: String) -> (effects: Vec<Effect>)
        requires
            old(self).inv(),
            tracker_error_fits(*old(self), url@),
        ensures
            final(self).inv(),
            old(self).consistent() ==> final(self).consistent(),
            post_tracker_error(*old(self), *final(self), effects@, url),
    {
        match self.find_tracker(&url) {
            Some(i) => {
                let is_seeding = match self.torrent_status {
                    TorrentStatus::Done => true,
                    _ => false,
                };
                let now = self.now_ms;
                apply_tracker_error(&mut self.trackers[i], now, is_seeding);
            },
            None => {},
        }
        nothing()
    }

    /// `TrackerResponse`: the tracker's intervals are recorded and its next
    /// announce scheduled; every listed peer not waiting out a backoff is
    /// dialed.
    pub fn on_tracker_response(
        &mut self,
        url: String,
        peers: Vec<(String, u16)>,
        interval: u64,
        min_interval: Option<u64>,
    ) -> (effects: Vec<Effect>)
        requires
            old(self).inv(),
            tracker_response_fits(*old(self), url@, interval, min_interval),
        ensures
            final(self).inv(),
            old(self).consistent() ==> final(self).consistent(),
            post_tracker_response(*old(self), *final(self), effects@, url, peers, interval, min_interval),
    {
        match self.find_tracker(&url) {
            Some(i) => {
                let is_seeding = match self.torrent_status {
                    TorrentStatus::Done => true,
                    _ => false,
                };
                let now = self.now_ms;
                apply_tracker_response(&mut self.trackers[i], now, is_seeding, interval, min_interval);
                proof {
                    assert(self.trackers@[i as int] == (TrackerState {
                        seeding_interval: Some(spec_seeding_interval_from(interval)),
                        leeching_interval: Some(spec_leeching_interval_from(min_interval)),
                        next_announce_time: self.trackers@[i as int].next_announce_time,
                    }));
                }
            },
            None => {},
        }
        let mut effects: Vec<Effect> = Vec::new();
        let mut k: usize = 0;
        while k < peers.len()
            invariant
                0 <= k <= peers@.len(),
                effects@ == dialable(peers@.take(k as int), self.timed_out_peers@, self.now_ms),
            decreases peers@.len() - k,
        {
            let addr = crate::text::peer_addr(peers[k].0.as_str(), peers[k].1);
            let b = backoff_for(&self.timed_out_peers, &addr);
            let blocked = crate::tracker::backoff_blocks(b, self.now_ms);
            proof {
                assert(peers@.take(k + 1).drop_last() =~= peers@.take(k as int));
            }
            if !blocked {
                effects.push(Effect::ConnectToPeer { ip: peers[k].0.clone(), port: peers[k].1 });
            }
            k = k + 1;
        }
        proof {
            assert(peers@.take(peers@.len() as int) =~= peers@);
        }
        effects
    }

    /// `RequestUpload`: a block is read for the peer when we have metadata,
    /// the request is no larger than allowed, we unchoke the peer, and the
    /// piece is done; the activity shows the piece being sent either way
    /// (once the request passed the first two checks).
    pub fn on_request_upload(&mut self, peer_id: String, piece_index: u32, block_offset: u32, length: u32) -> (effects: Vec<Effect>)
        requires
            old(self).inv(),
        ensures
            final(self).inv(),
            old(self).consistent() ==> final(self).consistent(),
            post_request_upload(*old(self), *final(self), effects@, peer_id, piece_index, block_offset, length),
    {
        if !self.has_metadata || length > crate::session::MAX_BLOCK_SIZE {
            return nothing();
        }
        self.last_activity = TorrentActivity::SendingPiece(piece_index);
        let unchoked = match self.find_peer(&peer_id) {
            Some(i) => match self.peers[i].am_choking {
                ChokeStatus::Unchoke => true,
                ChokeStatus::Choke => false,
            },
            None => false,
        };
        let have = (piece_index as usize) < self.done.len() && self.done[piece_index as usize];
        if unchoked && have {
            single(Effect::ReadFromDisk { peer_id, piece_index, offset: block_offset, length })
        } else {
            nothing()
        }
    }

    /// `PieceWriteFailed`: the piece goes back to the need queue.
    pub fn on_piece_write_failed(&mut self, piece_index: u32) -> (effects: Vec<Effect>)
        requires
            old(self).inv(),
        ensures
            final(self).inv(),
            old(self).consistent() && !disturbs(*old(self), Action::PieceWriteFailed { piece_index }) ==> final(self).consistent(),
            post_piece_write_failed(*old(self), *final(self), effects@, piece_index),
    {
        if piece_index as usize >= self.done.len() {
            return nothing();
        }
        self.requeue_piece(piece_index);
        proof {
            if old(self).consistent() && !disturbs(*old(self), Action::PieceWriteFailed { piece_index }) {
                lemma_write_failed(*old(self), *self, piece_index);
            }
        }
        single(Effect::EmitManagerEvent(ManagerEvent::DiskWriteFinished))
    }

    /// `Pause`: every peer is dropped (their addresses kept for resuming),
    /// pieces in flight go back to the need queue, and the interval counters
    /// start again from zero.
    #[verifier::spinoff_prover]
    #[verifier::rlimit(60)]
    pub fn on_pause(&mut self) -> (effects: Vec<Effect>)
        requires
            old(self).inv(),
        ensures
            final(self).inv(),
            old(self).consistent() && !disturbs(*old(self), Action::Pause) ==> final(self).consistent(),
            old(self).done_settled() ==> final(self).done_settled(),
            post_pause(*old(self), *final(self), effects@),
    {
        self.last_activity = TorrentActivity::Paused;
        self.is_paused = true;
        let mut addrs: Vec<String> = Vec::new();
        let mut i: usize = 0;
        while i < self.peers.len()
            invariant
                0 <= i <= self.peers@.len(),
                self.peers@ == old(self).peers@,
                addrs@ == peer_addrs(old(self).peers@).take(i as int),
            decreases self.peers@.len() - i,
        {
            addrs.push(self.peers[i].ip_port.clone());
            i = i + 1;
            proof {
                assert(addrs@ =~= peer_addrs(old(self).peers@).take(i as int));
            }
        }
        proof {
            assert(addrs@ =~= peer_addrs(old(self).peers@));
        }
        self.last_known_peers = addrs;
        let mut pending: Vec<u32> = Vec::new();
        std::mem::swap(&mut pending, &mut self.pending_queue);
        self.need_queue.append(&mut pending);
        self.peers = Vec::new();
        self.number_of_successfully_connected_peers = 0;
        self.bytes_downloaded_in_interval = 0;
        self.bytes_uploaded_in_interval = 0;
        proof {
            let n = old(self).need_queue@;
            let q = old(self).pending_queue@;
            let r = self.need_queue@;
            assert forall|a: int, b: int| 0 <= a < r.len() && 0 <= b < r.len() && a != b implies r[a]
                != r[b] by {
                if a < n.len() && b >= n.len() {
                    assert(q.contains(r[b]));
                    assert(queued(n, r[a]));
                } else if b < n.len() && a >= n.len() {
                    assert(q.contains(r[a]));
                    assert(queued(n, r[b]));
                } else if a >= n.len() && b >= n.len() {
                    assert(r[a] == q[a - n.len()]);
                    assert(r[b] == q[b - n.len()]);
                }
            }
        }
        proof {
            if old(self).consistent() && !disturbs(*old(self), Action::Pause) {
                lemma_totals_nonneg(old(self).peers@);
                assert(self.peers@.len() == 0);
                assert(total_downloaded(self.peers@) == 0 && total_uploaded(self.peers@) == 0);
                assert forall|p: u32| #[trigger] queued(self.need_queue@, p) implies p < self.done@.len() && !self.done@[p as int] by {
                    if old(self).need_queue@.contains(p) {
                        assert(queued(old(self).need_queue@, p));
                    } else {
                        let k = choose|k: int| 0 <= k < self.need_queue@.len() && self.need_queue@[k] == p;
                        assert(old(self).pending_queue@[k - old(self).need_queue@.len()] == p);
                        assert(old(self).pending_queue@.contains(p));
                    }
                }
                if self.torrent_status == TorrentStatus::Endgame {
                    assert(old(self).pending_queue@.len() == 0);
                    assert(self.need_queue@.len() == 0);
                }
            }
        }
        let mut effects: Vec<Effect> = Vec::new();
        effects.push(Effect::EmitMetrics { bytes_dl: 0, bytes_ul: 0 });
        effects.push(Effect::ClearAllUploads);
        effects.push(Effect::EmitManagerEvent(ManagerEvent::PeerDisconnected));
        proof {
            assert(effects@ =~= seq![
                Effect::EmitMetrics { bytes_dl: 0, bytes_ul: 0 },
                Effect::ClearAllUploads,
                Effect::EmitManagerEvent(ManagerEvent::PeerDisconnected),
            ]);
        }
        effects
    }
}


/// A peer at a clock tick: its per-tick byte counters start again from zero.
pub open spec fn ticked_peer(p: PeerState) -> PeerState {
    PeerState { bytes_downloaded_in_tick: 0, bytes_uploaded_in_tick: 0, ..p }
}

/// One announce for each listed tracker position, in order.
pub open spec fn announce_at(urls: Seq<String>, positions: Seq<usize>) -> Seq<Effect> {
    positions.map_values(|k: usize| Effect::AnnounceToTracker { url: urls[k as int] })
}

/// The clock tick fits: the clock does not run over, nor does any announce
/// that falls due.
pub open spec fn tick_fits(s: TorrentState, dt_ms: u64) -> bool {
    &&& s.now_ms + dt_ms <= u64::MAX
    &&& forall|i: int|
        0 <= i < s.trackers@.len() && announce_due(#[trigger] s.trackers@[i], (s.now_ms + dt_ms) as u64)
            ==> after_secs(
            (s.now_ms + dt_ms) as u64,
            spec_announce_interval(s.trackers@[i], seeding(s)),
        ) <= u64::MAX
}

/// A peer once the torrent is done: no work in flight and no interest.
pub open spec fn settled_peer(old_p: PeerState, new_p: PeerState) -> bool {
    &&& new_p == (PeerState {
        am_interested: false,
        inflight_requests: 0,
        pending_requests: new_p.pending_requests,
        active_blocks: new_p.active_blocks,
        ..old_p
    })
    &&& new_p.pending_requests@.len() == 0
    &&& new_p.active_blocks@.len() == 0
}

/// A "not interested" message for each peer we were interested in, in order.
pub open spec fn not_interested_msgs(peers: Seq<PeerState>) -> Seq<Effect>
    decreases peers.len(),
{
    if peers.len() == 0 {
        seq![]
    } else {
        let prev = not_interested_msgs(peers.drop_last());
        if peers.last().am_interested {
            prev.push(
                Effect::SendToPeer { peer_id: peers.last().ip_port, cmd: PeerCommand::NotInterested },
            )
        } else {
            prev
        }
    }
}

/// One completion announce per tracker, in order.
pub open spec fn completed_all(urls: Seq<String>) -> Seq<Effect> {
    urls.map_values(|u: String| Effect::AnnounceCompleted { url: u })
}


impl TorrentState {
    /// `Tick`: the clock advances; the interval byte counters are reported
    /// and start again, as do each peer's tick counters; unless the torrent
    /// is validating or paused, every tracker that is due is announced to and
    /// rescheduled. (Transfer speeds are smoothed by the runtime from the
    /// reported bytes.)
    #[verifier::spinoff_prover]
    #[verifier::rlimit(60)]
    pub fn on_tick(&mut self, dt_ms: u64) -> (effects: Vec<Effect>)
        requires
            old(self).inv(),
            tick_fits(*old(self), dt_ms),
        ensures
            final(self).inv(),
            old(self).consistent() ==> final(self).consistent(),
            old(self).done_settled() ==> final(self).done_settled(),
            post_tick(*old(self), *final(self), effects@, dt_ms),
    {
        self.now_ms = self.now_ms + dt_ms;
        let dl_tick = self.bytes_downloaded_in_interval;
        let ul_tick = self.bytes_uploaded_in_interval;
        self.bytes_downloaded_in_interval = 0;
        self.bytes_uploaded_in_interval = 0;
        let ghost mid = *self;
        let mut i: usize = 0;
        while i < self.peers.len()
            invariant
                0 <= i <= self.peers@.len(),
                self.peers@.len() == old(self).peers@.len(),
                peers_ok(self.peers@, self.torrent_status),
                forall|j: int| 0 <= j < i ==> #[trigger] self.peers@[j] == ticked_peer(old(self).peers@[j]),
                forall|j: int| i <= j < self.peers@.len() ==> #[trigger] self.peers@[j] == old(self).peers@[j],
                *self == (TorrentState { peers: self.peers, ..mid }),
            decreases self.peers@.len() - i,
        {
            let ghost before = self.peers@;
            let _ = self.peers[i].take_tick_bytes();
            proof {
                lemma_peer_update(before, self.peers@, i as int, self.torrent_status);
            }
            i = i + 1;
        }
        let mut effects: Vec<Effect> = Vec::new();
        effects.push(Effect::EmitMetrics { bytes_dl: dl_tick, bytes_ul: ul_tick });
        let quiet = self.is_paused || match self.torrent_status {
            TorrentStatus::Validating => true,
            _ => false,
        };
        proof {
            if old(self).consistent() {
                lemma_same_work(*old(self), *self);
            }
        }
        if quiet {
            return effects;
        }
        let is_seeding = match self.torrent_status {
            TorrentStatus::Done => true,
            _ => false,
        };
        let now = self.now_ms;
        let due = tick_trackers(&mut self.trackers, now, is_seeding, false, false);
        proof {
            lemma_due_positions_bounded(old(self).trackers@, now, old(self).trackers@.len() as int);
        }
        if due.len() > 0 {
            self.last_activity = TorrentActivity::AnnouncingToTracker;
        }
        let ghost e0 = effects@;
        let mut k: usize = 0;
        while k < due.len()
            invariant
                0 <= k <= due@.len(),
                due@ == due_positions(old(self).trackers@, now, old(self).trackers@.len() as int),
                forall|j: int| 0 <= j < due@.len() ==> #[trigger] due@[j] < self.tracker_urls@.len(),
                self.tracker_urls == old(self).tracker_urls,
                effects@ == e0 + announce_at(self.tracker_urls@, due@.take(k as int)),
            decreases due@.len() - k,
        {
            effects.push(Effect::AnnounceToTracker { url: self.tracker_urls[due[k]].clone() });
            k = k + 1;
            proof {
                assert(announce_at(self.tracker_urls@, due@.take(k as int)) =~= announce_at(
                    self.tracker_urls@,
                    due@.take(k - 1),
                ).push(Effect::AnnounceToTracker { url: self.tracker_urls@[due@[k - 1] as int] }));
            }
        }
        proof {
            if old(self).consistent() {
                lemma_same_work(*old(self), *self);
            }
        }
        proof {
            assert(due@.take(due@.len() as int) =~= due@);
        }
        effects
    }
}

proof fn lemma_due_positions_bounded(trackers: Seq<TrackerState>, now_ms: u64, k: int)
    requires
        0 <= k <= trackers.len(),
    ensures
        forall|j: int|
            0 <= j < due_positions(trackers, now_ms, k).len() ==> #[trigger] due_positions(
                trackers,
                now_ms,
                k,
            )[j] < k,
    decreases k,
{
    if k > 0 {
        lemma_due_positions_bounded(trackers, now_ms, k - 1);
        let prev = due_positions(trackers, now_ms, k - 1);
        let cur = due_positions(trackers, now_ms, k);
        assert forall|j: int| 0 <= j < cur.len() implies #[trigger] cur[j] < k by {
            if j < prev.len() {
                assert(cur[j] == prev[j]);
            }
        }
    }
}


/// The peers settled when the torrent is done are valid for a done torrent.
proof fn lemma_settled_ok(before: Seq<PeerState>, after: Seq<PeerState>, status: TorrentStatus)
    requires
        peers_ok(before, status),
        after.len() == before.len(),
        forall|i: int| 0 <= i < before.len() ==> settled_peer(before[i], #[trigger] after[i]),
    ensures
        peers_ok(after, TorrentStatus::Done),
{
    assert forall|a: int, b: int|
        0 <= a < after.len() && 0 <= b < after.len() && a != b implies (
        #[trigger] after[a]).ip_port@ != (#[trigger] after[b]).ip_port@ by {
        assert(settled_peer(before[a], after[a]));
        assert(settled_peer(before[b], after[b]));
    }
    assert forall|a: int| 0 <= a < after.len() implies (#[trigger] after[a]).wf() by {
        assert(settled_peer(before[a], after[a]));
        assert(before[a].wf());
    }
    assert forall|a: int| 0 <= a < after.len() implies !(#[trigger] after[a]).am_interested by {
        assert(settled_peer(before[a], after[a]));
    }
    assert forall|a: int| 0 <= a < after.len() implies (#[trigger] after[a]).pending_requests@.len() == 0 by {
        assert(settled_peer(before[a], after[a]));
    }
}

/// Removing a peer keeps the others valid.
proof fn lemma_peer_remove(before: Seq<PeerState>, i: int, status: TorrentStatus)
    requires
        peers_ok(before, status),
        0 <= i < before.len(),
    ensures
        peers_ok(before.remove(i), status),
{
    let after = before.remove(i);
    assert forall|a: int| 0 <= a < after.len() implies after[a] == before[if a < i {
        a
    } else {
        a + 1
    }] by {}
    assert forall|a: int, b: int|
        0 <= a < after.len() && 0 <= b < after.len() && a != b implies (
        #[trigger] after[a]).ip_port@ != (#[trigger] after[b]).ip_port@ by {
        let qa = if a < i { a } else { a + 1 };
        let qb = if b < i { b } else { b + 1 };
        assert(after[a] == before[qa]);
        assert(after[b] == before[qb]);
    }
    assert forall|a: int| 0 <= a < after.len() implies (#[trigger] after[a]).wf() by {
        let qa = if a < i { a } else { a + 1 };
        assert(before[qa].wf());
    }
    assert forall|a: int|
        0 <= a < after.len() && (#[trigger] after[a]).peer_choking == ChokeStatus::Choke implies after[a].pending_requests@.len()
            == 0 by {
        let qa = if a < i { a } else { a + 1 };
        assert(before[qa].peer_choking == ChokeStatus::Choke);
    }
    assert forall|a: int|
        0 <= a < after.len() && (#[trigger] after[a]).pending_requests@.len() > 0 implies after[a].am_interested by {
        let qa = if a < i { a } else { a + 1 };
        assert(before[qa].pending_requests@.len() > 0);
    }
}

/// The peers, queues and effects after the disconnect batch `batch`, in
/// order: each known peer is removed, its pieces go back to the need queue
/// (unless done), and its session is closed and the disconnect reported.
pub open spec fn drop_peers(
    peers: Seq<PeerState>,
    need: Seq<u32>,
    pending: Seq<u32>,
    done: Seq<bool>,
    batch: Seq<String>,
) -> (Seq<PeerState>, Seq<u32>, Seq<u32>, Seq<Effect>)
    decreases batch.len(),
{
    if batch.len() == 0 {
        (peers, need, pending, seq![])
    } else {
        let r = drop_peers(peers, need, pending, done, batch.drop_last());
        let pid = batch.last();
        match peer_pos(r.0, pid@) {
            Some(i) => {
                let q = requeue_all(r.1, r.2, done, r.0[i].pending_requests@);
                (
                    r.0.remove(i),
                    q.0,
                    q.1,
                    r.3 + seq![
                        Effect::DisconnectPeer { peer_id: pid },
                        Effect::EmitManagerEvent(ManagerEvent::PeerDisconnected),
                    ],
                )
            },
            None => r,
        }
    }
}

/// A reconnect for each address, in order.
pub open spec fn reconnect_all(addrs: Seq<String>) -> Seq<Effect> {
    addrs.map_values(|a: String| Effect::ReconnectPeer { addr: a })
}

impl TorrentState {
    /// Hands the pieces `pieces` back in order (see `requeue_all`).
    fn requeue_pieces(&mut self, pieces: &Vec<u32>)
        requires
            queues_ok(old(self).need_queue@, old(self).pending_queue@),
        ensures
            queues_ok(final(self).need_queue@, final(self).pending_queue@),
            (final(self).need_queue@, final(self).pending_queue@) == requeue_all(
                old(self).need_queue@,
                old(self).pending_queue@,
                old(self).done@,
                pieces@,
            ),
            *final(self) == (TorrentState {
                need_queue: final(self).need_queue,
                pending_queue: final(self).pending_queue,
                ..*old(self)
            }),
    {
        let mut k: usize = 0;
        while k < pieces.len()
            invariant
                0 <= k <= pieces@.len(),
                queues_ok(self.need_queue@, self.pending_queue@),
                (self.need_queue@, self.pending_queue@) == requeue_all(
                    old(self).need_queue@,
                    old(self).pending_queue@,
                    old(self).done@,
                    pieces@.take(k as int),
                ),
                *self == (TorrentState {
                    need_queue: self.need_queue,
                    pending_queue: self.pending_queue,
                    ..*old(self)
                }),
            decreases pieces@.len() - k,
        {
            proof {
                assert(pieces@.take(k + 1).drop_last() =~= pieces@.take(k as int));
            }
            self.requeue_piece(pieces[k]);
            k = k + 1;
        }
        proof {
            assert(pieces@.take(pieces@.len() as int) =~= pieces@);
        }
    }

    /// `CheckCompletion`: once every wanted piece is done (and the torrent
    /// is past metadata and validation and not done yet), the torrent is
    /// done: nothing more is requested, every peer we were interested in is
    /// told we no longer are, and every tracker is announced to at once, with
    /// "completed" when every piece is done, with a plain announce otherwise.
    #[verifier::spinoff_prover]
    #[verifier::rlimit(60)]
    pub fn on_check_completion(&mut self) -> (effects: Vec<Effect>)
        requires
            old(self).inv(),
        ensures
            final(self).inv(),
            old(self).consistent() ==> final(self).consistent(),
            final(self).done_settled() || *final(self) == *old(self),
            post_check_completion(*old(self), *final(self), effects@),
    {
        let outcome = check_completion(&self.torrent_status, self.done.as_slice(), self.piece_priorities.as_slice());
        let physically_complete = match outcome {
            CompletionCheck::Incomplete => {
                return nothing();
            },
            CompletionCheck::Finished { physically_complete } => physically_complete,
        };
        let mut effects: Vec<Effect> = Vec::new();
        self.need_queue = Vec::new();
        self.pending_queue = Vec::new();
        let ghost mid = *self;
        let mut i: usize = 0;
        while i < self.peers.len()
            invariant
                0 <= i <= self.peers@.len(),
                self.peers@.len() == old(self).peers@.len(),
                forall|j: int| 0 <= j < i ==> settled_peer(old(self).peers@[j], #[trigger] self.peers@[j]),
                forall|j: int| i <= j < self.peers@.len() ==> #[trigger] self.peers@[j] == old(self).peers@[j],
                effects@ == not_interested_msgs(old(self).peers@.take(i as int)),
                *self == (TorrentState { peers: self.peers, ..mid }),
            decreases self.peers@.len() - i,
        {
            let was = self.peers[i].am_interested;
            self.peers[i].pending_requests = Vec::new();
            self.peers[i].active_blocks = Vec::new();
            self.peers[i].inflight_requests = 0;
            self.peers[i].am_interested = false;
            proof {
                assert(old(self).peers@.take(i + 1).drop_last() =~= old(self).peers@.take(i as int));
            }
            if was {
                effects.push(Effect::SendToPeer {
                    peer_id: self.peers[i].ip_port.clone(),
                    cmd: PeerCommand::NotInterested,
                });
            }
            i = i + 1;
        }
        proof {
            assert(old(self).peers@.take(old(self).peers@.len() as int) =~= old(self).peers@);
            lemma_settled_ok(old(self).peers@, self.peers@, old(self).torrent_status);
            if old(self).consistent() {
                lemma_cleared_work(*old(self), *self);
            }
        }
        self.torrent_status = TorrentStatus::Done;
        let now = self.now_ms;
        self.reschedule_all(now);
        let ghost e0 = effects@;
        if physically_complete {
            let mut k: usize = 0;
            while k < self.tracker_urls.len()
                invariant
                    0 <= k <= self.tracker_urls@.len(),
                    effects@ == e0 + completed_all(self.tracker_urls@.take(k as int)),
                decreases self.tracker_urls@.len() - k,
            {
                effects.push(Effect::AnnounceCompleted { url: self.tracker_urls[k].clone() });
                k = k + 1;
                proof {
                    assert(completed_all(self.tracker_urls@.take(k as int)) =~= completed_all(
                        self.tracker_urls@.take(k - 1),
                    ).push(Effect::AnnounceCompleted { url: self.tracker_urls@[k - 1] }));
                }
            }
            proof {
                assert(self.tracker_urls@.take(self.tracker_urls@.len() as int) =~= self.tracker_urls@);
            }
        } else {
            announce_effects(&self.tracker_urls, &mut effects);
        }
        effects
    }

    /// `PeerDisconnected`: the peer's address joins the disconnect batch;
    /// the batch is processed once forced or full (see `drop_peers`), after
    /// which the connected count follows the peers that remain.
    #[verifier::spinoff_prover]
    #[verifier::rlimit(60)]
    pub fn on_peer_disconnected(&mut self, peer_id: String, force: bool) -> (effects: Vec<Effect>)
        requires
            old(self).inv(),
        ensures
            final(self).inv(),
            old(self).consistent() && !disturbs(*old(self), Action::PeerDisconnected { peer_id, force }) ==> final(self).consistent(),
            old(self).done_settled() ==> final(self).done_settled(),
            post_peer_disconnected(*old(self), *final(self), effects@, peer_id, force),
    {
        let ghost keep = old(self).consistent() && !disturbs(*old(self), Action::PeerDisconnected { peer_id, force });
        if !peer_id.as_str().is_empty() {
            self.pending_disconnects.push(peer_id);
        }
        if (!force && self.pending_disconnects.len() < crate::session::PEER_BATCH_SIZE)
            || self.pending_disconnects.len() == 0 {
            return nothing();
        }
        let mut batch: Vec<String> = Vec::new();
        std::mem::swap(&mut batch, &mut self.pending_disconnects);
        self.last_activity = TorrentActivity::ProcessingPeers(self.peers.len());
        let mut effects: Vec<Effect> = Vec::new();
        let ghost mid = *self;
        proof {
            assert(batch@.skip(0) =~= batch@);
            if keep && self.torrent_status == TorrentStatus::Endgame {
                assert forall|j: int| 0 <= j < self.peers@.len() && (#[trigger] self.peers@[j]).pending_requests@.len() > 0
                    implies !in_ids(batch@.skip(0), self.peers@[j].ip_port@) by {
                    assert(old(self).peers@[j] == self.peers@[j]);
                }
            }
        }
        let mut k: usize = 0;
        while k < batch.len()
            invariant
                0 <= k <= batch@.len(),
                keep ==> (TorrentState {
                    number_of_successfully_connected_peers: self.peers@.len() as usize,
                    ..*self
                }).consistent(),
                keep ==> (self.torrent_status == TorrentStatus::Endgame ==> forall|j: int|
                    0 <= j < self.peers@.len() && (#[trigger] self.peers@[j]).pending_requests@.len() > 0
                        ==> !in_ids(batch@.skip(k as int), self.peers@[j].ip_port@)),
                peers_ok(self.peers@, self.torrent_status),
                queues_ok(self.need_queue@, self.pending_queue@),
                mid.done_settled() ==> self.done_settled(),
                (self.peers@, self.need_queue@, self.pending_queue@, effects@) == drop_peers(
                    mid.peers@,
                    mid.need_queue@,
                    mid.pending_queue@,
                    mid.done@,
                    batch@.take(k as int),
                ),
                *self == (TorrentState {
                    peers: self.peers,
                    need_queue: self.need_queue,
                    pending_queue: self.pending_queue,
                    ..mid
                }),
            decreases batch@.len() - k,
        {
            proof {
                assert(batch@.take(k + 1).drop_last() =~= batch@.take(k as int));
            }
            let ghost old_peers_at_k = self.peers@;
            let ghost before_state = TorrentState {
                number_of_successfully_connected_peers: self.peers@.len() as usize,
                ..*self
            };
            proof {
                assert forall|x: Seq<char>| in_ids(batch@.skip(k + 1), x) implies in_ids(batch@.skip(k as int), x) by {
                    let q = choose|q: int| 0 <= q < batch@.skip(k + 1).len() && (#[trigger] batch@.skip(k + 1)[q])@ == x;
                    assert(batch@.skip(k as int)[q + 1] == batch@.skip(k + 1)[q]);
                }
            }
            match self.find_peer(&batch[k]) {
                Some(i) => {
                    proof {
                        lemma_peer_remove(self.peers@, i as int, self.torrent_status);
                        if mid.done_settled() && self.torrent_status == TorrentStatus::Done {
                            assert(!self.peers@[i as int].am_interested);
                            assert(self.peers@[i as int].pending_requests@.len() == 0);
                        }
                    }
                    let removed = self.peers.remove(i);
                    self.requeue_pieces(&removed.pending_requests);
                    effects.push(Effect::DisconnectPeer { peer_id: batch[k].clone() });
                    effects.push(Effect::EmitManagerEvent(ManagerEvent::PeerDisconnected));
                    proof {
                        let r = drop_peers(mid.peers@, mid.need_queue@, mid.pending_queue@, mid.done@, batch@.take(k as int));
                        assert(effects@ =~= r.3 + seq![
                            Effect::DisconnectPeer { peer_id: batch@[k as int] },
                            Effect::EmitManagerEvent(ManagerEvent::PeerDisconnected),
                        ]);
                        if mid.done_settled() && self.torrent_status == TorrentStatus::Done {
                            let before = old_peers_at_k;
                            assert forall|j: int| 0 <= j < self.peers@.len() implies !(
                            #[trigger] self.peers@[j]).am_interested by {
                                let q = if j < i { j } else { j + 1 };
                                assert(self.peers@[j] == before[q]);
                            }
                        }
                        if keep {
                            let before = old_peers_at_k;
                            if self.torrent_status == TorrentStatus::Endgame && before[i as int].pending_requests@.len() > 0 {
                                assert(batch@.skip(k as int)[0] == batch@[k as int]);
                                assert(in_ids(batch@.skip(k as int), before[i as int].ip_port@));
                            }
                            lemma_hand_back(before_state, TorrentState {
                                number_of_successfully_connected_peers: self.peers@.len() as usize,
                                ..*self
                            }, i as int, true);
                            if self.torrent_status == TorrentStatus::Endgame {
                                assert forall|j: int| 0 <= j < self.peers@.len() && (#[trigger] self.peers@[j]).pending_requests@.len() > 0
                                    implies !in_ids(batch@.skip(k + 1), self.peers@[j].ip_port@) by {
                                    let q = if j < i { j } else { j + 1 };
                                    assert(self.peers@[j] == before[q]);
                                }
                            }
                        }
                    }
                },
                None => {},
            }
            k = k + 1;
        }
        proof {
            assert(batch@.take(batch@.len() as int) =~= batch@);
        }
        self.number_of_successfully_connected_peers = self.peers.len();
        effects
    }
}



/// The bytes still missing, as the tracker is told at shutdown: the
/// payload less the done pieces at full length, never below zero; zero
/// without metadata.
pub open spec fn spec_left(s: TorrentState) -> u64 {
    if s.has_metadata {
        let have = count_true(s.done@) * s.piece_length;
        if s.total_length > have {
            (s.total_length - have) as u64
        } else {
            0
        }
    } else {
        0
    }
}

impl TorrentState {
    /// `PeerConnectionFailed`: the address joins the failure batch; once the
    /// batch is full, every address in it gets one more failure recorded
    /// (see `record_failures`).
    #[verifier::spinoff_prover]
    #[verifier::rlimit(60)]
    pub fn on_peer_connection_failed(&mut self, peer_addr: String) -> (effects: Vec<Effect>)
        requires
            old(self).inv(),
            old(self).now_ms + 1000 * MAX_PEER_BACKOFF_SECS <= u64::MAX,
        ensures
            final(self).inv(),
            old(self).consistent() ==> final(self).consistent(),
            post_peer_connection_failed(*old(self), *final(self), effects@, peer_addr),
    {
        self.pending_failures.push(peer_addr);
        if self.pending_failures.len() < crate::session::PEER_BATCH_SIZE {
            return nothing();
        }
        let mut batch: Vec<String> = Vec::new();
        std::mem::swap(&mut batch, &mut self.pending_failures);
        let ghost mid = *self;
        let now = self.now_ms;
        let mut k: usize = 0;
        while k < batch.len()
            invariant
                0 <= k <= batch@.len(),
                now == mid.now_ms,
                now + 1000 * MAX_PEER_BACKOFF_SECS <= u64::MAX,
                forall|j: int|
                    0 <= j < self.timed_out_peers@.len() ==> (#[trigger] self.timed_out_peers@[j]).1
                        <= MAX_PEER_FAILURES,
                self.timed_out_peers@ == record_failures(mid.timed_out_peers@, batch@.take(k as int), now),
                *self == (TorrentState { timed_out_peers: self.timed_out_peers, ..mid }),
            decreases batch@.len() - k,
        {
            proof {
                assert(batch@.take(k + 1).drop_last() =~= batch@.take(k as int));
            }
            let prev = match backoff_for(&self.timed_out_peers, &batch[k]) {
                Some(b) => b.0,
                None => 0,
            };
            proof {
                match backoff_of(self.timed_out_peers@, batch@[k as int]@) {
                    Some(_) => {
                        let j = first_pos(self.timed_out_peers@, batch@[k as int]@)->0;
                        assert(self.timed_out_peers@[j].1 <= MAX_PEER_FAILURES);
                    },
                    None => {},
                }
            }
            let (count, next) = record_peer_failure(prev, now);
            match find_backoff(&self.timed_out_peers, &batch[k]) {
                Some(j) => {
                    self.timed_out_peers[j].1 = count;
                    self.timed_out_peers[j].2 = next;
                },
                None => {
                    self.timed_out_peers.push((batch[k].clone(), count, next));
                },
            }
            k = k + 1;
        }
        proof {
            assert(batch@.take(batch@.len() as int) =~= batch@);
        }
        Vec::new()
    }

    /// `Resume`: the torrent runs again; unless it is validating, the DHT is
    /// searched, web seeds started, every tracker announced to at once (next
    /// in a minute), and the peers known from before the pause redialed.
    pub fn on_resume(&mut self) -> (effects: Vec<Effect>)
        requires
            old(self).inv(),
            old(self).now_ms + 60_000 <= u64::MAX,
        ensures
            final(self).inv(),
            old(self).consistent() ==> final(self).consistent(),
            old(self).done_settled() ==> final(self).done_settled(),
            post_resume(*old(self), *final(self), effects@),
    {
        self.last_activity = TorrentActivity::ConnectingToPeers;
        self.is_paused = false;
        match self.torrent_status {
            TorrentStatus::Validating => {
                return nothing();
            },
            _ => {},
        }
        let mut effects: Vec<Effect> = Vec::new();
        effects.push(Effect::TriggerDhtSearch);
        web_seed_effects(&self.web_seeds, &mut effects);
        let at = self.now_ms + 60_000;
        self.reschedule_all(at);
        announce_effects(&self.tracker_urls, &mut effects);
        let mut known: Vec<String> = Vec::new();
        std::mem::swap(&mut known, &mut self.last_known_peers);
        let ghost e0 = effects@;
        let mut k: usize = 0;
        while k < known.len()
            invariant
                0 <= k <= known@.len(),
                effects@ == e0 + reconnect_all(known@.take(k as int)),
            decreases known@.len() - k,
        {
            effects.push(Effect::ReconnectPeer { addr: known[k].clone() });
            k = k + 1;
            proof {
                assert(reconnect_all(known@.take(k as int)) =~= reconnect_all(known@.take(k - 1)).push(
                    Effect::ReconnectPeer { addr: known@[k - 1] },
                ));
            }
        }
        proof {
            assert(known@.take(known@.len() as int) =~= known@);
        }
        effects
    }

    /// `Shutdown`: the torrent stops, its peers are dropped, and the runtime
    /// is asked to say goodbye to every tracker with the bytes left and the
    /// session's transfer totals.
    pub fn on_shutdown(&mut self) -> (effects: Vec<Effect>)
        requires
            old(self).inv(),
            old(self).has_metadata ==> old(self).done@.len() * old(self).piece_length <= u64::MAX,
        ensures
            final(self).inv(),
            old(self).consistent() && !disturbs(*old(self), Action::Shutdown) ==> final(self).consistent(),
            old(self).done_settled() ==> final(self).done_settled(),
            post_shutdown(*old(self), *final(self), effects@),
    {
        self.is_paused = true;
        let left = if self.has_metadata {
            let mut completed: u64 = 0;
            let mut i: usize = 0;
            while i < self.done.len()
                invariant
                    0 <= i <= self.done@.len(),
                    completed == count_true(self.done@.take(i as int)),
                    completed <= i,
                decreases self.done@.len() - i,
            {
                proof {
                    assert(self.done@.take(i + 1).drop_last() =~= self.done@.take(i as int));
                }
                if self.done[i] {
                    completed = completed + 1;
                }
                i = i + 1;
            }
            proof {
                assert(self.done@.take(self.done@.len() as int) =~= self.done@);
                assert(completed * self.piece_length <= self.done@.len() * self.piece_length) by (nonlinear_arith)
                    requires completed <= self.done@.len();
            }
            self.total_length.saturating_sub(completed * self.piece_length)
        } else {
            0
        };
        let urls = clone_strings(&self.tracker_urls);
        self.peers = Vec::new();
        proof {
            assert(self.peers@.len() == 0);
            if old(self).consistent() && !disturbs(*old(self), Action::Shutdown) {
                assert(self.peers@ =~= old(self).peers@);
                assert forall|p: u32| #[trigger] self.pending_queue@.contains(p) implies false by {
                    assert(held(old(self).peers@, p));
                }
            }
        }
        single(Effect::PrepareShutdown {
            tracker_urls: urls,
            left,
            uploaded: self.session_total_uploaded,
            downloaded: self.session_total_downloaded,
        })
    }
}


// ---------------------------------------------------------------------------
// What each event does
// ---------------------------------------------------------------------------

/// What `on_init` does.
pub open spec fn post_init(o: TorrentState, n: TorrentState, e: Seq<Effect>, is_paused: bool, announce_immediately: bool) -> bool {
    &&& ({
        let announce = !is_paused && (announce_immediately || o.torrent_status
            == TorrentStatus::AwaitingMetadata);
        &&& n == (TorrentState {
            is_paused,
            has_started_announce_sent: o.has_started_announce_sent || announce,
            ..o
        })
        &&& e == if is_paused {
            Seq::<Effect>::empty()
        } else {
            start_web_seeds(o.web_seeds@) + if announce {
                announce_all(o.tracker_urls@)
            } else {
                Seq::<Effect>::empty()
            }
        }
    })
}

/// What `on_connect_web_seeds` does.
pub open spec fn post_connect_web_seeds(o: TorrentState, n: TorrentState, e: Seq<Effect>) -> bool {
    &&& e == start_web_seeds(o.web_seeds@)
    &&& n == o
}

/// What `on_register_peer` does.
pub open spec fn post_register_peer(o: TorrentState, n: TorrentState, e: Seq<Effect>, peer_id: String) -> bool {
    &&& e == seq![Effect::DoNothing]
    &&& peer_pos(o.peers@, peer_id@) is Some ==> n == o
    &&& peer_pos(o.peers@, peer_id@) is None ==> {
        let p = n.peers@.last();
        &&& n == with_peers(o, n.peers)
        &&& n.peers@ == o.peers@.push(p)
        &&& p.ip_port == peer_id
        &&& p.peer_id@ == vstd::utf8::encode_utf8(peer_id@)
        &&& p.created_at == o.now_ms
        &&& p.bitfield@.len() == 0
        &&& p.am_choking == ChokeStatus::Choke
        &&& p.peer_choking == ChokeStatus::Choke
        &&& !p.am_interested
        &&& !p.peer_is_interested_in_us
        &&& p.pending_requests@.len() == 0
        &&& p.active_blocks@.len() == 0
        &&& p.inflight_requests == 0
        &&& p.total_bytes_downloaded == 0
        &&& p.total_bytes_uploaded == 0
    }
}

/// What `on_peer_connected` does.
pub open spec fn post_peer_connected(o: TorrentState, n: TorrentState, e: Seq<Effect>, peer_id: String) -> bool {
    &&& e == seq![Effect::EmitManagerEvent(ManagerEvent::PeerConnected)]
    &&& n.timed_out_peers@ == without_addr(o.timed_out_peers@, peer_id@)
    &&& n == (TorrentState {
        timed_out_peers: n.timed_out_peers,
        has_made_first_connection: true,
        number_of_successfully_connected_peers: o.peers@.len() as usize,
        ..o
    })
}

/// What `on_update_peer_id` does.
pub open spec fn post_update_peer_id(o: TorrentState, n: TorrentState, e: Seq<Effect>, peer_addr: String, new_id: Vec<u8>) -> bool {
    &&& e == seq![Effect::DoNothing]
    &&& match peer_pos(o.peers@, peer_addr@) {
        Some(i) => n == with_peers(o, n.peers)
            && n.peers@ == o.peers@.update(
            i,
            PeerState { peer_id: new_id, ..o.peers@[i] },
        ),
        None => n == o,
    }
}

/// What `on_peer_interested` does.
pub open spec fn post_peer_interested(o: TorrentState, n: TorrentState, e: Seq<Effect>, peer_id: String) -> bool {
    &&& e == seq![Effect::DoNothing]
    &&& match peer_pos(o.peers@, peer_id@) {
        Some(i) => n == with_peers(o, n.peers)
            && n.peers@ == o.peers@.update(
            i,
            PeerState { peer_is_interested_in_us: true, ..o.peers@[i] },
        ),
        None => n == o,
    }
}

/// What `on_peer_choked` does.
pub open spec fn post_peer_choked(o: TorrentState, n: TorrentState, e: Seq<Effect>, peer_id: String) -> bool {
    &&& e == seq![Effect::DoNothing]
    &&& match peer_pos(o.peers@, peer_id@) {
        Some(i) => {
            &&& choked(o.peers@[i], n.peers@[i])
            &&& n.peers@ == o.peers@.update(i, n.peers@[i])
            &&& (n.need_queue@, n.pending_queue@) == requeue_all(
                o.need_queue@,
                o.pending_queue@,
                o.done@,
                o.peers@[i].pending_requests@,
            )
            &&& n == (TorrentState {
                peers: n.peers,
                need_queue: n.need_queue,
                pending_queue: n.pending_queue,
                ..o
            })
        },
        None => n == o,
    }
}

/// What `on_block_sent` does.
pub open spec fn post_block_sent(o: TorrentState, n: TorrentState, e: Seq<Effect>, peer_id: String, byte_count: u64) -> bool {
    &&& e == seq![Effect::EmitManagerEvent(ManagerEvent::BlockSent)]
    &&& n == (TorrentState {
        session_total_uploaded: sat_add(o.session_total_uploaded, byte_count),
        bytes_uploaded_in_interval: sat_add(o.bytes_uploaded_in_interval, byte_count),
        peers: n.peers,
        ..o
    })
    &&& match peer_pos(o.peers@, peer_id@) {
        Some(i) => n.peers@ == o.peers@.update(
            i,
            PeerState {
                bytes_uploaded_to_peer: sat_add(o.peers@[i].bytes_uploaded_to_peer, byte_count),
                total_bytes_uploaded: sat_add(o.peers@[i].total_bytes_uploaded, byte_count),
                bytes_uploaded_in_tick: sat_add(o.peers@[i].bytes_uploaded_in_tick, byte_count),
                ..o.peers@[i]
            },
        ),
        None => n.peers == o.peers,
    }
}

/// What `on_validation_progress` does.
pub open spec fn post_validation_progress(o: TorrentState, n: TorrentState, e: Seq<Effect>, count: u32) -> bool {
    &&& e == seq![Effect::DoNothing]
    &&& n == (TorrentState { validation_pieces_found: count, ..o })
}

/// What `on_cancel_upload` does.
pub open spec fn post_cancel_upload(o: TorrentState, n: TorrentState, e: Seq<Effect>, peer_id: String, piece_index: u32, block_offset: u32, length: u32) -> bool {
    &&& e == seq![
        Effect::AbortUpload { peer_id, piece_index, offset: block_offset, length },
    ]
    &&& n == o
}

/// What `on_update_listen_port` does.
pub open spec fn post_update_listen_port(o: TorrentState, n: TorrentState, e: Seq<Effect>) -> bool {
    &&& e == announce_all(o.tracker_urls@)
    &&& all_rescheduled(o.trackers@, n.trackers@, o.now_ms + 60_000)
    &&& n == (TorrentState { trackers: n.trackers, ..o })
}

/// What `on_tracker_error` does.
pub open spec fn post_tracker_error(o: TorrentState, n: TorrentState, e: Seq<Effect>, url: String) -> bool {
    &&& e == seq![Effect::DoNothing]
    &&& match tracker_pos(o.tracker_urls@, url@) {
        Some(i) => n == (TorrentState { trackers: n.trackers, ..o })
            && n.trackers@ == o.trackers@.update(
            i,
            TrackerState {
                next_announce_time: after_secs(
                    o.now_ms,
                    spec_tracker_error_backoff(o.trackers@[i], seeding(o)),
                ) as u64,
                ..o.trackers@[i]
            },
        ),
        None => n == o,
    }
}

/// What `on_tracker_response` does.
pub open spec fn post_tracker_response(
    o: TorrentState,
    n: TorrentState,
    e: Seq<Effect>,
    url: String,
    peers: Vec<(String, u16)>,
    interval: u64,
    min_interval: Option<u64>,
) -> bool {
    &&& e == dialable(peers@, o.timed_out_peers@, o.now_ms)
    &&& match tracker_pos(o.tracker_urls@, url@) {
        Some(i) => n == (TorrentState { trackers: n.trackers, ..o })
            && n.trackers@ == o.trackers@.update(
            i,
            TrackerState {
                seeding_interval: Some(spec_seeding_interval_from(interval)),
                leeching_interval: Some(spec_leeching_interval_from(min_interval)),
                next_announce_time: after_secs(
                    o.now_ms,
                    if seeding(o) {
                        spec_seeding_interval_from(interval)
                    } else {
                        spec_leeching_interval_from(min_interval)
                    },
                ) as u64,
            },
        ),
        None => n == o,
    }
}

/// What `on_request_upload` does.
pub open spec fn post_request_upload(o: TorrentState, n: TorrentState, e: Seq<Effect>, peer_id: String, piece_index: u32, block_offset: u32, length: u32) -> bool {
    &&& !o.has_metadata || length > crate::session::MAX_BLOCK_SIZE ==> n
        == o && e == seq![Effect::DoNothing]
    &&& o.has_metadata && length <= crate::session::MAX_BLOCK_SIZE ==> {
        let allowed = match peer_pos(o.peers@, peer_id@) {
            Some(i) => o.peers@[i].am_choking == ChokeStatus::Unchoke,
            None => false,
        } && piece_index < o.done@.len() && o.done@[piece_index as int];
        &&& n == (TorrentState {
            last_activity: TorrentActivity::SendingPiece(piece_index),
            ..o
        })
        &&& e == if allowed {
            seq![
                Effect::ReadFromDisk {
                    peer_id,
                    piece_index,
                    offset: block_offset,
                    length,
                },
            ]
        } else {
            seq![Effect::DoNothing]
        }
    }
}

/// What `on_piece_write_failed` does.
pub open spec fn post_piece_write_failed(o: TorrentState, n: TorrentState, e: Seq<Effect>, piece_index: u32) -> bool {
    &&& piece_index >= o.done@.len() ==> n == o && e
        == seq![Effect::DoNothing]
    &&& piece_index < o.done@.len() ==> {
        &&& e == seq![Effect::EmitManagerEvent(ManagerEvent::DiskWriteFinished)]
        &&& (n.need_queue@, n.pending_queue@) == requeue_one(
            o.need_queue@,
            o.pending_queue@,
            o.done@,
            piece_index,
        )
        &&& n == (TorrentState {
            need_queue: n.need_queue,
            pending_queue: n.pending_queue,
            ..o
        })
    }
}

/// What `on_pause` does.
pub open spec fn post_pause(o: TorrentState, n: TorrentState, e: Seq<Effect>) -> bool {
    &&& e == seq![
        Effect::EmitMetrics { bytes_dl: 0, bytes_ul: 0 },
        Effect::ClearAllUploads,
        Effect::EmitManagerEvent(ManagerEvent::PeerDisconnected),
    ]
    &&& n.last_known_peers@ == peer_addrs(o.peers@)
    &&& n.need_queue@ == o.need_queue@ + o.pending_queue@
    &&& n.pending_queue@.len() == 0
    &&& n.peers@.len() == 0
    &&& n == (TorrentState {
        last_activity: TorrentActivity::Paused,
        is_paused: true,
        last_known_peers: n.last_known_peers,
        need_queue: n.need_queue,
        pending_queue: n.pending_queue,
        peers: n.peers,
        number_of_successfully_connected_peers: 0,
        bytes_downloaded_in_interval: 0,
        bytes_uploaded_in_interval: 0,
        ..o
    })
}

/// What `on_tick` does.
pub open spec fn post_tick(o: TorrentState, n: TorrentState, e: Seq<Effect>, dt_ms: u64) -> bool {
    &&& ({
        let now = (o.now_ms + dt_ms) as u64;
        let quiet = o.torrent_status == TorrentStatus::Validating || o.is_paused;
        let due = due_positions(o.trackers@, now, o.trackers@.len() as int);
        let metrics = Effect::EmitMetrics {
            bytes_dl: o.bytes_downloaded_in_interval,
            bytes_ul: o.bytes_uploaded_in_interval,
        };
        &&& n.peers@.len() == o.peers@.len()
        &&& forall|i: int|
            0 <= i < o.peers@.len() ==> #[trigger] n.peers@[i] == ticked_peer(
                o.peers@[i],
            )
        &&& quiet ==> {
            &&& e == seq![metrics]
            &&& n == (TorrentState {
                now_ms: now,
                bytes_downloaded_in_interval: 0,
                bytes_uploaded_in_interval: 0,
                peers: n.peers,
                ..o
            })
        }
        &&& !quiet ==> {
            &&& e == seq![metrics] + announce_at(o.tracker_urls@, due)
            &&& n.trackers@.len() == o.trackers@.len()
            &&& forall|i: int|
                0 <= i < o.trackers@.len() ==> #[trigger] n.trackers@[i]
                    == spec_ticked(o.trackers@[i], now, seeding(o))
            &&& n == (TorrentState {
                now_ms: now,
                bytes_downloaded_in_interval: 0,
                bytes_uploaded_in_interval: 0,
                peers: n.peers,
                trackers: n.trackers,
                last_activity: if due.len() > 0 {
                    TorrentActivity::AnnouncingToTracker
                } else {
                    o.last_activity
                },
                ..o
            })
        }
    })
}

/// What `on_check_completion` does.
pub open spec fn post_check_completion(o: TorrentState, n: TorrentState, e: Seq<Effect>) -> bool {
    &&& match spec_check_completion(
        o.torrent_status,
        o.done@,
        o.piece_priorities@,
    ) {
        CompletionCheck::Incomplete => n == o && e == seq![
            Effect::DoNothing,
        ],
        CompletionCheck::Finished { physically_complete } => {
            &&& n.torrent_status == TorrentStatus::Done
            &&& n.need_queue@.len() == 0
            &&& n.pending_queue@.len() == 0
            &&& n.peers@.len() == o.peers@.len()
            &&& forall|i: int|
                0 <= i < o.peers@.len() ==> settled_peer(
                    o.peers@[i],
                    #[trigger] n.peers@[i],
                )
            &&& all_rescheduled(o.trackers@, n.trackers@, o.now_ms as int)
            &&& e == not_interested_msgs(o.peers@) + if physically_complete {
                completed_all(o.tracker_urls@)
            } else {
                announce_all(o.tracker_urls@)
            }
            &&& n == (TorrentState {
                torrent_status: TorrentStatus::Done,
                need_queue: n.need_queue,
                pending_queue: n.pending_queue,
                peers: n.peers,
                trackers: n.trackers,
                ..o
            })
        },
    }
}

/// What `on_peer_disconnected` does.
pub open spec fn post_peer_disconnected(o: TorrentState, n: TorrentState, e: Seq<Effect>, peer_id: String, force: bool) -> bool {
    &&& ({
        let batch = if peer_id@.len() > 0 {
            o.pending_disconnects@.push(peer_id)
        } else {
            o.pending_disconnects@
        };
        let waits = (!force && batch.len() < crate::session::PEER_BATCH_SIZE) || batch.len() == 0;
        let r = drop_peers(
            o.peers@,
            o.need_queue@,
            o.pending_queue@,
            o.done@,
            batch,
        );
        &&& waits ==> {
            &&& e == seq![Effect::DoNothing]
            &&& n.pending_disconnects@ == batch
            &&& n == (TorrentState {
                pending_disconnects: n.pending_disconnects,
                ..o
            })
        }
        &&& !waits ==> {
            &&& e == r.3
            &&& n.peers@ == r.0
            &&& n.need_queue@ == r.1
            &&& n.pending_queue@ == r.2
            &&& n.pending_disconnects@.len() == 0
            &&& n == (TorrentState {
                peers: n.peers,
                need_queue: n.need_queue,
                pending_queue: n.pending_queue,
                pending_disconnects: n.pending_disconnects,
                last_activity: TorrentActivity::ProcessingPeers(o.peers@.len() as usize),
                number_of_successfully_connected_peers: r.0.len() as usize,
                ..o
            })
        }
    })
}

/// What `on_peer_connection_failed` does.
pub open spec fn post_peer_connection_failed(o: TorrentState, n: TorrentState, e: Seq<Effect>, peer_addr: String) -> bool {
    &&& ({
        let batch = o.pending_failures@.push(peer_addr);
        &&& batch.len() < crate::session::PEER_BATCH_SIZE ==> {
            &&& e == seq![Effect::DoNothing]
            &&& n.pending_failures@ == batch
            &&& n == (TorrentState {
                pending_failures: n.pending_failures,
                ..o
            })
        }
        &&& batch.len() >= crate::session::PEER_BATCH_SIZE ==> {
            &&& e.len() == 0
            &&& n.pending_failures@.len() == 0
            &&& n.timed_out_peers@ == record_failures(
                o.timed_out_peers@,
                batch,
                o.now_ms,
            )
            &&& n == (TorrentState {
                pending_failures: n.pending_failures,
                timed_out_peers: n.timed_out_peers,
                ..o
            })
        }
    })
}

/// What `on_resume` does.
pub open spec fn post_resume(o: TorrentState, n: TorrentState, e: Seq<Effect>) -> bool {
    &&& o.torrent_status == TorrentStatus::Validating ==> {
        &&& e == seq![Effect::DoNothing]
        &&& n == (TorrentState {
            last_activity: TorrentActivity::ConnectingToPeers,
            is_paused: false,
            ..o
        })
    }
    &&& o.torrent_status != TorrentStatus::Validating ==> {
        &&& e == seq![Effect::TriggerDhtSearch] + start_web_seeds(o.web_seeds@)
            + announce_all(o.tracker_urls@) + reconnect_all(o.last_known_peers@)
        &&& all_rescheduled(o.trackers@, n.trackers@, o.now_ms + 60_000)
        &&& n.last_known_peers@.len() == 0
        &&& n == (TorrentState {
            last_activity: TorrentActivity::ConnectingToPeers,
            is_paused: false,
            trackers: n.trackers,
            last_known_peers: n.last_known_peers,
            ..o
        })
    }
}

/// What `on_shutdown` does.
pub open spec fn post_shutdown(o: TorrentState, n: TorrentState, e: Seq<Effect>) -> bool {
    &&& e == seq![
        Effect::PrepareShutdown {
            tracker_urls: e[0]->tracker_urls,
            left: spec_left(o),
            uploaded: o.session_total_uploaded,
            downloaded: o.session_total_downloaded,
        },
    ]
    &&& e[0]->tracker_urls@ == o.tracker_urls@
    &&& n.peers@.len() == 0
    &&& n == (TorrentState { is_paused: true, peers: n.peers, ..o })
}


// ---------------------------------------------------------------------------
// The state machine
// ---------------------------------------------------------------------------

/// A failed announce's backoff fits the clock.
pub open spec fn tracker_error_fits(s: TorrentState, url: Seq<char>) -> bool {
    match tracker_pos(s.tracker_urls@, url) {
        Some(i) => after_secs(s.now_ms, spec_tracker_error_backoff(s.trackers@[i], seeding(s)))
            <= u64::MAX,
        None => true,
    }
}

/// The event's timing fits the clock: no deadline it sets runs past the
/// largest time the clock can hold.
pub open spec fn action_fits(s: TorrentState, a: Action) -> bool {
    match a {
        Action::Tick { dt_ms } => tick_fits(s, dt_ms),
        Action::TrackerError { url } => tracker_error_fits(s, url@),
        Action::TrackerResponse { url, peers, interval, min_interval } => tracker_response_fits(
            s,
            url@,
            interval,
            min_interval,
        ),
        Action::PeerConnectionFailed { .. } => s.now_ms + 1000 * MAX_PEER_BACKOFF_SECS <= u64::MAX,
        Action::Resume => s.now_ms + 60_000 <= u64::MAX,
        Action::UpdateListenPort => s.now_ms + 60_000 <= u64::MAX,
        Action::Shutdown => s.has_metadata ==> s.done@.len() * s.piece_length <= u64::MAX,
        Action::PeerBitfieldReceived { bitfield, .. } => 8 * bitfield@.len() <= usize::MAX,
        _ => true,
    }
}

/// What one event does to the state and which effects it answers.
pub open spec fn step(o: TorrentState, a: Action, n: TorrentState, e: Seq<Effect>) -> bool {
    match a {
        Action::TorrentManagerInit { is_paused, announce_immediately } => post_init(
            o,
            n,
            e,
            is_paused,
            announce_immediately,
        ),
        Action::Tick { dt_ms } => post_tick(o, n, e, dt_ms),
        Action::RecalculateChokes { random_seed } => post_recalculate_chokes(o, n, e, random_seed),
        Action::CheckCompletion => post_check_completion(o, n, e),
        Action::AssignWork { peer_id } => post_assign_work(o, n, e, peer_id),
        Action::PeerBitfieldReceived { peer_id, bitfield } => post_peer_bitfield(o, n, e, peer_id, bitfield),
        Action::PeerUnchoked { peer_id } => post_peer_unchoked(o, n, e, peer_id),
        Action::PeerHavePiece { peer_id, piece_index } => post_peer_have(o, n, e, peer_id, piece_index),
        Action::ConnectToWebSeeds => post_connect_web_seeds(o, n, e),
        Action::RegisterPeer { peer_id } => post_register_peer(o, n, e, peer_id),
        Action::PeerSuccessfullyConnected { peer_id } => post_peer_connected(o, n, e, peer_id),
        Action::PeerDisconnected { peer_id, force } => post_peer_disconnected(o, n, e, peer_id, force),
        Action::UpdatePeerId { peer_addr, new_id } => post_update_peer_id(o, n, e, peer_addr, new_id),
        Action::PeerChoked { peer_id } => post_peer_choked(o, n, e, peer_id),
        Action::PeerInterested { peer_id } => post_peer_interested(o, n, e, peer_id),
        Action::PieceWriteFailed { piece_index } => post_piece_write_failed(o, n, e, piece_index),
        Action::PieceVerified { peer_id, piece_index, valid, data } => post_piece_verified(
            o,
            n,
            e,
            peer_id,
            piece_index,
            valid,
            data,
        ),
        Action::RequestUpload { peer_id, piece_index, block_offset, length } => post_request_upload(
            o,
            n,
            e,
            peer_id,
            piece_index,
            block_offset,
            length,
        ),
        Action::TrackerResponse { url, peers, interval, min_interval } => post_tracker_response(
            o,
            n,
            e,
            url,
            peers,
            interval,
            min_interval,
        ),
        Action::TrackerError { url } => post_tracker_error(o, n, e, url),
        Action::PeerConnectionFailed { peer_addr } => post_peer_connection_failed(o, n, e, peer_addr),
        Action::CancelUpload { peer_id, piece_index, block_offset, length } => post_cancel_upload(
            o,
            n,
            e,
            peer_id,
            piece_index,
            block_offset,
            length,
        ),
        Action::BlockSentToPeer { peer_id, byte_count } => post_block_sent(o, n, e, peer_id, byte_count),
        Action::Pause => post_pause(o, n, e),
        Action::Resume => post_resume(o, n, e),
        Action::Delete => post_delete(o, n, e),
        Action::UpdateListenPort => post_update_listen_port(o, n, e),
        Action::ValidationProgress { count } => post_validation_progress(o, n, e, count),
        Action::Shutdown => post_shutdown(o, n, e),
        Action::FatalError => post_pause(o, n, e),
    }
}

impl TorrentState {
    /// Reacts to one event: updates the state and answers the effects for the
    /// runtime to carry out, in order (see `step`). The state stays valid; a
    /// done torrent keeps nothing to start or in flight, except when a write
    /// of a piece fails after all (that piece is wanted again); and a
    /// consistent state (pieces in flight held by peers that have them, counts
    /// and totals in step with the peers) stays consistent on every event but
    /// those listed in `disturbs`.
    pub fn update(&mut self, action: Action) -> (effects: Vec<Effect>)
        requires
            old(self).inv(),
            action_fits(*old(self), action),
        ensures
            final(self).inv(),
            step(*old(self), action, *final(self), effects@),
            old(self).done_settled() && !(action is PieceWriteFailed) ==> final(self).done_settled(),
            old(self).consistent() && !disturbs(*old(self), action) ==> final(self).consistent(),
    {
        match action {
            Action::TorrentManagerInit { is_paused, announce_immediately } => self.on_init(
                is_paused,
                announce_immediately,
            ),
            Action::Tick { dt_ms } => self.on_tick(dt_ms),
            Action::RecalculateChokes { random_seed } => self.on_recalculate_chokes(random_seed),
            Action::CheckCompletion => self.on_check_completion(),
            Action::AssignWork { peer_id } => {
                let effects = self.assign_work(peer_id);
                proof {
                    reveal(keeps);
                }
                effects
            },
            Action::PeerBitfieldReceived { peer_id, bitfield } => self.on_peer_bitfield(peer_id, bitfield),
            Action::PeerUnchoked { peer_id } => self.on_peer_unchoked(peer_id),
            Action::PeerHavePiece { peer_id, piece_index } => self.on_peer_have(peer_id, piece_index),
            Action::ConnectToWebSeeds => self.on_connect_web_seeds(),
            Action::RegisterPeer { peer_id } => self.on_register_peer(peer_id),
            Action::PeerSuccessfullyConnected { peer_id } => self.on_peer_connected(peer_id),
            Action::PeerDisconnected { peer_id, force } => self.on_peer_disconnected(peer_id, force),
            Action::UpdatePeerId { peer_addr, new_id } => self.on_update_peer_id(peer_addr, new_id),
            Action::PeerChoked { peer_id } => self.on_peer_choked(peer_id),
            Action::PeerInterested { peer_id } => self.on_peer_interested(peer_id),
            Action::PieceWriteFailed { piece_index } => self.on_piece_write_failed(piece_index),
            Action::PieceVerified { peer_id, piece_index, valid, data } => self.on_piece_verified(
                peer_id,
                piece_index,
                valid,
                data,
            ),
            Action::RequestUpload { peer_id, piece_index, block_offset, length } => self.on_request_upload(
                peer_id,
                piece_index,
                block_offset,
                length,
            ),
            Action::TrackerResponse { url, peers, interval, min_interval } => self.on_tracker_response(
                url,
                peers,
                interval,
                min_interval,
            ),
            Action::TrackerError { url } => self.on_tracker_error(url),
            Action::PeerConnectionFailed { peer_addr } => self.on_peer_connection_failed(peer_addr),
            Action::CancelUpload { peer_id, piece_index, block_offset, length } => self.on_cancel_upload(
                peer_id,
                piece_index,
                block_offset,
                length,
            ),
            Action::BlockSentToPeer { peer_id, byte_count } => self.on_block_sent(peer_id, byte_count),
            Action::Pause => self.on_pause(),
            Action::Resume => self.on_resume(),
            Action::Delete => self.on_delete(),
            Action::UpdateListenPort => self.on_update_listen_port(),
            Action::ValidationProgress { count } => self.on_validation_progress(count),
            Action::Shutdown => self.on_shutdown(),
            Action::FatalError => self.on_pause(),
        }
    }
}


// ---------------------------------------------------------------------------
// Handing out work
// ---------------------------------------------------------------------------

/// `r` is in strictly ascending order.
pub open spec fn ascending(r: Seq<u32>) -> bool {
    forall|a: int, b: int| 0 <= a < b < r.len() ==> r[a] < r[b]
}

/// The pieces of `v` in ascending order.
pub open spec fn sorted_of(v: Seq<u32>) -> Seq<u32> {
    choose|r: Seq<u32>| ascending(r) && forall|x: u32| #[trigger] r.contains(x) <==> v.contains(x)
}

proof fn lemma_ascending_unique(a: Seq<u32>, b: Seq<u32>)
    requires
        ascending(a),
        ascending(b),
        forall|x: u32| #[trigger] a.contains(x) <==> b.contains(x),
    ensures
        a == b,
    decreases a.len(),
{
    if a.len() == 0 {
        if b.len() > 0 {
            assert(b.contains(b[0]));
            assert(a.contains(b[0]));
        }
        assert(a =~= b);
    } else {
        assert(a.contains(a[0]));
        assert(b.contains(a[0]));
        assert(b.len() > 0);
        assert(b.contains(b[0]));
        assert(a.contains(b[0]));
        let j = choose|j: int| 0 <= j < b.len() && b[j] == a[0];
        let k = choose|k: int| 0 <= k < a.len() && a[k] == b[0];
        assert(j == 0 || b[0] < b[j]);
        assert(k == 0 || a[0] < a[k]);
        assert(a[0] == b[0]);
        let a1 = a.drop_first();
        let b1 = b.drop_first();
        assert forall|x: u32| #[trigger] a1.contains(x) <==> b1.contains(x) by {
            if a1.contains(x) {
                let i = choose|i: int| 0 <= i < a1.len() && a1[i] == x;
                assert(a[i + 1] == x);
                assert(x > a[0]);
                assert(a.contains(x));
                assert(b.contains(x));
                let m = choose|m: int| 0 <= m < b.len() && b[m] == x;
                assert(m != 0);
                assert(b1[m - 1] == x);
            }
            if b1.contains(x) {
                let i = choose|i: int| 0 <= i < b1.len() && b1[i] == x;
                assert(b[i + 1] == x);
                assert(x > b[0]);
                assert(b.contains(x));
                assert(a.contains(x));
                let m = choose|m: int| 0 <= m < a.len() && a[m] == x;
                assert(m != 0);
                assert(a1[m - 1] == x);
            }
        }
        lemma_ascending_unique(a1, b1);
        assert(a =~= seq![a[0]] + a1);
        assert(b =~= seq![b[0]] + b1);
    }
}

fn sorted_pieces(v: &Vec<u32>) -> (r: Vec<u32>)
    ensures
        r@ == sorted_of(v@),
        ascending(r@),
        forall|x: u32| #[trigger] r@.contains(x) <==> v@.contains(x),
{
    let mut r: Vec<u32> = Vec::new();
    let mut i: usize = 0;
    while i < v.len()
        invariant
            0 <= i <= v@.len(),
            ascending(r@),
            forall|x: u32| #[trigger] r@.contains(x) <==> v@.take(i as int).contains(x),
        decreases v@.len() - i,
    {
        let x = v[i];
        let mut j: usize = 0;
        while j < r.len() && r[j] < x
            invariant
                0 <= j <= r@.len(),
                forall|k: int| 0 <= k < j ==> r@[k] < x,
            decreases r@.len() - j,
        {
            j = j + 1;
        }
        let ghost before = r@;
        if j < r.len() && r[j] == x {
            proof {
                let t1 = v@.take(i + 1);
                let t0 = v@.take(i as int);
                assert(v@.take(i + 1) =~= v@.take(i as int).push(x));
                assert forall|y: u32| #[trigger] r@.contains(y) <==> t1.contains(y) by {
                    if y == x {
                        assert(r@[j as int] == x);
                    }
                    if t1.contains(y) && y != x {
                        let k = choose|k: int| #![auto] 0 <= k < i + 1 && t1[k] == y;
                        assert(k < i);
                        assert(t0[k] == y);
                    }
                }
            }
        } else {
            r.insert(j, x);
            proof {
                let t1 = v@.take(i + 1);
                let t0 = v@.take(i as int);
                assert(v@.take(i + 1) =~= v@.take(i as int).push(x));
                assert forall|a: int, b: int| 0 <= a < b < r@.len() implies r@[a] < r@[b] by {
                    if b < j {
                        assert(r@[a] == before[a] && r@[b] == before[b]);
                    } else if b == j {
                        assert(r@[a] == before[a]);
                    } else if a == j {
                        assert(r@[b] == before[b - 1]);
                        if j < before.len() {
                            assert(before[j as int] > x);
                            if b - 1 > j {
                                assert(before[j as int] < before[b - 1]);
                            }
                        }
                    } else if a < j {
                        assert(r@[a] == before[a] && r@[b] == before[b - 1]);
                        assert(before[a] < x);
                        if j < before.len() {
                            assert(before[j as int] > x);
                            if b - 1 > j as int {
                                assert(before[j as int] < before[b - 1]);
                            }
                        }
                    } else {
                        assert(r@[a] == before[a - 1] && r@[b] == before[b - 1]);
                    }
                }
                assert forall|y: u32| #[trigger] r@.contains(y) <==> t1.contains(y) by {
                    if r@.contains(y) {
                        let k = choose|k: int| #![auto] 0 <= k < r@.len() && r@[k] == y;
                        if k < j {
                            assert(before[k] == y);
                            assert(before.contains(y));
                        } else if k > j {
                            assert(before[k - 1] == y);
                            assert(before.contains(y));
                        }
                        if y != x {
                            assert(t0.contains(y));
                            let m = choose|m: int| #![auto] 0 <= m < i && t0[m] == y;
                            assert(t1[m] == y);
                        } else {
                            assert(t1[i as int] == x);
                        }
                    }
                    if t1.contains(y) {
                        let m = choose|m: int| #![auto] 0 <= m < i + 1 && t1[m] == y;
                        if m < i {
                            assert(t0[m] == y);
                            assert(before.contains(y));
                            let k = choose|k: int| #![auto] 0 <= k < before.len() && before[k] == y;
                            if k < j {
                                assert(r@[k] == y);
                            } else {
                                assert(r@[k + 1] == y);
                            }
                        } else {
                            assert(r@[j as int] == x);
                        }
                    }
                }
            }
        }
        i = i + 1;
    }
    proof {
        assert(v@.take(v@.len() as int) =~= v@);
        let c = sorted_of(v@);
        assert(ascending(r@) && forall|x: u32| #[trigger] r@.contains(x) <==> v@.contains(x));
        lemma_ascending_unique(r@, c);
    }
    r
}

/// How many of the peers have piece `p`.
pub open spec fn avail_count(peers: Seq<PeerState>, p: u32) -> nat
    decreases peers.len(),
{
    if peers.len() == 0 {
        0
    } else {
        avail_count(peers.drop_last(), p) + if crate::assign::peer_has(peers.last().bitfield@, p) {
            1nat
        } else {
            0nat
        }
    }
}


fn availability_of(peers: &Vec<PeerState>, cands: &Vec<u32>) -> (avail: Vec<usize>)
    ensures
        avail@.len() == cands@.len(),
        forall|k: int| 0 <= k < cands@.len() ==> #[trigger] avail@[k] == avail_count(peers@, cands@[k]),
{
    let mut avail: Vec<usize> = Vec::new();
    let mut k: usize = 0;
    while k < cands.len()
        invariant
            0 <= k <= cands@.len(),
            avail@.len() == k,
            forall|j: int| 0 <= j < k ==> #[trigger] avail@[j] == avail_count(peers@, cands@[j]),
        decreases cands@.len() - k,
    {
        let p = cands[k];
        let mut c: usize = 0;
        let mut i: usize = 0;
        while i < peers.len()
            invariant
                0 <= i <= peers@.len(),
                c == avail_count(peers@.take(i as int), p),
                c <= i,
            decreases peers@.len() - i,
        {
            proof {
                assert(peers@.take(i + 1).drop_last() =~= peers@.take(i as int));
            }
            if (p as usize) < peers[i].bitfield.len() && peers[i].bitfield[p as usize] {
                c = c + 1;
            }
            i = i + 1;
        }
        proof {
            assert(peers@.take(peers@.len() as int) =~= peers@);
        }
        avail.push(c);
        k = k + 1;
    }
    avail
}


/// Work handed out to one peer so far: the need and pending queues, the
/// torrent's stage, the pieces the peer works on, the block requests made,
/// the peer's active requests, and the pipeline slots still open.
pub struct WorkPlan {
    pub need: Seq<u32>,
    pub pending: Seq<u32>,
    pub status: TorrentStatus,
    pub peer_pending: Set<u32>,
    pub batch: Seq<(u32, u32, u32)>,
    pub active: Seq<(u32, u32, u32)>,
    pub slots: int,
}

/// One more piece worked on: skipped once no slot is open or when it is in
/// `skip`; otherwise, if it is to be started, it moves from the need queue to
/// the pending queue and to the peer's pieces (the torrent enters endgame once
/// nothing is left to start), and its open blocks are requested while slots
/// last.
pub open spec fn plan_piece(
    bm: BlockManager,
    roots: Map<u32, FileRoot>,
    piece_len: u64,
    w: WorkPlan,
    p: u32,
    start: bool,
    skip: Set<u32>,
) -> WorkPlan {
    if w.slots <= 0 || skip.contains(p) {
        w
    } else {
        let w1 = if start {
            let need = without(w.need, p);
            WorkPlan {
                need,
                pending: if w.pending.contains(p) {
                    w.pending
                } else {
                    w.pending.push(p)
                },
                peer_pending: w.peer_pending.insert(p),
                status: if need.len() == 0 && w.status != TorrentStatus::Endgame {
                    TorrentStatus::Endgame
                } else {
                    w.status
                },
                ..w
            }
        } else {
            w
        };
        let picks = clip(piece_picks(bm, roots, piece_len, p, w1.active, local_block_count(bm, p)), w1.slots);
        WorkPlan { batch: w1.batch + picks, active: w1.active + picks, slots: w1.slots - picks.len(), ..w1 }
    }
}

/// The pieces `ps` worked on in order (see `plan_piece`).
pub open spec fn plan_all(
    bm: BlockManager,
    roots: Map<u32, FileRoot>,
    piece_len: u64,
    w: WorkPlan,
    ps: Seq<u32>,
    start: bool,
    skip: Set<u32>,
) -> WorkPlan
    decreases ps.len(),
{
    if ps.len() == 0 {
        w
    } else {
        plan_piece(
            bm,
            roots,
            piece_len,
            plan_all(bm, roots, piece_len, w, ps.drop_last(), start, skip),
            ps.last(),
            start,
            skip,
        )
    }
}

/// The pieces work may start on: those still needed and, in endgame, also
/// those in flight.
pub open spec fn candidates(s: TorrentState) -> Seq<u32> {
    if s.torrent_status == TorrentStatus::Endgame {
        s.need_queue@ + s.pending_queue@
    } else {
        s.need_queue@
    }
}

/// How many peers have each candidate.
pub open spec fn candidate_availability(peers: Seq<PeerState>, cands: Seq<u32>) -> Seq<usize> {
    cands.map_values(|p: u32| avail_count(peers, p) as usize)
}

/// No work is handed out: the torrent is validating, has no pieces, no data
/// path or no metadata yet, or nothing is left to start or in flight.
pub open spec fn work_blocked(s: TorrentState) -> bool {
    ||| s.torrent_status == TorrentStatus::Validating
    ||| s.done@.len() == 0
    ||| !s.has_data_path
    ||| (s.need_queue@.len() == 0 && s.pending_queue@.len() == 0)
    ||| !s.has_metadata
}

/// The interest message due when our interest in a peer changes.
pub open spec fn interest_msg(peer_id: String, was: bool, should: bool) -> Seq<Effect> {
    if should && !was {
        seq![Effect::SendToPeer { peer_id, cmd: PeerCommand::ClientInterested }]
    } else if !should && was {
        seq![Effect::SendToPeer { peer_id, cmd: PeerCommand::NotInterested }]
    } else {
        seq![]
    }
}

/// What `assign_work` does: brings our interest in the peer in line with
/// whether it has something we want; then, unless it chokes us, has sent no
/// bitfield, or its pipeline is full, requests the open blocks of the pieces
/// it already works on (ascending, skipping those being verified), then
/// starts the scarcest candidates it has (as many as slots remain) and
/// requests their blocks, all in one batch.
pub open spec fn post_assign_work(o: TorrentState, n: TorrentState, e: Seq<Effect>, peer_id: String) -> bool {
    &&& work_blocked(o) ==> n == o && e == seq![Effect::DoNothing]
    &&& !work_blocked(o) && peer_pos(o.peers@, peer_id@) is None ==> n == o && e.len() == 0
    &&& !work_blocked(o) && peer_pos(o.peers@, peer_id@) is Some ==> {
        let i = peer_pos(o.peers@, peer_id@)->0;
        let p = o.peers@[i];
        let should = spec_should_be_interested(
            p.bitfield@,
            o.need_queue@,
            o.pending_queue@,
            p.pending_requests@.len() > 0,
        );
        let msg = interest_msg(peer_id, p.am_interested, should);
        let halt = p.peer_choking == ChokeStatus::Choke || p.bitfield@.len() == 0
            || p.inflight_requests >= MAX_PIPELINE_DEPTH;
        &&& n.peers@.len() == o.peers@.len()
        &&& forall|j: int| 0 <= j < o.peers@.len() && j != i ==> #[trigger] n.peers@[j] == o.peers@[j]
        &&& halt ==> {
            &&& e == msg
            &&& n == with_peers(o, n.peers)
            &&& n.peers@[i] == (PeerState { am_interested: should, ..p })
        }
        &&& !halt ==> {
            let w0 = WorkPlan {
                need: o.need_queue@,
                pending: o.pending_queue@,
                status: o.torrent_status,
                peer_pending: p.pending_requests@.to_set(),
                batch: seq![],
                active: p.active_blocks@,
                slots: spec_available_slots(p.inflight_requests) as int,
            };
            let w1 = plan_all(
                o.block_manager,
                o.piece_roots@,
                o.piece_length,
                w0,
                sorted_of(p.pending_requests@),
                false,
                o.verifying_pieces@,
            );
            let cands = candidates(o);
            forall|r: Seq<usize>|
                is_candidate_order(
                    cands,
                    candidate_availability(o.peers@, cands),
                    p.bitfield@,
                    o.verifying_pieces@,
                    p.pending_requests@,
                    r,
                ) ==> {
                    let w2 = plan_all(
                        o.block_manager,
                        o.piece_roots@,
                        o.piece_length,
                        w1,
                        clip(pieces_at(cands, r), w1.slots),
                        true,
                        Set::empty(),
                    );
                    let q = n.peers@[i];
                    &&& n.need_queue@ == w2.need
                    &&& n.pending_queue@ == w2.pending
                    &&& n.torrent_status == w2.status
                    &&& q.pending_requests@.to_set() == w2.peer_pending
                    &&& q.active_blocks@ == w2.active
                    &&& q.inflight_requests == p.inflight_requests + w2.batch.len()
                    &&& q == (PeerState {
                        am_interested: should,
                        pending_requests: q.pending_requests,
                        active_blocks: q.active_blocks,
                        inflight_requests: q.inflight_requests,
                        ..p
                    })
                    &&& e == msg + if w2.batch.len() > 0 {
                        seq![
                            Effect::SendToPeer {
                                peer_id,
                                cmd: PeerCommand::BulkRequest(e.last()->cmd->BulkRequest_0),
                            },
                        ]
                    } else {
                        seq![]
                    }
                    &&& w2.batch.len() > 0 ==> e.last()->cmd->BulkRequest_0@ == w2.batch
                    &&& n == (TorrentState {
                        need_queue: n.need_queue,
                        pending_queue: n.pending_queue,
                        torrent_status: n.torrent_status,
                        peers: n.peers,
                        last_activity: if w2.batch.len() > 0 && !(o.last_activity is DownloadingPiece) {
                            TorrentActivity::RequestingPieces
                        } else {
                            o.last_activity
                        },
                        ..o
                    })
                }
        }
    }
}


proof fn lemma_append_fresh(active: Seq<(u32, u32, u32)>, picks: Seq<(u32, u32, u32)>, k: int)
    requires
        k >= 0,
        active.no_duplicates(),
        forall|i: int| 0 <= i < picks.len() ==> !active.contains(#[trigger] picks[i]),
        forall|a: int, b: int| 0 <= a < b < picks.len() ==> #[trigger] picks[a] != #[trigger] picks[b],
    ensures
        (active + clip(picks, k)).no_duplicates(),
{
    let c = clip(picks, k);
    let r = active + c;
    assert(c.len() <= picks.len());
    assert forall|j: int| 0 <= j < c.len() implies c[j] == picks[j] by {}
    assert forall|a: int, b: int| 0 <= a < r.len() && 0 <= b < r.len() && a != b implies r[a] != r[b] by {
        if a < active.len() && b >= active.len() {
            assert(c[b - active.len()] == picks[b - active.len()]);
            assert(active.contains(r[a]));
        } else if b < active.len() && a >= active.len() {
            assert(c[a - active.len()] == picks[a - active.len()]);
            assert(active.contains(r[b]));
        } else if a >= active.len() && b >= active.len() {
            assert(c[a - active.len()] == picks[a - active.len()]);
            assert(c[b - active.len()] == picks[b - active.len()]);
            if a < b {
                assert(picks[a - active.len()] != picks[b - active.len()]);
            } else {
                assert(picks[b - active.len()] != picks[a - active.len()]);
            }
        }
    }
}

fn copy_pieces(v: &Vec<u32>, out: &mut Vec<u32>)
    ensures
        final(out)@ == old(out)@ + v@,
{
    let ghost start = out@;
    let mut i: usize = 0;
    while i < v.len()
        invariant
            0 <= i <= v@.len(),
            out@ == start + v@.take(i as int),
        decreases v@.len() - i,
    {
        out.push(v[i]);
        i = i + 1;
        proof {
            assert(out@ =~= start + v@.take(i as int));
        }
    }
    proof {
        assert(v@.take(v@.len() as int) =~= v@);
    }
}

impl TorrentState {
    /// Moves piece `p` from the need queue to the pending queue.
    fn mark_piece_pending(&mut self, p: u32)
        requires
            queues_ok(old(self).need_queue@, old(self).pending_queue@),
        ensures
            queues_ok(final(self).need_queue@, final(self).pending_queue@),
            final(self).need_queue@ == without(old(self).need_queue@, p),
            final(self).pending_queue@ == if old(self).pending_queue@.contains(p) {
                old(self).pending_queue@
            } else {
                old(self).pending_queue@.push(p)
            },
            *final(self) == (TorrentState {
                need_queue: final(self).need_queue,
                pending_queue: final(self).pending_queue,
                ..*old(self)
            }),
    {
        proof {
            lemma_without(self.need_queue@, p);
        }
        match position_of(&self.need_queue, p) {
            Some(i) => {
                self.need_queue.remove(i);
            },
            None => {},
        }
        match position_of(&self.pending_queue, p) {
            Some(_) => {},
            None => {
                self.pending_queue.push(p);
            },
        }
        proof {
            let q = self.pending_queue@;
            if !old(self).pending_queue@.contains(p) {
                assert forall|a: int, b: int| 0 <= a < q.len() && 0 <= b < q.len() && a != b implies q[a]
                    != q[b] by {
                    if a == old(self).pending_queue@.len() as int {
                        assert(old(self).pending_queue@[b] != p);
                    } else if b == old(self).pending_queue@.len() as int {
                        assert(old(self).pending_queue@[a] != p);
                    }
                }
            }
            assert forall|x: u32| #[trigger] queued(self.need_queue@, x) implies !q.contains(x) by {
                assert(old(self).need_queue@.contains(x) && x != p);
                assert(queued(old(self).need_queue@, x));
                if q.contains(x) {
                    let k = choose|k: int| 0 <= k < q.len() && q[k] == x;
                    if k < old(self).pending_queue@.len() {
                        assert(old(self).pending_queue@[k] == x);
                    }
                }
            }
        }
    }

    /// Starts the chosen pieces with peer `i`, while slots last (see
    /// `plan_piece`).
    #[verifier::spinoff_prover]
    #[verifier::rlimit(100)]
    fn start_chosen(
        &mut self,
        i: usize,
        chosen: &Vec<u32>,
        active: &mut Vec<(u32, u32, u32)>,
        batch: &mut Vec<(u32, u32, u32)>,
        slots: &mut usize,
        piece_len: u64,
        Ghost(o): Ghost<TorrentState>,
        Ghost(p0): Ghost<PeerState>,
        Ghost(should): Ghost<bool>,
        Ghost(w1): Ghost<WorkPlan>,
    ) -> (w: Ghost<WorkPlan>)
        requires
                i < old(self).peers@.len(),
                w1.batch == old(batch)@,
                w1.active == old(active)@,
                w1.slots == *old(slots) as int,
                w1.need == old(self).need_queue@,
                w1.pending == old(self).pending_queue@,
                w1.status == old(self).torrent_status,
                w1.peer_pending == old(self).peers@[i as int].pending_requests@.to_set(),
                old(active)@.no_duplicates(),
                *old(slots) <= MAX_PIPELINE_DEPTH,
                spec_available_slots(p0.inflight_requests) == *old(slots) + old(batch)@.len(),
                queues_ok(old(self).need_queue@, old(self).pending_queue@),
                peers_ok(old(self).peers@, old(self).torrent_status),
                old(self).peers@.len() == o.peers@.len(),
                forall|j: int| 0 <= j < o.peers@.len() && j != i ==> #[trigger] old(self).peers@[j] == o.peers@[j],
                old(self).peers@[i as int] == (PeerState {
                    am_interested: should,
                    pending_requests: old(self).peers@[i as int].pending_requests,
                    active_blocks: old(self).peers@[i as int].active_blocks,
                    ..p0
                }),
                old(self).peers@[i as int].active_blocks@.len() == 0,
                chosen@.len() > 0 ==> should,
                old(self).torrent_status == TorrentStatus::Done ==> o.torrent_status == TorrentStatus::Done,
                !(o.done_settled() && o.torrent_status == TorrentStatus::Done),
                !(old(self).peers@[i as int].peer_choking == ChokeStatus::Choke),
                old(self).block_manager == o.block_manager,
                old(self).piece_roots == o.piece_roots,
                old(self).done == o.done,
                old(self).number_of_successfully_connected_peers == o.number_of_successfully_connected_peers,
                old(self).session_total_downloaded == o.session_total_downloaded,
                old(self).session_total_uploaded == o.session_total_uploaded,
                old(self).torrent_status != TorrentStatus::Endgame ==> o.torrent_status != TorrentStatus::Endgame,
                start_ok(o, p0, chosen@, *old(self)),
                piece_len == o.piece_length,
                piece_len <= u32::MAX,
        ensures
                i < final(self).peers@.len(),
            w@ == plan_all(o.block_manager, o.piece_roots@, o.piece_length, w1, chosen@, true, Set::empty()),
                w@.batch == final(batch)@,
                w@.active == final(active)@,
                w@.slots == *final(slots) as int,
                w@.need == final(self).need_queue@,
                w@.pending == final(self).pending_queue@,
                w@.status == final(self).torrent_status,
                w@.peer_pending == final(self).peers@[i as int].pending_requests@.to_set(),
                final(active)@.no_duplicates(),
                *final(slots) <= MAX_PIPELINE_DEPTH,
                spec_available_slots(p0.inflight_requests) == *final(slots) + final(batch)@.len(),
                queues_ok(final(self).need_queue@, final(self).pending_queue@),
                peers_ok(final(self).peers@, final(self).torrent_status),
                final(self).peers@.len() == o.peers@.len(),
                forall|j: int| 0 <= j < o.peers@.len() && j != i ==> #[trigger] final(self).peers@[j] == o.peers@[j],
                final(self).peers@[i as int] == (PeerState {
                    am_interested: should,
                    pending_requests: final(self).peers@[i as int].pending_requests,
                    active_blocks: final(self).peers@[i as int].active_blocks,
                    ..p0
                }),
                final(self).peers@[i as int].active_blocks@.len() == 0,
                chosen@.len() > 0 ==> should,
                final(self).torrent_status == TorrentStatus::Done ==> o.torrent_status == TorrentStatus::Done,
                !(o.done_settled() && o.torrent_status == TorrentStatus::Done),
                !(final(self).peers@[i as int].peer_choking == ChokeStatus::Choke),
                *final(self) == (TorrentState {
                    need_queue: final(self).need_queue,
                    pending_queue: final(self).pending_queue,
                    torrent_status: final(self).torrent_status,
                    peers: final(self).peers,
                    ..*old(self)
                }),
                old(self).block_manager == o.block_manager,
                old(self).piece_roots == o.piece_roots,
                old(self).done == o.done,
                old(self).number_of_successfully_connected_peers == o.number_of_successfully_connected_peers,
                old(self).session_total_downloaded == o.session_total_downloaded,
                old(self).session_total_uploaded == o.session_total_uploaded,
                final(self).torrent_status != TorrentStatus::Endgame ==> o.torrent_status != TorrentStatus::Endgame,
                start_ok(o, p0, chosen@, *final(self)),
                piece_len == o.piece_length,
                piece_len <= u32::MAX,
    {
        let ghost mut w = w1;
        let ghost mid2 = *self;
        proof {
            assert(chosen@.take(0) =~= Seq::<u32>::empty());
        }
        let mut k: usize = 0;
        while k < chosen.len()
            invariant
                0 <= k <= chosen@.len(),
                i < self.peers@.len(),
                w == plan_all(o.block_manager, o.piece_roots@, o.piece_length, w1, chosen@.take(k as int), true, Set::empty()),
                w.batch == batch@,
                w.active == active@,
                w.slots == *slots as int,
                w.need == self.need_queue@,
                w.pending == self.pending_queue@,
                w.status == self.torrent_status,
                w.peer_pending == self.peers@[i as int].pending_requests@.to_set(),
                active@.no_duplicates(),
                *slots <= MAX_PIPELINE_DEPTH,
                spec_available_slots(p0.inflight_requests) == *slots + batch@.len(),
                queues_ok(self.need_queue@, self.pending_queue@),
                peers_ok(self.peers@, self.torrent_status),
                self.peers@.len() == o.peers@.len(),
                forall|j: int| 0 <= j < o.peers@.len() && j != i ==> #[trigger] self.peers@[j] == o.peers@[j],
                self.peers@[i as int] == (PeerState {
                    am_interested: should,
                    pending_requests: self.peers@[i as int].pending_requests,
                    active_blocks: self.peers@[i as int].active_blocks,
                    ..p0
                }),
                self.peers@[i as int].active_blocks@.len() == 0,
                chosen@.len() > 0 ==> should,
                self.torrent_status == TorrentStatus::Done ==> o.torrent_status == TorrentStatus::Done,
                !(o.done_settled() && o.torrent_status == TorrentStatus::Done),
                !(self.peers@[i as int].peer_choking == ChokeStatus::Choke),
                *self == (TorrentState {
                    need_queue: self.need_queue,
                    pending_queue: self.pending_queue,
                    torrent_status: self.torrent_status,
                    peers: self.peers,
                    ..mid2
                }),
                mid2.block_manager == o.block_manager,
                mid2.piece_roots == o.piece_roots,
                mid2.done == o.done,
                mid2.number_of_successfully_connected_peers == o.number_of_successfully_connected_peers,
                mid2.session_total_downloaded == o.session_total_downloaded,
                mid2.session_total_uploaded == o.session_total_uploaded,
                self.torrent_status != TorrentStatus::Endgame ==> o.torrent_status != TorrentStatus::Endgame,
                start_ok(o, p0, chosen@, *self),
                piece_len == o.piece_length,
                piece_len <= u32::MAX,
            decreases chosen@.len() - k,
        {
            let pc = chosen[k];
            proof {
                assert(chosen@.take(k + 1).drop_last() =~= chosen@.take(k as int));
            }
            let ghost b = *self;
            if *slots > 0 {
                self.mark_piece_pending(pc);
                let ghost before = self.peers@;
                self.peers[i].add_pending(pc);
                proof {
                    lemma_peer_update(before, self.peers@, i as int, self.torrent_status);
                }
                let endgame_now = match self.torrent_status {
                    TorrentStatus::Endgame => true,
                    _ => false,
                };
                if self.need_queue.len() == 0 && !endgame_now {
                    self.torrent_status = TorrentStatus::Endgame;
                }
                proof {
                    assert(self.peers@ =~= b.peers@.update(i as int, self.peers@[i as int]));
                    assert(start_ok(o, p0, chosen@, *self)) by {
                        reveal(start_ok);
                        if o.consistent() {
                            assert(chosen@[k as int] == pc);
                            lemma_start_piece(b, *self, i as int, pc);
                        }
                    }
                    crate::assign::law_piece_requests_are_fresh(o.block_manager, o.piece_roots@, o.piece_length, pc, active@, local_block_count(o.block_manager, pc));
                    lemma_append_fresh(active@, piece_picks(o.block_manager, o.piece_roots@, o.piece_length, pc, active@, local_block_count(o.block_manager, pc)), *slots as int);
                }
                request_blocks_for_piece(&self.block_manager, &self.piece_roots, piece_len, pc, active, batch, slots);
            }
            proof {
                w = plan_piece(o.block_manager, o.piece_roots@, o.piece_length, w, pc, true, Set::empty());
            }
            k = k + 1;
        }
        proof {
            assert(chosen@.take(chosen@.len() as int) =~= chosen@);
        }
        Ghost(w)
    }

    /// `AssignWork`: see `post_assign_work`.
    #[verifier::rlimit(100)]
    #[verifier::spinoff_prover]
    pub fn assign_work(&mut self, peer_id: String) -> (effects: Vec<Effect>)
        requires
            old(self).inv(),
        ensures
            final(self).inv(),
            old(self).done_settled() ==> final(self).done_settled(),
            keeps(*old(self), *final(self)),
            post_assign_work(*old(self), *final(self), effects@, peer_id),
    {
        let validating = match self.torrent_status {
            TorrentStatus::Validating => true,
            _ => false,
        };
        if validating || self.done.len() == 0 || !self.has_data_path || (self.need_queue.len() == 0
            && self.pending_queue.len() == 0) || !self.has_metadata {
            proof {
                assert(keeps(*old(self), *self)) by {
                    reveal(keeps);
                }
            }
            return nothing();
        }
        let i = match self.find_peer(&peer_id) {
            Some(i) => i,
            None => {
                proof {
                    assert(keeps(*old(self), *self)) by {
                        reveal(keeps);
                    }
                }
                return Vec::new();
            },
        };
        let ghost o = *self;
        let ghost p0 = self.peers@[i as int];
        proof {
            assert(!(o.done_settled() && o.torrent_status == TorrentStatus::Done));
        }
        let should = should_be_interested(
            self.peers[i].bitfield.as_slice(),
            self.need_queue.as_slice(),
            self.pending_queue.as_slice(),
            self.peers[i].pending_requests.len() > 0,
        );
        let change = self.peers[i].update_interest(should);
        proof {
            lemma_peer_update(o.peers@, self.peers@, i as int, self.torrent_status);
        }
        let mut effects: Vec<Effect> = Vec::new();
        match change {
            Some(true) => {
                effects.push(Effect::SendToPeer { peer_id: peer_id.clone(), cmd: PeerCommand::ClientInterested });
            },
            Some(false) => {
                effects.push(Effect::SendToPeer { peer_id: peer_id.clone(), cmd: PeerCommand::NotInterested });
            },
            None => {},
        }
        proof {
            assert(effects@ =~= interest_msg(peer_id, p0.am_interested, should));
        }
        let choking = match self.peers[i].peer_choking {
            ChokeStatus::Choke => true,
            ChokeStatus::Unchoke => false,
        };
        if choking || self.peers[i].bitfield.len() == 0 || self.peers[i].inflight_requests >= MAX_PIPELINE_DEPTH {
            proof {
                if o.done_settled() && o.torrent_status == TorrentStatus::Done {
                    assert(o.need_queue@.len() == 0 && o.pending_queue@.len() == 0);
                }
                assert(keeps(o, *self)) by {
                    reveal(keeps);
                    if o.consistent() {
                        lemma_same_work(o, *self);
                    }
                }
            }
            return effects;
        }
        let mut slots = available_slots(self.peers[i].inflight_requests);
        let mut batch: Vec<(u32, u32, u32)> = Vec::new();
        let mut active: Vec<(u32, u32, u32)> = Vec::new();
        std::mem::swap(&mut active, &mut self.peers[i].active_blocks);
        let pend = sorted_pieces(&self.peers[i].pending_requests);
        let piece_len = self.piece_length;
        let ghost w0 = WorkPlan {
            need: o.need_queue@,
            pending: o.pending_queue@,
            status: o.torrent_status,
            peer_pending: p0.pending_requests@.to_set(),
            batch: seq![],
            active: p0.active_blocks@,
            slots: spec_available_slots(p0.inflight_requests) as int,
        };
        let ghost mut w = w0;
        let ghost mid = *self;
        let mut k: usize = 0;
        while k < pend.len()
            invariant
                0 <= k <= pend@.len(),
                i < self.peers@.len(),
                pend@ == sorted_of(p0.pending_requests@),
                w == plan_all(o.block_manager, o.piece_roots@, o.piece_length, w0, pend@.take(k as int), false, o.verifying_pieces@),
                w.batch == batch@,
                w.active == active@,
                w.slots == slots as int,
                w.need == o.need_queue@,
                w.pending == o.pending_queue@,
                w.status == o.torrent_status,
                w.peer_pending == p0.pending_requests@.to_set(),
                active@.no_duplicates(),
                slots <= MAX_PIPELINE_DEPTH,
                spec_available_slots(p0.inflight_requests) == slots + batch@.len(),
                *self == mid,
                mid.block_manager == o.block_manager,
                mid.piece_roots == o.piece_roots,
                mid.verifying_pieces == o.verifying_pieces,
                piece_len == o.piece_length,
                piece_len <= u32::MAX,
            decreases pend@.len() - k,
        {
            let pc = pend[k];
            proof {
                assert(pend@.take(k + 1).drop_last() =~= pend@.take(k as int));
            }
            if slots > 0 && !self.verifying_pieces.contains(&pc) {
                proof {
                    crate::assign::law_piece_requests_are_fresh(o.block_manager, o.piece_roots@, o.piece_length, pc, active@, local_block_count(o.block_manager, pc));
                    lemma_append_fresh(active@, piece_picks(o.block_manager, o.piece_roots@, o.piece_length, pc, active@, local_block_count(o.block_manager, pc)), slots as int);
                }
                request_blocks_for_piece(&self.block_manager, &self.piece_roots, piece_len, pc, &mut active, &mut batch, &mut slots);
            }
            proof {
                w = plan_piece(o.block_manager, o.piece_roots@, o.piece_length, w, pc, false, o.verifying_pieces@);
            }
            k = k + 1;
        }
        proof {
            assert(pend@.take(pend@.len() as int) =~= pend@);
        }
        let ghost w1 = w;
        let mut cands: Vec<u32> = Vec::new();
        copy_pieces(&self.need_queue, &mut cands);
        let endgame = match self.torrent_status {
            TorrentStatus::Endgame => true,
            _ => false,
        };
        if endgame {
            copy_pieces(&self.pending_queue, &mut cands);
        }
        proof {
            assert(cands@ =~= candidates(o));
        }
        let avail = availability_of(&self.peers, &cands);
        proof {
            assert forall|x: int| 0 <= x < cands@.len() implies avail_count(self.peers@, cands@[x]) == avail_count(o.peers@, cands@[x]) by {
                lemma_avail_same(o.peers@, self.peers@, i as int, cands@[x]);
            }
            assert(avail@ =~= candidate_availability(o.peers@, cands@));
        }
        let chosen = choose_pieces_to_start(
            cands.as_slice(),
            avail.as_slice(),
            self.peers[i].bitfield.as_slice(),
            &self.verifying_pieces,
            self.peers[i].pending_requests.as_slice(),
            slots,
        );
        let ghost r0 = choose|r: Seq<usize>| is_candidate_order(
            cands@,
            avail@,
            p0.bitfield@,
            o.verifying_pieces@,
            p0.pending_requests@,
            r,
        );
        proof {
            assert(chosen@ == clip(pieces_at(cands@, r0), w1.slots));
            if chosen@.len() > 0 {
                lemma_chosen_interesting(o, p0, cands@, avail@, r0, chosen@, w1.slots);
            }
        }
        let ghost mid2 = *self;
        proof {
            assert(start_ok(o, p0, chosen@, mid2)) by {
                reveal(start_ok);
                if o.consistent() {
                    lemma_same_work(o, mid2);
                    lemma_chosen_facts(o, p0, i as int, cands@, avail@, r0, chosen@, w1.slots);
                }
            }
        }
        let w_out = self.start_chosen(i, &chosen, &mut active, &mut batch, &mut slots, piece_len, Ghost(o), Ghost(p0), Ghost(should), Ghost(w1));
        proof {
            w = w_out@;
        }
        let ghost s_loop = *self;
        std::mem::swap(&mut active, &mut self.peers[i].active_blocks);
        let n = batch.len();
        if n > 0 {
            let downloading = match self.last_activity {
                TorrentActivity::DownloadingPiece(_) => true,
                _ => false,
            };
            if !downloading {
                self.last_activity = TorrentActivity::RequestingPieces;
            }
            self.peers[i].record_requests(n);
            effects.push(Effect::SendToPeer { peer_id, cmd: PeerCommand::BulkRequest(batch) });
        }
        proof {
            assert(self.peers@ =~= o.peers@.update(i as int, self.peers@[i as int]));
            let q = self.peers@[i as int];
            if chosen@.len() == 0 {
                assert(chosen@.take(0) =~= chosen@);
                assert(q.pending_requests@.to_set() == p0.pending_requests@.to_set());
                if q.pending_requests@.len() > 0 {
                    assert(q.pending_requests@.to_set().contains(q.pending_requests@[0]));
                    assert(p0.pending_requests@.contains(q.pending_requests@[0]));
                    assert(p0.pending_requests@.len() > 0);
                }
            }
            lemma_peer_update(o.peers@, self.peers@, i as int, self.torrent_status);
            assert(self.peers@ =~= s_loop.peers@.update(i as int, self.peers@[i as int]));
            assert(keeps(o, *self)) by {
                reveal(keeps);
                reveal(start_ok);
                if o.consistent() {
                    lemma_same_work(s_loop, *self);
                }
            }
            let msg = interest_msg(peer_id, p0.am_interested, should);
            if n > 0 {
                assert(effects@ =~= msg + seq![effects@.last()]);
            } else {
                assert(effects@ =~= msg + Seq::<Effect>::empty());
            }
            lemma_assign_post(o, *self, effects@, peer_id, i as int, should, w0, w1, w, chosen@);
        }
        effects
    }
}

/// The last stage of `assign_work` meets `post_assign_work`.
proof fn lemma_assign_post(
    o: TorrentState,
    n: TorrentState,
    e: Seq<Effect>,
    peer_id: String,
    i: int,
    should: bool,
    w0: WorkPlan,
    w1: WorkPlan,
    w2: WorkPlan,
    chosen: Seq<u32>,
)
    requires
        !work_blocked(o),
        peer_pos(o.peers@, peer_id@) == Some(i),
        0 <= i < o.peers@.len(),
        should == spec_should_be_interested(
            o.peers@[i].bitfield@,
            o.need_queue@,
            o.pending_queue@,
            o.peers@[i].pending_requests@.len() > 0,
        ),
        !(o.peers@[i].peer_choking == ChokeStatus::Choke),
        o.peers@[i].bitfield@.len() > 0,
        o.peers@[i].inflight_requests < MAX_PIPELINE_DEPTH,
        w0 == (WorkPlan {
            need: o.need_queue@,
            pending: o.pending_queue@,
            status: o.torrent_status,
            peer_pending: o.peers@[i].pending_requests@.to_set(),
            batch: seq![],
            active: o.peers@[i].active_blocks@,
            slots: spec_available_slots(o.peers@[i].inflight_requests) as int,
        }),
        w1 == plan_all(
            o.block_manager,
            o.piece_roots@,
            o.piece_length,
            w0,
            sorted_of(o.peers@[i].pending_requests@),
            false,
            o.verifying_pieces@,
        ),
        forall|r: Seq<usize>|
            is_candidate_order(
                candidates(o),
                candidate_availability(o.peers@, candidates(o)),
                o.peers@[i].bitfield@,
                o.verifying_pieces@,
                o.peers@[i].pending_requests@,
                r,
            ) ==> chosen == clip(pieces_at(candidates(o), r), w1.slots),
        w2 == plan_all(o.block_manager, o.piece_roots@, o.piece_length, w1, chosen, true, Set::empty()),
        n.need_queue@ == w2.need,
        n.pending_queue@ == w2.pending,
        n.torrent_status == w2.status,
        n.peers@.len() == o.peers@.len(),
        forall|j: int| 0 <= j < o.peers@.len() && j != i ==> #[trigger] n.peers@[j] == o.peers@[j],
        n.peers@[i].pending_requests@.to_set() == w2.peer_pending,
        n.peers@[i].active_blocks@ == w2.active,
        n.peers@[i].inflight_requests == o.peers@[i].inflight_requests + w2.batch.len(),
        n.peers@[i] == (PeerState {
            am_interested: should,
            pending_requests: n.peers@[i].pending_requests,
            active_blocks: n.peers@[i].active_blocks,
            inflight_requests: n.peers@[i].inflight_requests,
            ..o.peers@[i]
        }),
        w2.batch.len() > 0 ==> e == interest_msg(peer_id, o.peers@[i].am_interested, should) + seq![e.last()]
            && e.last() == (Effect::SendToPeer {
                peer_id,
                cmd: PeerCommand::BulkRequest(e.last()->cmd->BulkRequest_0),
            }) && e.last()->cmd->BulkRequest_0@ == w2.batch,
        w2.batch.len() == 0 ==> e == interest_msg(peer_id, o.peers@[i].am_interested, should),
        n == (TorrentState {
            need_queue: n.need_queue,
            pending_queue: n.pending_queue,
            torrent_status: n.torrent_status,
            peers: n.peers,
            last_activity: if w2.batch.len() > 0 && !(o.last_activity is DownloadingPiece) {
                TorrentActivity::RequestingPieces
            } else {
                o.last_activity
            },
            ..o
        }),
    ensures
        post_assign_work(o, n, e, peer_id),
{
    if w2.batch.len() == 0 {
        assert(e =~= interest_msg(peer_id, o.peers@[i].am_interested, should) + Seq::<Effect>::empty());
    }
}

proof fn lemma_avail_same(a: Seq<PeerState>, b: Seq<PeerState>, i: int, p: u32)
    requires
        a.len() == b.len(),
        0 <= i < a.len(),
        forall|j: int| 0 <= j < a.len() && j != i ==> #[trigger] b[j] == a[j],
        b[i].bitfield == a[i].bitfield,
    ensures
        avail_count(b, p) == avail_count(a, p),
    decreases a.len(),
{
    if a.len() > 0 {
        if i < a.len() - 1 {
            lemma_avail_same(a.drop_last(), b.drop_last(), i, p);
            assert(b.last() == a.last());
        } else {
            assert(a.drop_last() =~= b.drop_last());
        }
    }
}

/// A piece chosen to start makes the peer interesting: it has the piece, and
/// the piece is still needed or in flight.
proof fn lemma_chosen_interesting(
    o: TorrentState,
    p0: PeerState,
    cands: Seq<u32>,
    avail: Seq<usize>,
    r: Seq<usize>,
    chosen: Seq<u32>,
    m: int,
)
    requires
        cands == candidates(o),
        is_candidate_order(cands, avail, p0.bitfield@, o.verifying_pieces@, p0.pending_requests@, r),
        chosen.len() > 0,
        m >= 0,
        chosen == clip(pieces_at(cands, r), m),
        p0.bitfield@.len() > 0,
    ensures
        spec_should_be_interested(p0.bitfield@, o.need_queue@, o.pending_queue@, p0.pending_requests@.len() > 0),
{
    assert(pieces_at(cands, r).len() > 0);
    assert(r.contains(r[0]));
    let x = r[0];
    let pc = cands[x as int];
    assert(crate::assign::peer_has(p0.bitfield@, pc));
    if (x as int) < o.need_queue@.len() {
        assert(o.need_queue@[x as int] == pc);
    } else {
        assert(o.torrent_status == TorrentStatus::Endgame);
        assert(o.pending_queue@[x - o.need_queue@.len()] == pc);
    }
}


/// What `on_peer_unchoked` does: the peer lets us download, and work is
/// handed to it.
pub open spec fn post_peer_unchoked(o: TorrentState, n: TorrentState, e: Seq<Effect>, peer_id: String) -> bool {
    match peer_pos(o.peers@, peer_id@) {
        Some(i) => exists|m: TorrentState|
            #[trigger] post_assign_work(m, n, e, peer_id) && m == with_peers(o, m.peers) && m.peers@
                == o.peers@.update(i, PeerState { peer_choking: ChokeStatus::Unchoke, ..o.peers@[i] }),
        None => post_assign_work(o, n, e, peer_id),
    }
}

/// What `on_peer_have` does: the peer's flag for the piece is set (when the
/// piece is within its bitfield), and work is handed to it.
pub open spec fn post_peer_have(
    o: TorrentState,
    n: TorrentState,
    e: Seq<Effect>,
    peer_id: String,
    piece_index: u32,
) -> bool {
    match peer_pos(o.peers@, peer_id@) {
        Some(i) => exists|m: TorrentState|
            #[trigger] post_assign_work(m, n, e, peer_id) && m == with_peers(o, m.peers) && m.peers@
                == o.peers@.update(i, m.peers@[i]) && m.peers@[i] == (PeerState {
                bitfield: m.peers@[i].bitfield,
                ..o.peers@[i]
            }) && m.peers@[i].bitfield@ == if piece_index < o.peers@[i].bitfield@.len() {
                o.peers@[i].bitfield@.update(piece_index as int, true)
            } else {
                o.peers@[i].bitfield@
            },
        None => post_assign_work(o, n, e, peer_id),
    }
}

/// What `on_peer_bitfield` does: a peer that already announced pieces and
/// sends a second bitfield is dropped; otherwise its flags are taken from the
/// message (fitted to the torrent's piece count, when known), and work is
/// handed to it.
pub open spec fn post_peer_bitfield(
    o: TorrentState,
    n: TorrentState,
    e: Seq<Effect>,
    peer_id: String,
    bitfield: Vec<u8>,
) -> bool {
    match peer_pos(o.peers@, peer_id@) {
        Some(i) => if exists|k: int|
            0 <= k < o.peers@[i].bitfield@.len() && o.peers@[i].bitfield@[k] {
            n == o && e == seq![Effect::DisconnectPeer { peer_id }]
        } else {
            exists|m: TorrentState|
                #[trigger] post_assign_work(m, n, e, peer_id) && m == with_peers(o, m.peers) && m.peers@
                    == o.peers@.update(i, m.peers@[i]) && m.peers@[i] == (PeerState {
                    bitfield: m.peers@[i].bitfield,
                    ..o.peers@[i]
                }) && m.peers@[i].bitfield@ == crate::state::spec_expand_bitfield(
                    bitfield@,
                    o.done@.len() as int,
                )
        },
        None => post_assign_work(o, n, e, peer_id),
    }
}

impl TorrentState {
    /// `PeerUnchoked`: see `post_peer_unchoked`.
    pub fn on_peer_unchoked(&mut self, peer_id: String) -> (effects: Vec<Effect>)
        requires
            old(self).inv(),
        ensures
            final(self).inv(),
            old(self).consistent() ==> final(self).consistent(),
            old(self).done_settled() ==> final(self).done_settled(),
            post_peer_unchoked(*old(self), *final(self), effects@, peer_id),
    {
        match self.find_peer(&peer_id) {
            Some(i) => {
                self.peers[i].on_unchoked();
                proof {
                    lemma_peer_update(old(self).peers@, self.peers@, i as int, self.torrent_status);
                    if old(self).consistent() {
                        assert(self.peers@ =~= old(self).peers@.update(i as int, self.peers@[i as int]));
                        lemma_peer_work(*old(self), *self, i as int);
                    }
                }
            },
            None => {},
        }
        let ghost m = *self;
        let effects = self.assign_work(peer_id);
        proof {
            assert(post_assign_work(m, *self, effects@, peer_id));
            reveal(keeps);
        }
        effects
    }

    /// `PeerHavePiece`: see `post_peer_have`.
    #[verifier::spinoff_prover]
    #[verifier::rlimit(100)]
    pub fn on_peer_have(&mut self, peer_id: String, piece_index: u32) -> (effects: Vec<Effect>)
        requires
            old(self).inv(),
        ensures
            final(self).inv(),
            old(self).consistent() ==> final(self).consistent(),
            old(self).done_settled() ==> final(self).done_settled(),
            post_peer_have(*old(self), *final(self), effects@, peer_id, piece_index),
    {
        match self.find_peer(&peer_id) {
            Some(i) => {
                if (piece_index as usize) < self.peers[i].bitfield.len() {
                    self.peers[i].bitfield.set(piece_index as usize, true);
                    proof {
                        assert(self.peers@ =~= old(self).peers@.update(i as int, self.peers@[i as int]));
                        lemma_peer_update(old(self).peers@, self.peers@, i as int, self.torrent_status);
                        if old(self).consistent() {
                            assert forall|q: u32| #[trigger] self.peers@[i as int].pending_requests@.contains(q)
                                implies crate::assign::peer_has(self.peers@[i as int].bitfield@, q) by {
                                assert(old(self).peers@[i as int].pending_requests@.contains(q));
                            }
                            lemma_peer_work(*old(self), *self, i as int);
                        }
                    }
                } else {
                    proof {
                        assert(self.peers@ =~= old(self).peers@.update(i as int, self.peers@[i as int]));
                    }
                }
            },
            None => {},
        }
        let ghost m = *self;
        let effects = self.assign_work(peer_id);
        proof {
            assert(post_assign_work(m, *self, effects@, peer_id));
            reveal(keeps);
        }
        effects
    }

    /// `PeerBitfieldReceived`: see `post_peer_bitfield`.
    pub fn on_peer_bitfield(&mut self, peer_id: String, bitfield: Vec<u8>) -> (effects: Vec<Effect>)
        requires
            old(self).inv(),
            8 * bitfield@.len() <= usize::MAX,
        ensures
            final(self).inv(),
            old(self).consistent() ==> final(self).consistent(),
            old(self).done_settled() ==> final(self).done_settled(),
            post_peer_bitfield(*old(self), *final(self), effects@, peer_id, bitfield),
    {
        match self.find_peer(&peer_id) {
            Some(i) => {
                let total = self.done.len();
                match crate::state::receive_peer_bitfield(self.peers[i].bitfield.as_slice(), bitfield.as_slice(), total) {
                    None => {
                        return single(Effect::DisconnectPeer { peer_id });
                    },
                    Some(flags) => {
                        self.peers[i].bitfield = flags;
                        proof {
                            lemma_peer_update(old(self).peers@, self.peers@, i as int, self.torrent_status);
                            if old(self).consistent() {
                                let op = old(self).peers@[i as int];
                                if op.pending_requests@.len() > 0 {
                                    let q = op.pending_requests@[0];
                                    assert(op.pending_requests@.contains(q));
                                    assert(op.bitfield@[q as int]);
                                }
                                assert(self.peers@ =~= old(self).peers@.update(i as int, self.peers@[i as int]));
                                lemma_peer_work(*old(self), *self, i as int);
                            }
                        }
                    },
                }
            },
            None => {},
        }
        let ghost m = *self;
        let effects = self.assign_work(peer_id);
        proof {
            assert(post_assign_work(m, *self, effects@, peer_id));
            reveal(keeps);
        }
        effects
    }
}


/// What the metadata tells the manager about a torrent.
#[derive(Debug)]
pub struct TorrentMeta {
    pub total_length: u64,
    pub piece_length: u64,
    pub num_pieces: usize,
    pub web_seeds: Vec<String>,
}

impl TorrentState {
    /// A torrent as the manager starts it: validating when its metadata is
    /// known, awaiting metadata otherwise; running, with no peers, no piece
    /// done, nothing queued, and an optimistic unchoke due at the first
    /// choke round (its timer set 31 s back, or to now when the clock is
    /// younger than that). Every tracker is due at once.
    pub fn new(
        info_hash: Vec<u8>,
        meta: Option<TorrentMeta>,
        tracker_urls: Vec<String>,
        now_ms: u64,
    ) -> (s: Self)
        requires
            urls_unique(tracker_urls@),
            meta matches Some(m) ==> m.piece_length <= u32::MAX,
        ensures
            s.inv(),
            s.done_settled(),
            s.consistent(),
            s.info_hash == info_hash,
            s.tracker_urls == tracker_urls,
            s.trackers@.len() == tracker_urls@.len(),
            forall|i: int| 0 <= i < s.trackers@.len() ==> #[trigger] s.trackers@[i] == (TrackerState {
                next_announce_time: now_ms,
                leeching_interval: None,
                seeding_interval: None,
            }),
            s.has_metadata == meta is Some,
            s.torrent_status == if meta is Some {
                TorrentStatus::Validating
            } else {
                TorrentStatus::AwaitingMetadata
            },
            s.done@ == Seq::new(
                match meta {
                    Some(m) => m.num_pieces as nat,
                    None => 0,
                },
                |k: int| false,
            ),
            match meta {
                Some(m) => s.total_length == m.total_length && s.piece_length == m.piece_length
                    && s.web_seeds == m.web_seeds,
                None => s.total_length == 0 && s.piece_length == 0 && s.web_seeds@.len() == 0,
            },
            !s.is_paused,
            s.now_ms == now_ms,
            s.optimistic_unchoke_timer == Some(if now_ms >= 31_000 { (now_ms - 31_000) as u64 } else { now_ms }),
            s.peers@.len() == 0,
            s.need_queue@.len() == 0,
            s.pending_queue@.len() == 0,
            s.timed_out_peers@.len() == 0,
            s.piece_priorities@.len() == 0,
            s.session_total_uploaded == 0,
            s.session_total_downloaded == 0,
            s.last_activity == TorrentActivity::Initializing,
            s.accepting_new_peers,
    {
        let (has_metadata, total_length, piece_length, num_pieces, web_seeds) = match meta {
            Some(m) => (true, m.total_length, m.piece_length, m.num_pieces, m.web_seeds),
            None => (false, 0, 0, 0, Vec::new()),
        };
        let mut done: Vec<bool> = Vec::new();
        let mut k: usize = 0;
        while k < num_pieces
            invariant
                0 <= k <= num_pieces,
                done@ == Seq::new(k as nat, |j: int| false),
            decreases num_pieces - k,
        {
            done.push(false);
            k = k + 1;
            proof {
                assert(done@ =~= Seq::new(k as nat, |j: int| false));
            }
        }
        let mut trackers: Vec<TrackerState> = Vec::new();
        let mut t: usize = 0;
        while t < tracker_urls.len()
            invariant
                0 <= t <= tracker_urls@.len(),
                trackers@.len() == t,
                forall|i: int| 0 <= i < t ==> #[trigger] trackers@[i] == (TrackerState {
                    next_announce_time: now_ms,
                    leeching_interval: None,
                    seeding_interval: None,
                }),
            decreases tracker_urls@.len() - t,
        {
            trackers.push(TrackerState { next_announce_time: now_ms, leeching_interval: None, seeding_interval: None });
            t = t + 1;
        }
        let timer = if now_ms >= 31_000 {
            now_ms - 31_000
        } else {
            now_ms
        };
        TorrentState {
            info_hash,
            has_metadata,
            total_length,
            piece_length,
            web_seeds,
            is_paused: false,
            torrent_status: if has_metadata {
                TorrentStatus::Validating
            } else {
                TorrentStatus::AwaitingMetadata
            },
            last_activity: TorrentActivity::Initializing,
            has_made_first_connection: false,
            session_total_uploaded: 0,
            session_total_downloaded: 0,
            bytes_downloaded_in_interval: 0,
            bytes_uploaded_in_interval: 0,
            number_of_successfully_connected_peers: 0,
            peers: Vec::new(),
            done,
            piece_priorities: Vec::new(),
            need_queue: Vec::new(),
            pending_queue: Vec::new(),
            tracker_urls,
            trackers,
            timed_out_peers: Vec::new(),
            last_known_peers: Vec::new(),
            optimistic_unchoke_timer: Some(timer),
            validation_pieces_found: 0,
            now_ms,
            has_started_announce_sent: false,
            verifying_pieces: HashSet::new(),
            has_data_path: false,
            has_file_layout: false,
            block_manager: BlockManager::new(),
            piece_roots: HashMap::new(),
            pending_disconnects: Vec::new(),
            pending_failures: Vec::new(),
            accepting_new_peers: true,
        }
    }
}


/// What the choking rules read of the peers.
pub open spec fn choke_view(peers: Seq<PeerState>) -> Seq<crate::state::ChokePeer> {
    peers.map_values(
        |p: PeerState|
            crate::state::ChokePeer {
                ip_port: p.ip_port,
                am_choking: p.am_choking,
                peer_is_interested_in_us: p.peer_is_interested_in_us,
                bytes_downloaded_from_peer: p.bytes_downloaded_from_peer,
                bytes_uploaded_to_peer: p.bytes_uploaded_to_peer,
            },
    )
}

/// The choke or unchoke message for each change, in order.
pub open spec fn choke_msgs(peers: Seq<PeerState>, changes: Seq<(usize, ChokeStatus)>) -> Seq<Effect> {
    changes.map_values(
        |c: (usize, ChokeStatus)|
            Effect::SendToPeer {
                peer_id: peers[c.0 as int].ip_port,
                cmd: if c.1 == ChokeStatus::Unchoke {
                    PeerCommand::Unchoke
                } else {
                    PeerCommand::Choke
                },
            },
    )
}

/// What `on_recalculate_chokes` does: the interested peers are ranked (by
/// what they sent us, or while seeding by what we sent them), the best one
/// per upload slot is unchoked, plus one picked by the seed when an
/// optimistic unchoke is due; every other peer is choked; each peer whose
/// status changes is told, and the per-round byte counters start again.
pub open spec fn post_recalculate_chokes(o: TorrentState, n: TorrentState, e: Seq<Effect>, random_seed: u64) -> bool {
    let due = crate::state::spec_optimistic_unchoke_due(o.optimistic_unchoke_timer, o.now_ms);
    &&& n == (TorrentState {
        peers: n.peers,
        optimistic_unchoke_timer: if due {
            Some(o.now_ms)
        } else {
            o.optimistic_unchoke_timer
        },
        ..o
    })
    &&& n.peers@.len() == o.peers@.len()
    &&& forall|r: Seq<usize>|
        crate::state::is_unchoke_ranking(choke_view(o.peers@), seeding(o), r) ==> {
            let u = crate::state::unchoke_set(r, due, random_seed);
            &&& forall|i: int|
                0 <= i < o.peers@.len() ==> #[trigger] n.peers@[i] == (PeerState {
                    am_choking: if u.contains(i as usize) {
                        ChokeStatus::Unchoke
                    } else {
                        ChokeStatus::Choke
                    },
                    bytes_downloaded_from_peer: 0,
                    bytes_uploaded_to_peer: 0,
                    ..o.peers@[i]
                })
            &&& e == choke_msgs(
                o.peers@,
                crate::state::choke_changes(choke_view(o.peers@), u, o.peers@.len() as int),
            )
        }
}

proof fn lemma_choke_changes_bounded(peers: Seq<crate::state::ChokePeer>, u: Set<usize>, k: int)
    requires
        0 <= k <= peers.len(),
    ensures
        forall|j: int|
            0 <= j < crate::state::choke_changes(peers, u, k).len() ==> (#[trigger] crate::state::choke_changes(peers, u, k)[j]).0 < k,
    decreases k,
{
    if k > 0 {
        lemma_choke_changes_bounded(peers, u, k - 1);
        let prev = crate::state::choke_changes(peers, u, k - 1);
        let cur = crate::state::choke_changes(peers, u, k);
        assert forall|j: int| 0 <= j < cur.len() implies (#[trigger] cur[j]).0 < k by {
            if j < prev.len() {
                assert(cur[j] == prev[j]);
            }
        }
    }
}

fn copy_status(c: &ChokeStatus) -> (d: ChokeStatus)
    ensures
        d == *c,
{
    match c {
        ChokeStatus::Choke => ChokeStatus::Choke,
        ChokeStatus::Unchoke => ChokeStatus::Unchoke,
    }
}

impl TorrentState {
    /// `RecalculateChokes`: see `post_recalculate_chokes`.
    #[verifier::spinoff_prover]
    #[verifier::rlimit(60)]
    pub fn on_recalculate_chokes(&mut self, random_seed: u64) -> (effects: Vec<Effect>)
        requires
            old(self).inv(),
        ensures
            final(self).inv(),
            old(self).consistent() ==> final(self).consistent(),
            old(self).done_settled() ==> final(self).done_settled(),
            post_recalculate_chokes(*old(self), *final(self), effects@, random_seed),
    {
        let mut view: Vec<crate::state::ChokePeer> = Vec::new();
        let mut i: usize = 0;
        while i < self.peers.len()
            invariant
                0 <= i <= self.peers@.len(),
                self.peers == old(self).peers,
                view@ == choke_view(old(self).peers@).take(i as int),
            decreases self.peers@.len() - i,
        {
            let p = &self.peers[i];
            view.push(crate::state::ChokePeer {
                ip_port: p.ip_port.clone(),
                am_choking: copy_status(&p.am_choking),
                peer_is_interested_in_us: p.peer_is_interested_in_us,
                bytes_downloaded_from_peer: p.bytes_downloaded_from_peer,
                bytes_uploaded_to_peer: p.bytes_uploaded_to_peer,
            });
            i = i + 1;
            proof {
                assert(view@ =~= choke_view(old(self).peers@).take(i as int));
            }
        }
        proof {
            assert(view@ =~= choke_view(old(self).peers@));
        }
        let ghost before_view = view@;
        let is_seeding = match self.torrent_status {
            TorrentStatus::Done => true,
            _ => false,
        };
        let now = self.now_ms;
        let changes = crate::state::recalculate_chokes(&mut view, is_seeding, &mut self.optimistic_unchoke_timer, now, random_seed);
        let ghost r0 = choose|r: Seq<usize>| crate::state::is_unchoke_ranking(before_view, is_seeding, r);
        let ghost due = crate::state::spec_optimistic_unchoke_due(old(self).optimistic_unchoke_timer, now);
        let ghost u = crate::state::unchoke_set(r0, due, random_seed);
        proof {
            assert(crate::state::peers_after_chokes(before_view, view@, u));
            lemma_choke_changes_bounded(before_view, u, before_view.len() as int);
        }
        let ghost mid = *self;
        let mut k: usize = 0;
        while k < self.peers.len()
            invariant
                0 <= k <= self.peers@.len(),
                self.peers@.len() == old(self).peers@.len(),
                view@.len() == old(self).peers@.len(),
                crate::state::peers_after_chokes(before_view, view@, u),
                before_view == choke_view(old(self).peers@),
                peers_ok(self.peers@, self.torrent_status),
                forall|j: int| 0 <= j < k ==> #[trigger] self.peers@[j] == (PeerState {
                    am_choking: if u.contains(j as usize) {
                        ChokeStatus::Unchoke
                    } else {
                        ChokeStatus::Choke
                    },
                    bytes_downloaded_from_peer: 0,
                    bytes_uploaded_to_peer: 0,
                    ..old(self).peers@[j]
                }),
                forall|j: int| k <= j < self.peers@.len() ==> #[trigger] self.peers@[j] == old(self).peers@[j],
                *self == (TorrentState { peers: self.peers, ..mid }),
            decreases self.peers@.len() - k,
        {
            let ghost before = self.peers@;
            let st = copy_status(&view[k].am_choking);
            self.peers[k].am_choking = st;
            self.peers[k].bytes_downloaded_from_peer = 0;
            self.peers[k].bytes_uploaded_to_peer = 0;
            proof {
                assert(self.peers@ =~= before.update(k as int, self.peers@[k as int]));
                lemma_peer_update(before, self.peers@, k as int, self.torrent_status);
            }
            k = k + 1;
        }
        let mut effects: Vec<Effect> = Vec::new();
        proof {
            if old(self).consistent() {
                lemma_same_work(*old(self), *self);
            }
        }
        let mut c: usize = 0;
        while c < changes.len()
            invariant
                0 <= c <= changes@.len(),
                changes@ == crate::state::choke_changes(before_view, u, before_view.len() as int),
                forall|j: int| 0 <= j < changes@.len() ==> (#[trigger] changes@[j]).0 < before_view.len(),
                before_view.len() == old(self).peers@.len(),
                self.peers@.len() == old(self).peers@.len(),
                forall|j: int| 0 <= j < self.peers@.len() ==> (#[trigger] self.peers@[j]).ip_port == old(self).peers@[j].ip_port,
                effects@ == choke_msgs(old(self).peers@, changes@.take(c as int)),
            decreases changes@.len() - c,
        {
            let (idx, status) = (changes[c].0, copy_status(&changes[c].1));
            let cmd = match status {
                ChokeStatus::Unchoke => PeerCommand::Unchoke,
                ChokeStatus::Choke => PeerCommand::Choke,
            };
            effects.push(Effect::SendToPeer { peer_id: self.peers[idx].ip_port.clone(), cmd });
            c = c + 1;
            proof {
                assert(effects@ =~= choke_msgs(old(self).peers@, changes@.take(c as int)));
            }
        }
        proof {
            assert(changes@.take(changes@.len() as int) =~= changes@);
            assert forall|r: Seq<usize>| crate::state::is_unchoke_ranking(choke_view(old(self).peers@), seeding(*old(self)), r) implies r == r0 by {
                crate::state::law_unchoke_ranking_unique(before_view, is_seeding, r, r0);
            }
            if old(self).done_settled() && old(self).torrent_status == TorrentStatus::Done {
                assert forall|j: int| 0 <= j < self.peers@.len() implies !(#[trigger] self.peers@[j]).am_interested by {
                    assert(!old(self).peers@[j].am_interested);
                }
            }
        }
        effects
    }
}


/// What `on_piece_verified` does: the piece is no longer being verified; a
/// valid piece we already have is dropped from the peer's work and more work
/// is handed to the peer; a valid new piece is written to disk; an invalid
/// piece's assembly starts over and the peer is disconnected. A piece index
/// past the torrent's pieces is ignored.
pub open spec fn post_piece_verified(
    o: TorrentState,
    n: TorrentState,
    e: Seq<Effect>,
    peer_id: String,
    piece_index: u32,
    valid: bool,
    data: Vec<u8>,
) -> bool {
    &&& piece_index >= o.done@.len() ==> n == o && e == seq![Effect::DoNothing]
    &&& piece_index < o.done@.len() && valid && o.done@[piece_index as int] ==> exists|m: TorrentState|
        {
            &&& m == (TorrentState { peers: m.peers, verifying_pieces: m.verifying_pieces, ..o })
            &&& m.verifying_pieces@ == o.verifying_pieces@.remove(piece_index)
            &&& match peer_pos(o.peers@, peer_id@) {
                Some(i) => m.peers@ == o.peers@.update(i, m.peers@[i]) && m.peers@[i] == (PeerState {
                    pending_requests: m.peers@[i].pending_requests,
                    ..o.peers@[i]
                }) && m.peers@[i].pending_requests@.to_set() == o.peers@[i].pending_requests@.to_set().remove(
                    piece_index,
                ),
                None => m.peers == o.peers,
            }
            &&& #[trigger] post_assign_work(m, n, e, peer_id)
        }
    &&& piece_index < o.done@.len() && valid && !o.done@[piece_index as int] ==> {
        &&& n == (TorrentState { verifying_pieces: n.verifying_pieces, ..o })
        &&& n.verifying_pieces@ == o.verifying_pieces@.remove(piece_index)
        &&& e == seq![Effect::WriteToDisk { peer_id, piece_index, data }]
    }
    &&& piece_index < o.done@.len() && !valid ==> {
        &&& n == (TorrentState { verifying_pieces: n.verifying_pieces, block_manager: n.block_manager, ..o })
        &&& n.verifying_pieces@ == o.verifying_pieces@.remove(piece_index)
        &&& n.block_manager.legacy_buffers@ == o.block_manager.legacy_buffers@.remove(piece_index)
        &&& n.block_manager.same_layout(&o.block_manager)
        &&& n.block_manager.block_bitfield == o.block_manager.block_bitfield
        &&& n.block_manager.pending_blocks == o.block_manager.pending_blocks
        &&& n.block_manager.committed_pieces == o.block_manager.committed_pieces
        &&& e == seq![Effect::DisconnectPeer { peer_id }]
    }
}

impl TorrentState {
    /// `PieceVerified`: see `post_piece_verified`.
    #[verifier::spinoff_prover]
    #[verifier::rlimit(60)]
    pub fn on_piece_verified(&mut self, peer_id: String, piece_index: u32, valid: bool, data: Vec<u8>) -> (effects: Vec<Effect>)
        requires
            old(self).inv(),
        ensures
            final(self).inv(),
            old(self).consistent() ==> final(self).consistent(),
            old(self).done_settled() ==> final(self).done_settled(),
            post_piece_verified(*old(self), *final(self), effects@, peer_id, piece_index, valid, data),
    {
        if piece_index as usize >= self.done.len() {
            return nothing();
        }
        self.verifying_pieces.remove(&piece_index);
        if valid {
            if self.done[piece_index as usize] {
                match self.find_peer(&peer_id) {
                    Some(i) => {
                        let ghost before = self.peers@;
                        self.peers[i].remove_pending(piece_index);
                        proof {
                            assert(self.peers@ =~= before.update(i as int, self.peers@[i as int]));
                            let q = self.peers@[i as int];
                            if q.pending_requests@.len() > 0 {
                                assert(q.pending_requests@.to_set().contains(q.pending_requests@[0]));
                                assert(before[i as int].pending_requests@.contains(q.pending_requests@[0]));
                            }
                            lemma_peer_update(before, self.peers@, i as int, self.torrent_status);
                            if old(self).consistent() {
                                assert forall|x: u32| #[trigger] self.peers@[i as int].pending_requests@.contains(x)
                                    implies before[i as int].pending_requests@.contains(x)
                                    && crate::assign::peer_has(self.peers@[i as int].bitfield@, x) by {
                                    assert(self.peers@[i as int].pending_requests@.to_set().contains(x));
                                    assert(old(self).peers@[i as int].pending_requests@.contains(x));
                                }
                                assert forall|x: u32| #[trigger] old(self).pending_queue@.contains(x)
                                    && old(self).peers@[i as int].pending_requests@.contains(x) implies self.peers@[i as int].pending_requests@.contains(x) by {
                                    assert(x != piece_index);
                                    assert(before[i as int].pending_requests@.to_set().contains(x));
                                    assert(self.peers@[i as int].pending_requests@.to_set().contains(x));
                                }
                                lemma_peer_work(*old(self), *self, i as int);
                            }
                        }
                    },
                    None => {},
                }
                let ghost m = *self;
                let effects = self.assign_work(peer_id);
                proof {
                    assert(post_assign_work(m, *self, effects@, peer_id));
                    reveal(keeps);
                }
                effects
            } else {
                single(Effect::WriteToDisk { peer_id, piece_index, data })
            }
        } else {
            self.block_manager.reset_v1_buffer(piece_index);
            single(Effect::DisconnectPeer { peer_id })
        }
    }
}


/// What to do about a peer address we are told to connect to: nothing while
/// new peers are not taken (`None`); otherwise wait out its backoff, leave an
/// established session alone, or dial.
pub open spec fn spec_admission(s: TorrentState, ip: Seq<char>, port: u16) -> Option<crate::session::DialDecision> {
    if !s.accepting_new_peers {
        None
    } else {
        let addr = crate::text::spec_peer_addr(ip, port);
        Some(
            crate::session::spec_dial_decision(
                backoff_of(s.timed_out_peers@, addr),
                s.now_ms,
                peer_pos(s.peers@, addr) is Some,
            ),
        )
    }
}

impl TorrentState {
    /// Decides whether to dial `ip:port` (see `spec_admission`).
    pub fn admit_peer(&self, ip: &str, port: u16) -> (d: Option<crate::session::DialDecision>)
        requires
            self.inv(),
        ensures
            d == spec_admission(*self, ip@, port),
    {
        if !self.accepting_new_peers {
            return None;
        }
        let addr = crate::text::peer_addr(ip, port);
        let backoff = backoff_for(&self.timed_out_peers, &addr);
        let connected = match self.find_peer(&addr) {
            Some(_) => true,
            None => false,
        };
        Some(crate::session::dial_decision(backoff, self.now_ms, connected))
    }
}


/// What `on_delete` does: the torrent is emptied and paused (no peers, no
/// backoff entries, nothing done, queued, verified or counted, the block
/// bookkeeping fresh) and goes back to validation, or to awaiting metadata
/// without it; the files are deleted when their layout and location are
/// known, otherwise the deletion is reported done at once.
pub open spec fn post_delete(o: TorrentState, n: TorrentState, e: Seq<Effect>) -> bool {
    &&& n.peers@.len() == 0
    &&& n.last_known_peers@.len() == 0
    &&& n.timed_out_peers@.len() == 0
    &&& n.verifying_pieces@ == Set::<u32>::empty()
    &&& n.done@ == Seq::new(o.done@.len(), |k: int| false)
    &&& n.need_queue@.len() == 0
    &&& n.pending_queue@.len() == 0
    &&& n.block_manager.block_bitfield@.len() == 0
    &&& n.block_manager.legacy_buffers@ == Map::<u32, crate::block_manager::LegacyAssembler>::empty()
    &&& n.block_manager.pending_blocks@ == Set::<u32>::empty()
    &&& n.block_manager.committed_pieces@ == Set::<u32>::empty()
    &&& n.block_manager.piece_length == 0
    &&& n == (TorrentState {
        peers: n.peers,
        last_known_peers: n.last_known_peers,
        timed_out_peers: n.timed_out_peers,
        verifying_pieces: n.verifying_pieces,
        done: n.done,
        need_queue: n.need_queue,
        pending_queue: n.pending_queue,
        block_manager: n.block_manager,
        number_of_successfully_connected_peers: 0,
        session_total_downloaded: 0,
        session_total_uploaded: 0,
        bytes_downloaded_in_interval: 0,
        bytes_uploaded_in_interval: 0,
        is_paused: true,
        torrent_status: if o.has_metadata {
            TorrentStatus::Validating
        } else {
            TorrentStatus::AwaitingMetadata
        },
        last_activity: TorrentActivity::Initializing,
        ..o
    })
    &&& if o.has_data_path && o.has_file_layout {
        e == seq![Effect::DeleteFiles]
    } else {
        &&& e.len() == 1
        &&& (e[0] matches Effect::EmitManagerEvent(ManagerEvent::DeletionComplete(h, r)) && h@
            == o.info_hash@ && r is Ok)
    }
}

impl TorrentState {
    /// `Delete`: see `post_delete`.
    #[verifier::spinoff_prover]
    #[verifier::rlimit(60)]
    pub fn on_delete(&mut self) -> (effects: Vec<Effect>)
        requires
            old(self).inv(),
        ensures
            final(self).inv(),
            old(self).consistent() ==> final(self).consistent(),
            final(self).done_settled(),
            post_delete(*old(self), *final(self), effects@),
    {
        self.peers = Vec::new();
        self.last_known_peers = Vec::new();
        self.timed_out_peers = Vec::new();
        self.verifying_pieces = HashSet::new();
        let n = self.done.len();
        let mut done: Vec<bool> = Vec::new();
        let mut k: usize = 0;
        while k < n
            invariant
                0 <= k <= n,
                done@ == Seq::new(k as nat, |j: int| false),
            decreases n - k,
        {
            done.push(false);
            k = k + 1;
            proof {
                assert(done@ =~= Seq::new(k as nat, |j: int| false));
            }
        }
        self.done = done;
        self.need_queue = Vec::new();
        self.pending_queue = Vec::new();
        self.block_manager = BlockManager::new();
        self.number_of_successfully_connected_peers = 0;
        self.session_total_downloaded = 0;
        self.session_total_uploaded = 0;
        self.bytes_downloaded_in_interval = 0;
        self.bytes_uploaded_in_interval = 0;
        self.is_paused = true;
        self.torrent_status = if self.has_metadata {
            TorrentStatus::Validating
        } else {
            TorrentStatus::AwaitingMetadata
        };
        self.last_activity = TorrentActivity::Initializing;
        if self.has_data_path && self.has_file_layout {
            single(Effect::DeleteFiles)
        } else {
            let h = crate::deletion::copy_bytes(&self.info_hash);
            single(Effect::EmitManagerEvent(ManagerEvent::DeletionComplete(h, Ok(()))))
        }
    }
}

} // verus!
