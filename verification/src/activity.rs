//! The one-line status the manager reports for a torrent.
use crate::peer::PeerState;
use crate::state::{ChokeStatus, TorrentActivity, TorrentStatus};
use crate::text::{append_decimal, cap_activity_message, decimal, spec_cap_message};
use vstd::prelude::*;

verus! {

/// What the status line is made from.
#[derive(Debug, Clone)]
pub struct ActivitySnapshot {
    pub is_paused: bool,
    pub status: TorrentStatus,
    pub last_activity: TorrentActivity,
    /// Whether the size of the metadata is known yet.
    pub metadata_length_known: bool,
    pub connected_peers: usize,
    /// Peers we are interested in.
    pub useful_peers: usize,
    /// Peers that do not choke us.
    pub peers_sending_data: usize,
    /// Pieces still queued for download.
    pub need_count: usize,
    pub total_pieces: u32,
    pub pieces_remaining: u32,
    pub validation_pieces_found: u32,
}

/// Pieces done: all minus those remaining, never below zero.
pub open spec fn completed_pieces(s: ActivitySnapshot) -> int {
    if s.total_pieces > s.pieces_remaining {
        s.total_pieces - s.pieces_remaining
    } else {
        0
    }
}

/// Percentage of pieces done (0 when there are no pieces).
pub open spec fn completion_pct(s: ActivitySnapshot) -> int {
    if s.total_pieces > 0 {
        completed_pieces(s) * 100 / (s.total_pieces as int)
    } else {
        0
    }
}

/// The inputs on which the percentages stay within `u32` arithmetic.
pub open spec fn activity_in_range(s: ActivitySnapshot) -> bool {
    &&& completed_pieces(s) * 100 <= u32::MAX
    &&& (s.status == TorrentStatus::Validating && s.total_pieces > 0) ==> s.validation_pieces_found
        * 100 <= u32::MAX
}

/// The line while no data moves: by the last activity, else by peer counts.
pub open spec fn spec_idle_message(s: ActivitySnapshot) -> Seq<char> {
    match s.last_activity {
        TorrentActivity::RequestingPieces => spec_cap_message(
            "Request "@ + decimal(s.need_count as nat) + " ("@ + decimal(s.useful_peers as nat)
                + "/"@ + decimal(s.connected_peers as nat) + ")"@,
        ),
        TorrentActivity::AnnouncingToTracker => spec_cap_message(
            "Tracker ("@ + decimal(s.connected_peers as nat) + " peers)"@,
        ),
        TorrentActivity::SearchingDht => spec_cap_message(
            "DHT search ("@ + decimal(s.connected_peers as nat) + ")"@,
        ),
        _ => if s.connected_peers == 0 {
            spec_cap_message("Connecting ("@ + decimal(completion_pct(s) as nat) + "%)"@)
        } else if s.need_count > 0 {
            if s.useful_peers > 0 {
                spec_cap_message(
                    "Waiting data ("@ + decimal(s.peers_sending_data as nat) + "/"@ + decimal(
                        s.connected_peers as nat,
                    ) + ")"@,
                )
            } else {
                spec_cap_message("Need pieces ("@ + decimal(s.connected_peers as nat) + ")"@)
            }
        } else {
            spec_cap_message(
                "Idle ("@ + decimal(s.connected_peers as nat) + ", "@ + decimal(
                    completion_pct(s) as nat,
                ) + "%)"@,
            )
        },
    }
}

/// The line once the torrent is running (not paused, not fetching metadata,
/// not validating, not done).
pub open spec fn spec_running_message(s: ActivitySnapshot, dl_speed: u64, ul_speed: u64) -> Seq<
    char,
> {
    if dl_speed > 0 {
        match s.last_activity {
            TorrentActivity::DownloadingPiece(p) => "Receiving piece #"@ + decimal(p as nat),
            TorrentActivity::VerifyingPiece(p) => "Verifying piece #"@ + decimal(p as nat),
            _ => "Downloading"@,
        }
    } else if ul_speed > 0 {
        match s.last_activity {
            TorrentActivity::SendingPiece(p) => "Sending piece #"@ + decimal(p as nat),
            _ => "Uploading"@,
        }
    } else {
        spec_idle_message(s)
    }
}

/// The status line for a torrent, given its smoothed transfer speeds.
pub open spec fn spec_activity_message(s: ActivitySnapshot, dl_speed: u64, ul_speed: u64) -> Seq<
    char,
> {
    if s.is_paused {
        "Paused"@
    } else if s.last_activity is ProcessingPeers {
        spec_cap_message(
            "Processing peer ("@ + decimal(s.last_activity->ProcessingPeers_0 as nat) + ")"@,
        )
    } else if s.status == TorrentStatus::AwaitingMetadata {
        if s.metadata_length_known {
            spec_cap_message("Metadata ("@ + decimal(s.connected_peers as nat) + " peers)"@)
        } else {
            spec_cap_message("Metadata from peers ("@ + decimal(s.connected_peers as nat) + ")"@)
        }
    } else if s.status == TorrentStatus::Validating {
        if s.total_pieces > 0 {
            spec_cap_message(
                "Validating "@ + decimal(
                    (s.validation_pieces_found * 100 / (s.total_pieces as int)) as nat,
                ) + "% ("@ + decimal(s.validation_pieces_found as nat) + "/"@ + decimal(
                    s.total_pieces as nat,
                ) + ")"@,
            )
        } else {
            spec_cap_message("Validating"@)
        }
    } else if s.status == TorrentStatus::Done {
        if ul_speed > 0 {
            "Seeding"@
        } else {
            "Finished"@
        }
    } else {
        spec_running_message(s, dl_speed, ul_speed)
    }
}

fn completion_percentage(s: &ActivitySnapshot) -> (pct: u32)
    requires
        activity_in_range(*s),
    ensures
        pct == completion_pct(*s),
{
    let completed = s.total_pieces.saturating_sub(s.pieces_remaining);
    if s.total_pieces > 0 {
        (completed * 100) / s.total_pieces
    } else {
        0
    }
}

fn idle_message(s: &ActivitySnapshot) -> (m: String)
    requires
        activity_in_range(*s),
    ensures
        m@ == spec_idle_message(*s),
{
    match s.last_activity {
        TorrentActivity::RequestingPieces => {
            let mut m = String::from_str("Request ");
            append_decimal(&mut m, s.need_count as u64);
            m.append(" (");
            append_decimal(&mut m, s.useful_peers as u64);
            m.append("/");
            append_decimal(&mut m, s.connected_peers as u64);
            m.append(")");
            return cap_activity_message(m);
        },
        TorrentActivity::AnnouncingToTracker => {
            let mut m = String::from_str("Tracker (");
            append_decimal(&mut m, s.connected_peers as u64);
            m.append(" peers)");
            return cap_activity_message(m);
        },
        TorrentActivity::SearchingDht => {
            let mut m = String::from_str("DHT search (");
            append_decimal(&mut m, s.connected_peers as u64);
            m.append(")");
            return cap_activity_message(m);
        },
        _ => {},
    }
    let pct = completion_percentage(s);
    if s.connected_peers == 0 {
        let mut m = String::from_str("Connecting (");
        append_decimal(&mut m, pct as u64);
        m.append("%)");
        return cap_activity_message(m);
    }
    if s.need_count > 0 {
        if s.useful_peers > 0 {
            let mut m = String::from_str("Waiting data (");
            append_decimal(&mut m, s.peers_sending_data as u64);
            m.append("/");
            append_decimal(&mut m, s.connected_peers as u64);
            m.append(")");
            return cap_activity_message(m);
        }
        let mut m = String::from_str("Need pieces (");
        append_decimal(&mut m, s.connected_peers as u64);
        m.append(")");
        return cap_activity_message(m);
    }
    let mut m = String::from_str("Idle (");
    append_decimal(&mut m, s.connected_peers as u64);
    m.append(", ");
    append_decimal(&mut m, pct as u64);
    m.append("%)");
    cap_activity_message(m)
}

fn running_message(s: &ActivitySnapshot, dl_speed: u64, ul_speed: u64) -> (m: String)
    requires
        activity_in_range(*s),
    ensures
        m@ == spec_running_message(*s, dl_speed, ul_speed),
{
    if dl_speed > 0 {
        return match s.last_activity {
            TorrentActivity::DownloadingPiece(p) => {
                let mut m = String::from_str("Receiving piece #");
                append_decimal(&mut m, p as u64);
                m
            },
            TorrentActivity::VerifyingPiece(p) => {
                let mut m = String::from_str("Verifying piece #");
                append_decimal(&mut m, p as u64);
                m
            },
            _ => String::from_str("Downloading"),
        };
    }
    if ul_speed > 0 {
        return match s.last_activity {
            TorrentActivity::SendingPiece(p) => {
                let mut m = String::from_str("Sending piece #");
                append_decimal(&mut m, p as u64);
                m
            },
            _ => String::from_str("Uploading"),
        };
    }
    idle_message(s)
}

/// The status line for a torrent, given its smoothed transfer speeds.
pub fn generate_activity_message(s: &ActivitySnapshot, dl_speed: u64, ul_speed: u64) -> (m:
    String)
    requires
        !s.is_paused ==> activity_in_range(*s),
    ensures
        m@ == spec_activity_message(*s, dl_speed, ul_speed),
{
    if s.is_paused {
        return String::from_str("Paused");
    }
    if let TorrentActivity::ProcessingPeers(count) = s.last_activity {
        let mut m = String::from_str("Processing peer (");
        append_decimal(&mut m, count as u64);
        m.append(")");
        return cap_activity_message(m);
    }
    match s.status {
        TorrentStatus::AwaitingMetadata => {
            let m = if s.metadata_length_known {
                let mut m = String::from_str("Metadata (");
                append_decimal(&mut m, s.connected_peers as u64);
                m.append(" peers)");
                m
            } else {
                let mut m = String::from_str("Metadata from peers (");
                append_decimal(&mut m, s.connected_peers as u64);
                m.append(")");
                m
            };
            cap_activity_message(m)
        },
        TorrentStatus::Validating => {
            let m = if s.total_pieces > 0 {
                let pct = (s.validation_pieces_found * 100) / s.total_pieces;
                let mut m = String::from_str("Validating ");
                append_decimal(&mut m, pct as u64);
                m.append("% (");
                append_decimal(&mut m, s.validation_pieces_found as u64);
                m.append("/");
                append_decimal(&mut m, s.total_pieces as u64);
                m.append(")");
                m
            } else {
                String::from_str("Validating")
            };
            cap_activity_message(m)
        },
        TorrentStatus::Done => {
            if ul_speed > 0 {
                String::from_str("Seeding")
            } else {
                String::from_str("Finished")
            }
        },
        _ => running_message(s, dl_speed, ul_speed),
    }
}

/// Peers among the first `k` that we are interested in.
pub open spec fn count_interesting(peers: Seq<PeerState>, k: int) -> nat
    decreases k,
{
    if k <= 0 {
        0
    } else {
        count_interesting(peers, k - 1) + if peers[k - 1].am_interested {
            1nat
        } else {
            0nat
        }
    }
}

/// Peers among the first `k` that do not choke us.
pub open spec fn count_unchoking(peers: Seq<PeerState>, k: int) -> nat
    decreases k,
{
    if k <= 0 {
        0
    } else {
        count_unchoking(peers, k - 1) + if peers[k - 1].peer_choking == ChokeStatus::Unchoke {
            1nat
        } else {
            0nat
        }
    }
}

/// The peer counts of a status line: connected peers, peers we are
/// interested in, and peers that do not choke us.
pub fn peer_counts(peers: &[PeerState]) -> (counts: (usize, usize, usize))
    ensures
        counts.0 == peers@.len(),
        counts.1 == count_interesting(peers@, peers@.len() as int),
        counts.2 == count_unchoking(peers@, peers@.len() as int),
{
    let mut useful: usize = 0;
    let mut sending: usize = 0;
    let mut i: usize = 0;
    while i < peers.len()
        invariant
            0 <= i <= peers@.len(),
            useful == count_interesting(peers@, i as int),
            sending == count_unchoking(peers@, i as int),
            useful <= i,
            sending <= i,
        decreases peers@.len() - i,
    {
        if peers[i].am_interested {
            useful = useful + 1;
        }
        match peers[i].peer_choking {
            ChokeStatus::Unchoke => {
                sending = sending + 1;
            },
            ChokeStatus::Choke => {},
        }
        i = i + 1;
    }
    (peers.len(), useful, sending)
}

} // verus!
