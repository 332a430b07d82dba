//! What the manager tracks of one connected peer, and how the peer's messages
//! change it.
use crate::state::ChokeStatus;
use vstd::prelude::*;

verus! {

/// `a + b`, stopping at `u64::MAX`.
pub open spec fn sat_add(a: u64, b: u64) -> u64 {
    if a + b > u64::MAX {
        u64::MAX
    } else {
        (a + b) as u64
    }
}

fn find_request(v: &Vec<(u32, u32, u32)>, r: (u32, u32, u32)) -> (pos: Option<usize>)
    ensures
        match pos {
            Some(i) => i < v@.len() && v@[i as int] == r,
            None => !v@.contains(r),
        },
{
    let mut i: usize = 0;
    while i < v.len()
        invariant
            0 <= i <= v@.len(),
            forall|k: int| 0 <= k < i ==> v@[k] != r,
        decreases v@.len() - i,
    {
        let (a, b, c) = v[i];
        if a == r.0 && b == r.1 && c == r.2 {
            assert(v@[i as int] == r);
            return Some(i);
        }
        i = i + 1;
    }
    None
}

fn holds_piece(v: &Vec<u32>, x: u32) -> (found: bool)
    ensures
        found == v@.contains(x),
{
    let mut i: usize = 0;
    while i < v.len()
        invariant
            0 <= i <= v@.len(),
            forall|k: int| 0 <= k < i ==> v@[k] != x,
        decreases v@.len() - i,
    {
        if v[i] == x {
            return true;
        }
        i = i + 1;
    }
    false
}

/// One connected peer: its identity, the piece flags it announced, the choke
/// and interest state in both directions, the work assigned to it, and its
/// transfer counters. Times are milliseconds on the manager's clock.
#[derive(Debug)]
pub struct PeerState {
    pub ip_port: String,
    pub peer_id: Vec<u8>,
    pub bitfield: Vec<bool>,
    pub am_choking: ChokeStatus,
    pub peer_choking: ChokeStatus,
    pub am_interested: bool,
    /// The pieces this peer is working on for us, each listed once.
    pub pending_requests: Vec<u32>,
    pub peer_is_interested_in_us: bool,
    pub bytes_downloaded_from_peer: u64,
    pub bytes_uploaded_to_peer: u64,
    pub bytes_downloaded_in_tick: u64,
    pub bytes_uploaded_in_tick: u64,
    pub total_bytes_downloaded: u64,
    pub total_bytes_uploaded: u64,
    pub download_speed_bps: u64,
    pub upload_speed_bps: u64,
    pub created_at: u64,
    pub inflight_requests: usize,
    /// The block requests (piece, offset, length) the peer is working on,
    /// each listed once.
    pub active_blocks: Vec<(u32, u32, u32)>,
}

impl PeerState {
    /// Each pending piece and each active request is listed once.
    pub open spec fn wf(&self) -> bool {
        &&& self.pending_requests@.no_duplicates()
        &&& self.active_blocks@.no_duplicates()
    }

    /// A fresh connection: choked both ways, not interested either way, no
    /// work, no traffic, no peer id yet.
    pub fn new(ip_port: String, created_at: u64) -> (p: Self)
        ensures
            p.wf(),
            p.ip_port == ip_port,
            p.peer_id@.len() == 0,
            p.bitfield@.len() == 0,
            p.am_choking == ChokeStatus::Choke,
            p.peer_choking == ChokeStatus::Choke,
            !p.am_interested,
            !p.peer_is_interested_in_us,
            p.pending_requests@.len() == 0,
            p.bytes_downloaded_from_peer == 0,
            p.bytes_uploaded_to_peer == 0,
            p.bytes_downloaded_in_tick == 0,
            p.bytes_uploaded_in_tick == 0,
            p.total_bytes_downloaded == 0,
            p.total_bytes_uploaded == 0,
            p.download_speed_bps == 0,
            p.upload_speed_bps == 0,
            p.created_at == created_at,
            p.inflight_requests == 0,
            p.active_blocks@.len() == 0,
    {
        PeerState {
            ip_port,
            peer_id: Vec::new(),
            bitfield: Vec::new(),
            am_choking: ChokeStatus::Choke,
            peer_choking: ChokeStatus::Choke,
            am_interested: false,
            pending_requests: Vec::new(),
            peer_is_interested_in_us: false,
            bytes_downloaded_from_peer: 0,
            bytes_uploaded_to_peer: 0,
            bytes_downloaded_in_tick: 0,
            bytes_uploaded_in_tick: 0,
            total_bytes_downloaded: 0,
            total_bytes_uploaded: 0,
            download_speed_bps: 0,
            upload_speed_bps: 0,
            created_at,
            inflight_requests: 0,
            active_blocks: Vec::new(),
        }
    }

    /// The peer unchoked us.
    pub fn on_unchoked(&mut self)
        ensures
            *final(self) == (PeerState { peer_choking: ChokeStatus::Unchoke, ..*old(self) }),
    {
        self.peer_choking = ChokeStatus::Unchoke;
    }

    /// The peer said it is interested in our pieces.
    pub fn on_interested(&mut self)
        ensures
            *final(self) == (PeerState { peer_is_interested_in_us: true, ..*old(self) }),
    {
        self.peer_is_interested_in_us = true;
    }

    /// A block (piece, offset, length) arrived from the peer: one request
    /// fewer is in flight and the block is no longer active; a block we
    /// still needed counts toward the peer's download counters.
    pub fn on_block_received(&mut self, piece_index: u32, block_offset: u32, length: u32, useful: bool)
        requires
            old(self).wf(),
            useful ==> old(self).bytes_downloaded_from_peer + length <= u64::MAX,
            useful ==> old(self).bytes_downloaded_in_tick + length <= u64::MAX,
            useful ==> old(self).total_bytes_downloaded + length <= u64::MAX,
        ensures
            final(self).wf(),
            final(self).inflight_requests == if old(self).inflight_requests > 0 {
                old(self).inflight_requests - 1
            } else {
                0
            },
            !final(self).active_blocks@.contains((piece_index, block_offset, length)),
            forall|r: (u32, u32, u32)|
                r != (piece_index, block_offset, length) ==> (final(self).active_blocks@.contains(r)
                    <==> old(self).active_blocks@.contains(r)),
            final(self).bytes_downloaded_from_peer == old(self).bytes_downloaded_from_peer + if useful {
                length as int
            } else {
                0
            },
            final(self).bytes_downloaded_in_tick == old(self).bytes_downloaded_in_tick + if useful {
                length as int
            } else {
                0
            },
            final(self).total_bytes_downloaded == old(self).total_bytes_downloaded + if useful {
                length as int
            } else {
                0
            },
            final(self).pending_requests == old(self).pending_requests,
            final(self).bitfield == old(self).bitfield,
    {
        self.inflight_requests = self.inflight_requests.saturating_sub(1);
        let target = (piece_index, block_offset, length);
        if let Some(i) = find_request(&self.active_blocks, target) {
            let ghost before = self.active_blocks@;
            self.active_blocks.remove(i);
            proof {
                let after = self.active_blocks@;
                assert(after =~= before.remove(i as int));
                assert forall|a: int, b: int|
                    0 <= a < after.len() && 0 <= b < after.len() && a != b implies after[a]
                    != after[b] by {
                    let oa = if a < i {
                        a
                    } else {
                        a + 1
                    };
                    let ob = if b < i {
                        b
                    } else {
                        b + 1
                    };
                    assert(after[a] == before[oa] && after[b] == before[ob]);
                }
                if after.contains(target) {
                    let k = choose|k: int| 0 <= k < after.len() && after[k] == target;
                    let ok = if k < i {
                        k
                    } else {
                        k + 1
                    };
                    assert(before[ok] == target);
                    assert(ok != i);
                }
                assert forall|r: (u32, u32, u32)| r != target implies (after.contains(r)
                    <==> before.contains(r)) by {
                    if after.contains(r) {
                        let k = choose|k: int| 0 <= k < after.len() && after[k] == r;
                        let ok = if k < i {
                            k
                        } else {
                            k + 1
                        };
                        assert(before[ok] == r);
                    }
                    if before.contains(r) {
                        let k = choose|k: int| 0 <= k < before.len() && before[k] == r;
                        assert(k != i);
                        let nk = if k < i {
                            k
                        } else {
                            k - 1
                        };
                        assert(after[nk] == r);
                    }
                }
            }
        }
        if useful {
            self.bytes_downloaded_from_peer = self.bytes_downloaded_from_peer + length as u64;
            self.bytes_downloaded_in_tick = self.bytes_downloaded_in_tick + length as u64;
            self.total_bytes_downloaded = self.total_bytes_downloaded + length as u64;
        }
    }

    /// A block of `byte_count` bytes went out to the peer; the counters stop
    /// at their maximum rather than wrap.
    pub fn on_block_sent(&mut self, byte_count: u64)
        ensures
            final(self).bytes_uploaded_to_peer == sat_add(old(self).bytes_uploaded_to_peer, byte_count),
            final(self).total_bytes_uploaded == sat_add(old(self).total_bytes_uploaded, byte_count),
            final(self).bytes_uploaded_in_tick == sat_add(old(self).bytes_uploaded_in_tick, byte_count),
            *final(self) == (PeerState {
                bytes_uploaded_to_peer: final(self).bytes_uploaded_to_peer,
                total_bytes_uploaded: final(self).total_bytes_uploaded,
                bytes_uploaded_in_tick: final(self).bytes_uploaded_in_tick,
                ..*old(self)
            }),
    {
        self.bytes_uploaded_to_peer = self.bytes_uploaded_to_peer.saturating_add(byte_count);
        self.total_bytes_uploaded = self.total_bytes_uploaded.saturating_add(byte_count);
        self.bytes_uploaded_in_tick = self.bytes_uploaded_in_tick.saturating_add(byte_count);
    }

    /// The bytes moved (down, up) since the last tick; the tick counters
    /// start again from zero.
    pub fn take_tick_bytes(&mut self) -> (moved: (u64, u64))
        ensures
            moved == (old(self).bytes_downloaded_in_tick, old(self).bytes_uploaded_in_tick),
            *final(self) == (PeerState {
                bytes_downloaded_in_tick: 0,
                bytes_uploaded_in_tick: 0,
                ..*old(self)
            }),
    {
        let moved = (self.bytes_downloaded_in_tick, self.bytes_uploaded_in_tick);
        self.bytes_downloaded_in_tick = 0;
        self.bytes_uploaded_in_tick = 0;
        moved
    }

    /// Brings our interest in the peer in line with whether we want something
    /// from it; answers `Some(new interest)` when it changed (and the peer is
    /// to be told), `None` otherwise.
    pub fn update_interest(&mut self, should_be_interested: bool) -> (change: Option<bool>)
        ensures
            final(self).am_interested == should_be_interested,
            change == if should_be_interested != old(self).am_interested {
                Some(should_be_interested)
            } else {
                None
            },
            *final(self) == (PeerState { am_interested: should_be_interested, ..*old(self) }),
    {
        if should_be_interested && !self.am_interested {
            self.am_interested = true;
            Some(true)
        } else if !should_be_interested && self.am_interested {
            self.am_interested = false;
            Some(false)
        } else {
            None
        }
    }

    /// Records the piece as one the peer is working on for us (once).
    pub fn add_pending(&mut self, piece_index: u32)
        requires
            old(self).wf(),
        ensures
            final(self).wf(),
            final(self).pending_requests@.to_set() == old(self).pending_requests@.to_set().insert(
                piece_index,
            ),
            final(self).active_blocks == old(self).active_blocks,
            *final(self) == (PeerState { pending_requests: final(self).pending_requests, ..*old(self) }),
    {
        if holds_piece(&self.pending_requests, piece_index) {
            proof {
                assert(self.pending_requests@.to_set().insert(piece_index)
                    =~= self.pending_requests@.to_set());
            }
            return;
        }
        let ghost before = self.pending_requests@;
        self.pending_requests.push(piece_index);
        proof {
            let after = self.pending_requests@;
            assert forall|x: u32| after.to_set().contains(x) <==> before.to_set().insert(
                piece_index,
            ).contains(x) by {
                if after.contains(x) {
                    let k = choose|k: int| 0 <= k < after.len() && after[k] == x;
                    if k < before.len() {
                        assert(before[k] == x);
                    }
                }
                if before.contains(x) {
                    let k = choose|k: int| 0 <= k < before.len() && before[k] == x;
                    assert(after[k] == x);
                }
                if x == piece_index {
                    assert(after[before.len() as int] == x);
                }
            }
            assert(after.to_set() =~= before.to_set().insert(piece_index));
            assert forall|a: int, b: int| 0 <= a < after.len() && 0 <= b < after.len() && a != b implies after[a] != after[b] by {
                if a < before.len() && b < before.len() {
                    assert(after[a] == before[a] && after[b] == before[b]);
                } else if a < before.len() {
                    assert(after[a] == before[a]);
                } else {
                    assert(after[b] == before[b]);
                }
            }
        }
    }

    /// The piece is no longer one the peer works on for us.
    pub fn remove_pending(&mut self, piece_index: u32)
        requires
            old(self).wf(),
        ensures
            final(self).wf(),
            final(self).pending_requests@.to_set() == old(self).pending_requests@.to_set().remove(
                piece_index,
            ),
            final(self).active_blocks == old(self).active_blocks,
            *final(self) == (PeerState { pending_requests: final(self).pending_requests, ..*old(self) }),
    {
        let ghost before = self.pending_requests@;
        let mut kept: Vec<u32> = Vec::new();
        let mut i: usize = 0;
        while i < self.pending_requests.len()
            invariant
                before == self.pending_requests@,
                before.no_duplicates(),
                0 <= i <= before.len(),
                kept@.no_duplicates(),
                forall|x: u32|
                    #[trigger] kept@.contains(x) <==> (x != piece_index && exists|k: int|
                        0 <= k < i && before[k] == x),
            decreases before.len() - i,
        {
            let x = self.pending_requests[i];
            let ghost prev = kept@;
            if x != piece_index {
                kept.push(x);
                proof {
                    assert(!prev.contains(x)) by {
                        if prev.contains(x) {
                            let k = choose|k: int| 0 <= k < i && before[k] == x;
                            assert(before[k] == before[i as int]);
                        }
                    }
                    assert forall|a: int, b: int|
                        0 <= a < kept@.len() && 0 <= b < kept@.len() && a != b implies kept@[a]
                        != kept@[b] by {
                        if a == prev.len() {
                            assert(prev.contains(kept@[b]));
                        } else if b == prev.len() {
                            assert(prev.contains(kept@[a]));
                        } else {
                            assert(kept@[a] == prev[a] && kept@[b] == prev[b]);
                        }
                    }
                }
            }
            proof {
                assert forall|y: u32| #[trigger] kept@.contains(y) <==> (y != piece_index && exists|k: int|
                    0 <= k < i + 1 && before[k] == y) by {
                    if kept@.contains(y) {
                        let t = choose|t: int| 0 <= t < kept@.len() && kept@[t] == y;
                        if t < prev.len() {
                            assert(prev.contains(y));
                        } else {
                            assert(before[i as int] == y);
                        }
                    }
                    if y != piece_index && exists|k: int| 0 <= k < i + 1 && before[k] == y {
                        let k = choose|k: int| 0 <= k < i + 1 && before[k] == y;
                        if k < i {
                            assert(prev.contains(y));
                            let t = choose|t: int| 0 <= t < prev.len() && prev[t] == y;
                            assert(kept@[t] == y);
                        } else {
                            assert(kept@[kept@.len() - 1] == y);
                        }
                    }
                }
            }
            i = i + 1;
        }
        proof {
            assert forall|y: u32| kept@.to_set().contains(y) <==> before.to_set().remove(
                piece_index,
            ).contains(y) by {
                if kept@.contains(y) {
                    let k = choose|k: int| 0 <= k < before.len() && before[k] == y;
                    assert(before.contains(y));
                }
                if before.contains(y) && y != piece_index {
                    let k = choose|k: int| 0 <= k < before.len() && before[k] == y;
                    assert(kept@.contains(y));
                }
            }
            assert(kept@.to_set() =~= before.to_set().remove(piece_index));
        }
        self.pending_requests = kept;
    }

    /// A batch of `count` block requests went out to the peer.
    pub fn record_requests(&mut self, count: usize)
        requires
            old(self).inflight_requests + count <= usize::MAX,
        ensures
            *final(self) == (PeerState {
                inflight_requests: (old(self).inflight_requests + count) as usize,
                ..*old(self)
            }),
    {
        self.inflight_requests = self.inflight_requests + count;
    }

    /// The peer choked us: everything in flight with it is dropped, and the
    /// pieces it was working on are handed back (each once) to be requeued.
    pub fn on_choked(&mut self) -> (requeue: Vec<u32>)
        requires
            old(self).wf(),
        ensures
            final(self).wf(),
            final(self).peer_choking == ChokeStatus::Choke,
            final(self).inflight_requests == 0,
            final(self).active_blocks@.len() == 0,
            final(self).pending_requests@.len() == 0,
            requeue@ == old(self).pending_requests@,
            *final(self) == (PeerState {
                peer_choking: ChokeStatus::Choke,
                inflight_requests: 0,
                active_blocks: final(self).active_blocks,
                pending_requests: final(self).pending_requests,
                ..*old(self)
            }),
    {
        let mut requeue: Vec<u32> = Vec::new();
        std::mem::swap(&mut requeue, &mut self.pending_requests);
        self.inflight_requests = 0;
        self.active_blocks = Vec::new();
        self.peer_choking = ChokeStatus::Choke;
        requeue
    }
}

} // verus!
