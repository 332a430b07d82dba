//! Properties of the torrent state machine that span events.
use crate::machine::{
    peer_addrs, post_assign_work, post_pause, post_resume, queued, reconnect_all, requeue_all,
    requeue_one, queues_ok, lemma_without, Effect, TorrentState,
};
use crate::state::TorrentStatus;
use vstd::prelude::*;

verus! {

proof fn lemma_requeue_one(need: Seq<u32>, pending: Seq<u32>, done: Seq<bool>, p: u32)
    requires
        queues_ok(need, pending),
    ensures
        queues_ok(requeue_one(need, pending, done, p).0, requeue_one(need, pending, done, p).1),
        forall|x: u32| #[trigger] need.contains(x) ==> requeue_one(need, pending, done, p).0.contains(x),
        forall|x: u32|
            #[trigger] requeue_one(need, pending, done, p).1.contains(x) ==> pending.contains(x),
        !(p < done.len() && done[p as int]) ==> requeue_one(need, pending, done, p).0.contains(p),
{
    lemma_without(pending, p);
    let r = requeue_one(need, pending, done, p);
    if !(p < done.len() && done[p as int]) {
        if !need.contains(p) {
            assert(r.0.last() == p);
            assert forall|x: u32| #[trigger] need.contains(x) implies r.0.contains(x) by {
                let k = choose|k: int| 0 <= k < need.len() && need[k] == x;
                assert(r.0[k] == x);
            }
            assert forall|a: int, b: int| 0 <= a < r.0.len() && 0 <= b < r.0.len() && a != b implies r.0[a]
                != r.0[b] by {
                if a == need.len() as int {
                    assert(need[b] != p);
                } else if b == need.len() as int {
                    assert(need[a] != p);
                }
            }
            assert(r.0.contains(p));
        }
        assert forall|x: u32| #[trigger] queued(r.0, x) implies !r.1.contains(x) by {
            if x != p {
                let k = choose|k: int| 0 <= k < r.0.len() && r.0[k] == x;
                if k < need.len() {
                    assert(need[k] == x);
                    assert(queued(need, x));
                }
            }
        }
    }
}

/// Pieces a peer gave back are not lost: every piece it worked on that is
/// not done is waiting in the need queue afterwards and no longer counts as
/// in flight, and what was already needed stays needed.
pub proof fn law_requeued_pieces_are_needed(
    need: Seq<u32>,
    pending: Seq<u32>,
    done: Seq<bool>,
    ps: Seq<u32>,
)
    requires
        queues_ok(need, pending),
    ensures
        queues_ok(requeue_all(need, pending, done, ps).0, requeue_all(need, pending, done, ps).1),
        forall|x: u32| #[trigger] need.contains(x) ==> requeue_all(need, pending, done, ps).0.contains(x),
        forall|i: int|
            0 <= i < ps.len() && !(ps[i] < done.len() && done[ps[i] as int]) ==> {
                &&& requeue_all(need, pending, done, ps).0.contains(#[trigger] ps[i])
                &&& !requeue_all(need, pending, done, ps).1.contains(ps[i])
            },
    decreases ps.len(),
{
    if ps.len() > 0 {
        let prev = ps.drop_last();
        law_requeued_pieces_are_needed(need, pending, done, prev);
        let r = requeue_all(need, pending, done, prev);
        lemma_requeue_one(r.0, r.1, done, ps.last());
        let q = requeue_all(need, pending, done, ps);
        assert forall|i: int|
            0 <= i < ps.len() && !(ps[i] < done.len() && done[ps[i] as int]) implies {
                &&& q.0.contains(#[trigger] ps[i])
                &&& !q.1.contains(ps[i])
            } by {
            if i < ps.len() - 1 {
                assert(prev[i] == ps[i]);
                assert(r.0.contains(prev[i]));
                assert(queued(q.0, ps[i]));
            } else {
                assert(queued(q.0, ps[i]));
            }
        }
    }
}

/// Pausing and then resuming (outside validation) dials again exactly the
/// peers that were connected before the pause, in order, and leaves the
/// pieces that were in flight waiting in the need queue.
pub proof fn law_pause_then_resume_redials(
    s0: TorrentState,
    s1: TorrentState,
    e1: Seq<Effect>,
    s2: TorrentState,
    e2: Seq<Effect>,
)
    requires
        post_pause(s0, s1, e1),
        post_resume(s1, s2, e2),
        s0.torrent_status != TorrentStatus::Validating,
    ensures
        e2.subrange(e2.len() - s0.peers@.len(), e2.len() as int) == reconnect_all(peer_addrs(s0.peers@)),
        forall|x: u32| #[trigger] s0.pending_queue@.contains(x) ==> s2.need_queue@.contains(x),
        s2.peers@.len() == 0,
        !s2.is_paused,
{
    let tail = reconnect_all(s1.last_known_peers@);
    assert(s1.last_known_peers@ == peer_addrs(s0.peers@));
    assert(tail.len() == s0.peers@.len());
    assert(e2.subrange(e2.len() - tail.len(), e2.len() as int) =~= tail);
    assert forall|x: u32| #[trigger] s0.pending_queue@.contains(x) implies s2.need_queue@.contains(x) by {
        let k = choose|k: int| 0 <= k < s0.pending_queue@.len() && s0.pending_queue@[k] == x;
        assert(s1.need_queue@[s0.need_queue@.len() + k] == x);
    }
}

/// A finished torrent hands out no work: once done and settled, handing
/// work to any peer changes nothing and sends nothing.
pub proof fn law_done_torrent_requests_nothing(
    o: TorrentState,
    n: TorrentState,
    e: Seq<Effect>,
    peer_id: String,
)
    requires
        o.done_settled(),
        o.torrent_status == TorrentStatus::Done,
        post_assign_work(o, n, e, peer_id),
    ensures
        n == o,
        e == seq![Effect::DoNothing],
{
}

} // verus!
