//! Sync admission: the per-peer rate budget, the bounded response builder
//! and the bounded walk over parent hashes.

use vstd::prelude::*;
use std::collections::VecDeque;
use crate::codec::bytes_eq;

verus! {

pub const MAX_RESPONSE_ENVELOPES: usize = 64;
pub const MAX_RESPONSE_BYTES: usize = 1048576;
pub const RESPONSE_HEADER: usize = 34;
pub const WALK_MAX_DEPTH: usize = 128;
pub const WALK_MAX_TOTAL: usize = 4096;
pub const RATE_WINDOW_MS: u64 = 10_000;
pub const SERVE_BUDGET: usize = 8;
pub const ISSUE_BUDGET: usize = 4;
pub const MAX_TRACKED_PEERS: usize = 64;

#[derive(Debug, Clone, Copy, PartialEq, Eq, Structural)]
pub enum SyncError {
    NoSession,
    NotMember,
    Revoked,
    RateLimited,
    WalkExhausted,
    BadEnvelope,
    BufferTooSmall,
}

// --- the rate budget -----------------------------------------------------------

/// A stamp lies inside the window ending at `now_ms` (0 marks an unused
/// slot).
pub open spec fn stamp_inside(s: u64, window_ms: u64, now_ms: u64) -> bool {
    s != 0 && now_ms >= s && now_ms - s < window_ms
}

/// How many of the first `n` stamps lie inside the window.
pub open spec fn inside_count(stamps: Seq<u64>, n: int, window_ms: u64, now_ms: u64) -> nat
    decreases n,
{
    if n <= 0 {
        0
    } else {
        inside_count(stamps, n - 1, window_ms, now_ms) + if stamp_inside(stamps[n - 1], window_ms, now_ms) {
            1nat
        } else {
            0nat
        }
    }
}

proof fn lemma_inside_bound(stamps: Seq<u64>, n: int, window_ms: u64, now_ms: u64)
    requires
        n >= 0,
    ensures
        inside_count(stamps, n, window_ms, now_ms) <= n,
    decreases n,
{
    if n > 0 {
        lemma_inside_bound(stamps, n - 1, window_ms, now_ms);
    }
}

/// The last `budget` event stamps, in a ring.
pub struct RateWindow {
    stamps: [u64; SERVE_BUDGET],
    budget: usize,
    next: usize,
}

impl RateWindow {
    pub closed spec fn stamps(&self) -> Seq<u64> {
        self.stamps@.subrange(0, self.budget as int)
    }

    pub closed spec fn next_slot(&self) -> int {
        self.next as int
    }

    pub closed spec fn limit(&self) -> nat {
        self.budget as nat
    }

    /// At most SERVE_BUDGET slots; the ring cursor inside them.
    pub closed spec fn wf(&self) -> bool {
        &&& self.budget <= SERVE_BUDGET
        &&& (self.budget == 0 ==> self.next == 0)
        &&& (self.budget > 0 ==> self.next < self.budget)
    }

    pub fn new(budget: usize) -> (w: Self)
        requires
            budget <= SERVE_BUDGET,
        ensures
            w.wf(),
            w.limit() == budget,
            w.stamps() == Seq::new(budget as nat, |i: int| 0u64),
            w.next_slot() == 0,
    {
        let w = Self { stamps: [0u64;8], budget, next: 0 };
        assert(w.stamps() =~= Seq::new(budget as nat, |i: int| 0u64));
        w
    }

    /// Admits iff fewer than `budget` recorded events lie inside the window
    /// ending at `now_ms`; an admitted event is recorded in the ring.
    pub fn try_admit(&mut self, window_ms: u64, now_ms: u64) -> (ok: bool)
        requires
            old(self).wf(),
        ensures
            final(self).wf(),
            final(self).limit() == old(self).limit(),
            ok == (inside_count(old(self).stamps(), old(self).limit() as int, window_ms, now_ms) < old(self).limit()),
            ok ==> final(self).stamps() == old(self).stamps().update(old(self).next_slot(), now_ms)
                && final(self).next_slot() == (old(self).next_slot() + 1) % (old(self).limit() as int),
            !ok ==> *final(self) == *old(self),
    {
        let mut inside: usize = 0;
        let mut i: usize = 0;
        while i < self.budget
            invariant
                self.wf(),
                i <= self.budget,
                inside == inside_count(self.stamps(), i as int, window_ms, now_ms),
                inside <= i,
            decreases self.budget - i,
        {
            let s = self.stamps[i];
            if s != 0 && now_ms >= s && now_ms - s < window_ms {
                inside = inside + 1;
            }
            i = i + 1;
        }
        if inside >= self.budget {
            return false;
        }
        self.stamps[self.next] = now_ms;
        self.next = (self.next + 1) % self.budget;
        assert(self.stamps() =~= old(self).stamps().update(old(self).next_slot(), now_ms));
        true
    }
}

/// Per-peer windows; a full table refuses new peers (fail closed).
pub struct RateTable {
    peers: Vec<[u8; 32]>,
    windows: Vec<RateWindow>,
    budget: usize,
}

impl RateTable {
    /// The tracked peers, in order of first request.
    pub closed spec fn peer_list(&self) -> Seq<Seq<u8>> {
        self.peers@.map_values(|p: [u8; 32]| p@)
    }

    /// The per-peer budget.
    pub closed spec fn limit(&self) -> nat {
        self.budget as nat
    }

    pub closed spec fn window_of(&self, i: int) -> RateWindow {
        self.windows@[i]
    }

    pub closed spec fn wf(&self) -> bool {
        &&& self.peers@.len() == self.windows@.len()
        &&& self.peers@.len() <= MAX_TRACKED_PEERS
        &&& self.budget <= SERVE_BUDGET
        &&& forall|i: int, j: int| 0 <= i < j < self.peers@.len() ==> (#[trigger] self.peers@[i])@ != (#[trigger] self.peers@[j])@
        &&& forall|i: int| 0 <= i < self.windows@.len() ==> (#[trigger] self.windows@[i]).wf()
            && self.windows@[i].limit() == self.budget
    }

    pub fn new(budget: usize) -> (t: Self)
        requires
            budget <= SERVE_BUDGET,
        ensures
            t.wf(),
            t.peer_list() == Seq::<Seq<u8>>::empty(),
            t.limit() == budget,
    {
        let t = Self { peers: Vec::new(), windows: Vec::new(), budget };
        assert(t.peer_list() =~= Seq::<Seq<u8>>::empty());
        t
    }

    /// Admits a peer's request iff within its budget. A new peer gets a
    /// fresh window; a full table refuses new peers.
    pub fn try_admit(&mut self, peer: [u8; 32], window_ms: u64, now_ms: u64) -> (ok: bool)
        requires
            old(self).wf(),
        ensures
            final(self).wf(),
            old(self).peer_list().contains(peer@) ==> final(self).peer_list() == old(self).peer_list() && {
                let i = old(self).peer_list().index_of(peer@);
                let w = old(self).window_of(i);
                ok == (inside_count(w.stamps(), w.limit() as int, window_ms, now_ms) < w.limit())
            },
            !old(self).peer_list().contains(peer@) && old(self).peer_list().len() >= MAX_TRACKED_PEERS
                ==> !ok && final(self).peer_list() == old(self).peer_list(),
            !old(self).peer_list().contains(peer@) && old(self).peer_list().len() < MAX_TRACKED_PEERS
                ==> final(self).peer_list() == old(self).peer_list().push(peer@) && ok == (
            old(self).limit() > 0),
    {
        let mut i: usize = 0;
        while i < self.peers.len()
            invariant
                self.wf(),
                *self == *old(self),
                i <= self.peers@.len(),
                forall|k: int| 0 <= k < i ==> #[trigger] self.peer_list()[k] != peer@,
            decreases self.peers@.len() - i,
        {
            if bytes_eq(self.peers[i].as_slice(), peer.as_slice()) {
                proof {
                    assert(self.peer_list()[i as int] == peer@);
                    let j = self.peer_list().index_of(peer@);
                    if j != i {
                        if j < i {
                            assert(self.peers@[j]@ != self.peers@[i as int]@);
                        } else {
                            assert(self.peers@[i as int]@ != self.peers@[j]@);
                        }
                    }
                }
                let mut w = self.windows.remove(i);
                let ok = w.try_admit(window_ms, now_ms);
                self.windows.insert(i, w);
                proof {
                    assert forall|k: int| 0 <= k < self.windows@.len() implies (#[trigger] self.windows@[k]).wf()
                        && self.windows@[k].limit() == self.budget by {
                        if k != i {
                            assert(self.windows@[k] == old(self).windows@[k]);
                        }
                    }
                }
                return ok;
            }
            assert(self.peer_list()[i as int] != peer@);
            i = i + 1;
        }
        if self.peers.len() >= MAX_TRACKED_PEERS {
            return false;
        }
        let mut w = RateWindow::new(self.budget);
        proof {
            assert(inside_count(w.stamps(), w.limit() as int, window_ms, now_ms) == 0) by {
                lemma_zero_inside(w.stamps(), w.limit() as int, window_ms, now_ms);
            }
        }
        let ok = w.try_admit(window_ms, now_ms);
        self.peers.push(peer);
        self.windows.push(w);
        assert(self.peer_list() =~= old(self).peer_list().push(peer@));
        proof {
            assert forall|a: int, b: int| 0 <= a < b < self.peers@.len() implies (#[trigger] self.peers@[a])@ != (#[trigger] self.peers@[b])@ by {
                if b == self.peers@.len() - 1 {
                    assert(old(self).peer_list()[a] != peer@);
                }
            }
        }
        ok
    }

    pub fn used(&self) -> (n: usize)
        requires
            self.wf(),
        ensures
            n == self.peer_list().len(),
    {
        self.peers.len()
    }
}

proof fn lemma_zero_inside(stamps: Seq<u64>, n: int, window_ms: u64, now_ms: u64)
    requires
        0 <= n <= stamps.len(),
        forall|i: int| 0 <= i < stamps.len() ==> stamps[i] == 0,
    ensures
        inside_count(stamps, n, window_ms, now_ms) == 0,
    decreases n,
{
    if n > 0 {
        lemma_zero_inside(stamps, n - 1, window_ms, now_ms);
    }
}

// --- the response builder -------------------------------------------------------

#[derive(Clone)]
pub struct ServeItem {
    pub hash: [u8; 32],
    pub wire: Vec<u8>,
}

pub struct BuildResult {
    pub count: usize,
    pub truncated: bool,
    pub bytes_written: usize,
}

/// The peer already has an envelope with this hash.
pub open spec fn peer_has(have: Seq<[u8; 32]>, h: Seq<u8>) -> bool {
    exists|i: int| 0 <= i < have.len() && (#[trigger] have[i])@ == h
}

/// The envelopes the response carries from `items[..k]`: the concatenated
/// wire bytes, their number, and whether an item did not fit.
pub open spec fn response_upto(items: Seq<ServeItem>, have: Seq<[u8; 32]>, k: int) -> (Seq<u8>, nat, bool)
    decreases k,
{
    if k <= 0 {
        (Seq::empty(), 0, false)
    } else {
        let (body, count, truncated) = response_upto(items, have, k - 1);
        let it = items[k - 1];
        if truncated || peer_has(have, it.hash@) {
            (body, count, truncated)
        } else if count >= MAX_RESPONSE_ENVELOPES || RESPONSE_HEADER + body.len() + it.wire@.len() + 1
            > MAX_RESPONSE_BYTES {
            (body, count, true)
        } else {
            (body + it.wire@, count + 1, false)
        }
    }
}

/// Builds a sync response in `out`: version 1, the channel id, the count,
/// then the envelopes the peer lacks, in order, up to 64 envelopes and
/// 1 MiB. A buffer shorter than the header gets nothing; a longer one must
/// hold the header and the envelopes carried.
pub fn build_response(out: &mut [u8], channel_id: [u8; 32], items: &[ServeItem], have_hashes: &[[u8; 32]]) -> (r: BuildResult)
    requires
        old(out)@.len() < RESPONSE_HEADER || old(out)@.len() >= RESPONSE_HEADER + response_upto(
            items@,
            have_hashes@,
            items@.len() as int,
        ).0.len(),
    ensures
        final(out)@.len() == old(out)@.len(),
        old(out)@.len() < RESPONSE_HEADER ==> r.count == 0 && !r.truncated && r.bytes_written == 0
            && final(out)@ == old(out)@,
        old(out)@.len() >= RESPONSE_HEADER ==> {
            let (body, count, truncated) = response_upto(items@, have_hashes@, items@.len() as int);
            &&& r.count == count
            &&& r.truncated == truncated
            &&& r.bytes_written == RESPONSE_HEADER + body.len()
            &&& final(out)@.subrange(0, r.bytes_written as int) == seq![1u8] + channel_id@ + seq![
                count as u8,
            ] + body
            &&& final(out)@.subrange(r.bytes_written as int, old(out)@.len() as int) == old(
                out,
            )@.subrange(r.bytes_written as int, old(out)@.len() as int)
        },
{
    if out.len() < RESPONSE_HEADER {
        return BuildResult { count: 0, truncated: false, bytes_written: 0 };
    }
    let ghost full = response_upto(items@, have_hashes@, items@.len() as int).0.len();
    out[0] = 1;  // version
    let mut c: usize = 0;
    while c < 32
        invariant
            out@.len() == old(out)@.len(),
            out@.len() >= RESPONSE_HEADER + full,
            c <= 32,
            out@[0] == 1,
            forall|t: int| 1 <= t < 1 + c ==> out@[t] == channel_id@[t - 1],
            forall|t: int| 1 + c <= t < out@.len() ==> out@[t] == old(out)@[t],
        decreases 32 - c,
    {
        out[1 + c] = channel_id[c];
        c = c + 1;
    }
    let mut pos: usize = RESPONSE_HEADER;
    let mut count: usize = 0;
    let mut truncated = false;
    let mut k: usize = 0;
    while k < items.len() && !truncated
        invariant
            out@.len() == old(out)@.len(),
            full == response_upto(items@, have_hashes@, items@.len() as int).0.len(),
            out@.len() >= RESPONSE_HEADER + full,
            k <= items@.len(),
            out@[0] == 1,
            forall|t: int| 1 <= t < 33 ==> out@[t] == channel_id@[t - 1],
            ({
                let (body, cnt, tr) = response_upto(items@, have_hashes@, k as int);
                &&& count == cnt
                &&& truncated == tr
                &&& pos == RESPONSE_HEADER + body.len()
                &&& out@.subrange(RESPONSE_HEADER as int, pos as int) == body
            }),
            truncated ==> response_upto(items@, have_hashes@, items@.len() as int) == response_upto(items@, have_hashes@, k as int),
            pos < MAX_RESPONSE_BYTES,
            count <= MAX_RESPONSE_ENVELOPES,
            forall|t: int| pos <= t < out@.len() ==> out@[t] == old(out)@[t],
        decreases items@.len() - k, if truncated { 0int } else { 1int },
    {
        let item = &items[k];
        let mut seen = false;
        let mut h: usize = 0;
        while h < have_hashes.len()
            invariant
                h <= have_hashes@.len(),
                seen == exists|i: int| 0 <= i < h && (#[trigger] have_hashes@[i])@ == item.hash@,
            decreases have_hashes@.len() - h,
        {
            if !seen && bytes_eq(have_hashes[h].as_slice(), item.hash.as_slice()) {
                seen = true;
            }
            proof {
                if have_hashes@[h as int]@ == item.hash@ {
                    assert(exists|i: int| 0 <= i < h + 1 && (#[trigger] have_hashes@[i])@ == item.hash@);
                }
            }
            h = h + 1;
        }
        let ghost before = out@;
        if !seen {
            let need = item.wire.len();
            if count >= MAX_RESPONSE_ENVELOPES || need >= MAX_RESPONSE_BYTES - pos {
                truncated = true;
                proof {
                    lemma_truncated_stays(items@, have_hashes@, k as int + 1, items@.len() as int);
                }
            } else {
                proof {
                    lemma_upto_grows(items@, have_hashes@, k as int + 1, items@.len() as int);
                }
                let mut t: usize = 0;
                while t < need
                    invariant
                        need == item.wire@.len(),
                        pos + need < MAX_RESPONSE_BYTES,
                        pos + need <= out@.len(),
                        out@.len() == before.len(),
                        t <= need,
                        forall|j: int| 0 <= j < pos ==> out@[j] == before[j],
                        forall|j: int| pos <= j < pos + t ==> out@[j] == item.wire@[j - pos],
                        forall|j: int| pos + t <= j < out@.len() ==> out@[j] == before[j],
                    decreases need - t,
                {
                    out[pos + t] = item.wire[t];
                    t = t + 1;
                }
                assert(out@.subrange(RESPONSE_HEADER as int, (pos + need) as int) =~= before.subrange(
                    RESPONSE_HEADER as int,
                    pos as int,
                ) + item.wire@);
                pos = pos + need;
                count = count + 1;
            }
        }
        proof {
            assert forall|t: int| 1 <= t < 33 implies out@[t] == channel_id@[t - 1] by {
                assert(out@[t] == before[t]);
            }
        }
        k = k + 1;
    }
    proof {
        if !truncated {
            assert(k == items@.len());
        }
    }
    let ghost body = response_upto(items@, have_hashes@, items@.len() as int).0;
    out[33] = count as u8;
    assert(out@.subrange(0, pos as int) =~= seq![1u8] + channel_id@ + seq![count as u8] + body) by {
        assert(out@.subrange(RESPONSE_HEADER as int, pos as int) =~= body);
    }
    BuildResult { count, truncated, bytes_written: pos }
}

/// The envelopes carried only grow as more items are considered.
proof fn lemma_upto_grows(items: Seq<ServeItem>, have: Seq<[u8; 32]>, k: int, n: int)
    requires
        0 <= k <= n,
    ensures
        response_upto(items, have, k).0.len() <= response_upto(items, have, n).0.len(),
    decreases n - k,
{
    if n > k {
        lemma_upto_grows(items, have, k, n - 1);
    }
}

/// Once an item did not fit, later items change nothing.
proof fn lemma_truncated_stays(items: Seq<ServeItem>, have: Seq<[u8; 32]>, k: int, n: int)
    requires
        0 <= k <= n,
        response_upto(items, have, k).2,
    ensures
        response_upto(items, have, n) == response_upto(items, have, k),
    decreases n - k,
{
    if n > k {
        lemma_truncated_stays(items, have, k, n - 1);
    }
}

// --- the bounded walk --------------------------------------------------------------

/// A walk over parent hashes that stops at depth 128 and at 4096 hashes in
/// total; unresolved parents are surfaced, never retried inside the walk.
pub struct WalkQueue {
    queue: VecDeque<[u8; 32]>,
    visited: Vec<[u8; 32]>,
    depth: usize,
    unresolved: Vec<[u8; 32]>,
}

pub open spec fn hashes(s: Seq<[u8; 32]>) -> Seq<Seq<u8>> {
    s.map_values(|h: [u8; 32]| h@)
}

impl WalkQueue {
    /// The hashes waiting to be walked, front first.
    pub closed spec fn pending(&self) -> Seq<Seq<u8>> {
        hashes(self.queue@)
    }

    /// Every hash ever pushed, the root first.
    pub closed spec fn seen(&self) -> Seq<Seq<u8>> {
        hashes(self.visited@)
    }

    pub closed spec fn surfaced(&self) -> Seq<Seq<u8>> {
        hashes(self.unresolved@)
    }

    pub closed spec fn walked(&self) -> nat {
        self.depth as nat
    }

    /// At most WALK_MAX_TOTAL hashes seen, at most WALK_MAX_DEPTH walked;
    /// the pending hashes are the seen ones not yet walked.
    pub closed spec fn wf(&self) -> bool {
        &&& self.visited@.len() <= WALK_MAX_TOTAL
        &&& self.depth <= WALK_MAX_DEPTH
        &&& self.queue@.len() <= self.visited@.len()
        &&& self.pending() == self.seen().subrange(
            self.seen().len() - self.pending().len(),
            self.seen().len() as int,
        )
    }

    pub fn new(root: [u8; 32]) -> (w: Self)
        ensures
            w.wf(),
            w.pending() == seq![root@],
            w.seen() == seq![root@],
            w.surfaced() == Seq::<Seq<u8>>::empty(),
            w.walked() == 0,
    {
        let mut q = Self { queue: VecDeque::new(), visited: Vec::new(), depth: 0, unresolved: Vec::new() };
        q.queue.push_back(root);
        q.visited.push(root);
        assert(q.pending() =~= seq![root@]);
        assert(q.seen() =~= seq![root@]);
        assert(q.seen().subrange(0, 1) =~= q.seen());
        assert(q.surfaced() =~= Seq::<Seq<u8>>::empty());
        q
    }

    /// Pushes a parent hash. Refused at WALK_MAX_TOTAL (fail closed); a hash
    /// seen before, surfaced ones included, is silently dropped.
    pub fn push(&mut self, hash: [u8; 32]) -> (r: Result<(), SyncError>)
        requires
            old(self).wf(),
        ensures
            final(self).wf(),
            final(self).surfaced() == old(self).surfaced(),
            final(self).walked() == old(self).walked(),
            old(self).seen().len() >= WALK_MAX_TOTAL ==> r == Err::<(), SyncError>(SyncError::WalkExhausted)
                && final(self).seen() == old(self).seen() && final(self).pending() == old(self).pending(),
            old(self).seen().len() < WALK_MAX_TOTAL && old(self).seen().contains(hash@) ==> r is Ok
                && final(self).seen() == old(self).seen() && final(self).pending() == old(self).pending(),
            old(self).seen().len() < WALK_MAX_TOTAL && !old(self).seen().contains(hash@) ==> r is Ok
                && final(self).seen() == old(self).seen().push(hash@) && final(self).pending() == old(
                self,
            ).pending().push(hash@),
    {
        if self.visited.len() >= WALK_MAX_TOTAL {
            return Err(SyncError::WalkExhausted);
        }
        let mut i: usize = 0;
        while i < self.visited.len()
            invariant
                *self == *old(self),
                old(self).wf(),
                self.visited@.len() < WALK_MAX_TOTAL,
                i <= self.visited@.len(),
                forall|k: int| 0 <= k < i ==> #[trigger] self.seen()[k] != hash@,
            decreases self.visited@.len() - i,
        {
            if bytes_eq(self.visited[i].as_slice(), hash.as_slice()) {
                assert(self.seen()[i as int] == hash@);
                return Ok(());
            }
            assert(self.seen()[i as int] != hash@);
            i = i + 1;
        }
        self.visited.push(hash);
        self.queue.push_back(hash);
        proof {
            assert(self.seen() =~= old(self).seen().push(hash@));
            assert(self.pending() =~= old(self).pending().push(hash@));
            assert(self.pending() =~= self.seen().subrange(
                self.seen().len() - self.pending().len(),
                self.seen().len() as int,
            ));
        }
        Ok(())
    }

    /// The next hash to walk, within WALK_MAX_DEPTH; None when the walk is
    /// complete.
    pub fn next(&mut self) -> (r: Option<[u8; 32]>)
        requires
            old(self).wf(),
        ensures
            final(self).wf(),
            final(self).seen() == old(self).seen(),
            final(self).surfaced() == old(self).surfaced(),
            old(self).walked() >= WALK_MAX_DEPTH || old(self).pending().len() == 0 ==> r is None
                && final(self).walked() == old(self).walked() && final(self).pending() == old(self).pending(),
            old(self).walked() < WALK_MAX_DEPTH && old(self).pending().len() > 0 ==> r is Some && r->Some_0@
                == old(self).pending()[0] && final(self).walked() == old(self).walked() + 1
                && final(self).pending() == old(self).pending().drop_first(),
    {
        if self.depth >= WALK_MAX_DEPTH {
            return None;
        }
        match self.queue.pop_front() {
            Some(h) => {
                self.depth = self.depth + 1;
                proof {
                    assert(self.pending() =~= old(self).pending().drop_first());
                    assert(self.pending() =~= self.seen().subrange(
                        self.seen().len() - self.pending().len(),
                        self.seen().len() as int,
                    ));
                }
                Some(h)
            },
            None => None,
        }
    }

    /// Records a resolution outcome: an unresolved hash is surfaced once,
    /// never re-enqueued.
    pub fn record(&mut self, hash: [u8; 32], resolved: bool)
        requires
            old(self).wf(),
        ensures
            final(self).wf(),
            final(self).seen() == old(self).seen(),
            final(self).pending() == old(self).pending(),
            final(self).walked() == old(self).walked(),
            !resolved && !old(self).surfaced().contains(hash@) ==> final(self).surfaced() == old(
                self,
            ).surfaced().push(hash@),
            resolved || old(self).surfaced().contains(hash@) ==> final(self).surfaced() == old(
                self,
            ).surfaced(),
    {
        if resolved {
            return;
        }
        let mut i: usize = 0;
        while i < self.unresolved.len()
            invariant
                *self == *old(self),
                old(self).wf(),
                i <= self.unresolved@.len(),
                forall|k: int| 0 <= k < i ==> #[trigger] self.surfaced()[k] != hash@,
            decreases self.unresolved@.len() - i,
        {
            if bytes_eq(self.unresolved[i].as_slice(), hash.as_slice()) {
                assert(self.surfaced()[i as int] == hash@);
                return;
            }
            assert(self.surfaced()[i as int] != hash@);
            i = i + 1;
        }
        self.unresolved.push(hash);
        assert(self.surfaced() =~= old(self).surfaced().push(hash@));
    }

    pub fn depth(&self) -> (n: usize)
        ensures
            n == self.walked(),
    {
        self.depth
    }

    pub fn total(&self) -> (n: usize)
        ensures
            n == self.seen().len(),
    {
        self.visited.len()
    }

    /// How many hashes wait to be walked.
    pub fn queued(&self) -> (n: usize)
        ensures
            n == self.pending().len(),
    {
        self.queue.len()
    }

    pub fn unresolved(&self) -> (u: &[[u8; 32]])
        ensures
            hashes(u@) == self.surfaced(),
    {
        self.unresolved.as_slice()
    }
}

/// An item whose hash equals any hash the peer has, at any position, adds
/// nothing to the response: neither bytes nor count nor truncation.
pub proof fn lemma_known_item_skipped(items: Seq<ServeItem>, have: Seq<[u8; 32]>, k: int, i: int)
    requires
        1 <= k <= items.len(),
        0 <= i < have.len(),
        have[i]@ == items[k - 1].hash@,
    ensures
        response_upto(items, have, k) == response_upto(items, have, k - 1),
{
    assert(peer_has(have, items[k - 1].hash@));
}

/// The items among the first `k` whose hash the peer does not have (at any
/// position of `have`), in order.
pub open spec fn lacking_upto(items: Seq<ServeItem>, have: Seq<[u8; 32]>, k: int) -> Seq<ServeItem>
    decreases k,
{
    if k <= 0 {
        Seq::empty()
    } else if exists|i: int| 0 <= i < have.len() && (#[trigger] have[i])@ == items[k - 1].hash@ {
        lacking_upto(items, have, k - 1)
    } else {
        lacking_upto(items, have, k - 1).push(items[k - 1])
    }
}

/// The response reads only the items it has considered.
proof fn lemma_upto_prefix(a: Seq<ServeItem>, b: Seq<ServeItem>, have: Seq<[u8; 32]>, k: int)
    requires
        0 <= k <= a.len(),
        k <= b.len(),
        forall|j: int| 0 <= j < k ==> a[j] == b[j],
    ensures
        response_upto(a, have, k) == response_upto(b, have, k),
    decreases k,
{
    if k > 0 {
        lemma_upto_prefix(a, b, have, k - 1);
    }
}

/// The response to a peer is the response, to a peer that has nothing, over
/// exactly the items it lacks, in order: an item it has (its hash anywhere in
/// `have`) is never carried, and the others are carried as if the known ones
/// were not there.
pub proof fn lemma_response_is_of_lacking_items(items: Seq<ServeItem>, have: Seq<[u8; 32]>, k: int)
    requires
        0 <= k <= items.len(),
    ensures
        response_upto(items, have, k) == response_upto(
            lacking_upto(items, have, k),
            Seq::<[u8; 32]>::empty(),
            lacking_upto(items, have, k).len() as int,
        ),
    decreases k,
{
    if k > 0 {
        lemma_response_is_of_lacking_items(items, have, k - 1);
        let l = lacking_upto(items, have, k - 1);
        if exists|i: int| 0 <= i < have.len() && (#[trigger] have[i])@ == items[k - 1].hash@ {
            let i = choose|i: int| 0 <= i < have.len() && (#[trigger] have[i])@ == items[k - 1].hash@;
            lemma_known_item_skipped(items, have, k, i);
        } else {
            assert(!peer_has(have, items[k - 1].hash@));
            let l2 = l.push(items[k - 1]);
            assert(lacking_upto(items, have, k) == l2);
            lemma_upto_prefix(l2, l, Seq::<[u8; 32]>::empty(), l.len() as int);
            assert(!peer_has(Seq::<[u8; 32]>::empty(), items[k - 1].hash@));
            assert(l2[l.len() as int] == items[k - 1]);
        }
    }
}

} // verus!
