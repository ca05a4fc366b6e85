//! Store-and-forward: bounded relay storage with TTL expiry, keyed by the
//! recipient's overlay address.
//!
//! The store's meaning is `held()`: for each slot, the packet it holds, if
//! any.

use vstd::prelude::*;
use crate::codec::bytes_eq;

verus! {

pub const MAX_BODY: usize = 2048;
pub const MAX_PER_RECIPIENT: usize = 64;
pub const MAX_BYTES_PER_RECIPIENT: usize = 4194304;  // 4 MiB
pub const TTL_MS: u64 = 120_000;
pub const MAX_STORED: usize = 1024;

#[derive(Debug, Clone, Copy, PartialEq, Eq, Structural)]
pub enum StoreError {
    BodyTooLarge,
    RecipientQuota,
    StoreFull,
}

pub struct StoredPacket {
    pub in_use: bool,
    pub sender_index: u32,
    pub recipient_addr: [u8; 16],
    pub body_len: usize,
    pub body: [u8; MAX_BODY],
    pub stored_at_ms: u64,
}

impl Default for StoredPacket {
    fn default() -> (p: Self)
        ensures
            !p.in_use,
            p.body_len == 0,
    {
        Self {
            in_use: false,
            sender_index: 0,
            recipient_addr: [0u8;16],
            body_len: 0,
            body: [0u8;2048],
            stored_at_ms: 0,
        }
    }
}

pub struct DrainedPacket<'a> {
    pub sender_index: u32,
    pub body: &'a [u8],
}

/// A held packet: sender, recipient, body, time stored.
pub struct Held {
    pub sender_index: u32,
    pub recipient: Seq<u8>,
    pub body: Seq<u8>,
    pub stored_at_ms: u64,
}

pub open spec fn held_of(p: StoredPacket) -> Option<Held> {
    if p.in_use {
        Some(
            Held {
                sender_index: p.sender_index,
                recipient: p.recipient_addr@,
                body: p.body@.subrange(0, p.body_len as int),
                stored_at_ms: p.stored_at_ms,
            },
        )
    } else {
        None
    }
}

/// A held packet expires once `TTL_MS` has passed since it was stored (a
/// clock behind the store time expires nothing).
pub open spec fn expired(h: Held, now_ms: u64) -> bool {
    now_ms >= h.stored_at_ms && now_ms - h.stored_at_ms >= TTL_MS
}

pub open spec fn purge_slot(o: Option<Held>, now_ms: u64) -> Option<Held> {
    match o {
        Some(h) => if expired(h, now_ms) {
            None
        } else {
            Some(h)
        },
        None => None,
    }
}

pub open spec fn purged(s: Seq<Option<Held>>, now_ms: u64) -> Seq<Option<Held>> {
    Seq::new(s.len(), |i: int| purge_slot(s[i], now_ms))
}

/// How many slots of `s` are held.
pub open spec fn held_count(s: Seq<Option<Held>>) -> nat
    decreases s.len(),
{
    if s.len() == 0 {
        0
    } else {
        held_count(s.drop_last()) + if s.last() is Some {
            1nat
        } else {
            0nat
        }
    }
}

/// Packets held for `addr`, and their body bytes.
pub open spec fn for_recipient(s: Seq<Option<Held>>, addr: Seq<u8>) -> (nat, nat)
    decreases s.len(),
{
    if s.len() == 0 {
        (0, 0)
    } else {
        let (c, b) = for_recipient(s.drop_last(), addr);
        match s.last() {
            Some(h) => if h.recipient == addr {
                (c + 1, b + h.body.len())
            } else {
                (c, b)
            },
            None => (c, b),
        }
    }
}

/// The first free slot.
pub open spec fn first_free(s: Seq<Option<Held>>) -> Option<int> {
    if exists|i: int| 0 <= i < s.len() && #[trigger] s[i] is None && forall|k: int| 0 <= k < i ==> #[trigger] s[k] is Some {
        Some(choose|i: int| 0 <= i < s.len() && #[trigger] s[i] is None && forall|k: int| 0 <= k < i ==> #[trigger] s[k] is Some)
    } else {
        None
    }
}

/// The slot `drain_next` takes for `addr`: the packet stored earliest,
/// the lowest slot among equals.
pub open spec fn oldest_for(s: Seq<Option<Held>>, addr: Seq<u8>, i: int) -> bool {
    &&& 0 <= i < s.len()
    &&& s[i] is Some && s[i]->Some_0.recipient == addr
    &&& forall|k: int|
        0 <= k < s.len() && #[trigger] s[k] is Some && s[k]->Some_0.recipient == addr ==> s[i]->Some_0.stored_at_ms
            < s[k]->Some_0.stored_at_ms || (s[i]->Some_0.stored_at_ms == s[k]->Some_0.stored_at_ms
            && i <= k)
}

proof fn lemma_held_count_update(s: Seq<Option<Held>>, k: int, x: Option<Held>)
    requires
        0 <= k < s.len(),
    ensures
        held_count(s.update(k, x)) + (if s[k] is Some { 1int } else { 0int }) == held_count(s) + (
        if x is Some {
            1int
        } else {
            0int
        }),
        held_count(s) <= s.len(),
    decreases s.len(),
{
    if k < s.len() - 1 {
        lemma_held_count_update(s.drop_last(), k, x);
        assert(s.update(k, x).drop_last() =~= s.drop_last().update(k, x));
    } else {
        lemma_held_count_bound(s.drop_last());
        assert(s.update(k, x).drop_last() =~= s.drop_last());
    }
}

proof fn lemma_held_count_bound(s: Seq<Option<Held>>)
    ensures
        held_count(s) <= s.len(),
    decreases s.len(),
{
    if s.len() > 0 {
        lemma_held_count_bound(s.drop_last());
    }
}

proof fn lemma_recipient_bound(s: Seq<Option<Held>>, addr: Seq<u8>)
    requires
        forall|i: int| 0 <= i < s.len() && #[trigger] s[i] is Some ==> s[i]->Some_0.body.len() <= MAX_BODY,
    ensures
        for_recipient(s, addr).1 <= s.len() * MAX_BODY,
        for_recipient(s, addr).0 <= s.len(),
    decreases s.len(),
{
    if s.len() > 0 {
        lemma_recipient_bound(s.drop_last(), addr);
        assert(s.drop_last().len() * MAX_BODY + MAX_BODY == s.len() * MAX_BODY) by (nonlinear_arith)
            requires
                s.drop_last().len() + 1 == s.len(),
        ;
    }
}

pub struct Store {
    pub packets: Vec<StoredPacket>,
    pub count: usize,
    pub refused_quota: u64,
}

impl Store {
    pub open spec fn held(&self) -> Seq<Option<Held>> {
        self.packets@.map_values(|p: StoredPacket| held_of(p))
    }

    /// MAX_STORED slots; `count` counts the held ones; bodies fit.
    pub open spec fn wf(&self) -> bool {
        &&& self.packets@.len() == MAX_STORED
        &&& self.count as nat == held_count(self.held())
        &&& forall|i: int| 0 <= i < self.packets@.len() ==> (#[trigger] self.packets@[i]).body_len <= MAX_BODY
    }

    pub fn new() -> (s: Self)
        ensures
            s.wf(),
            s.held() == Seq::new(MAX_STORED as nat, |i: int| None::<Held>),
            s.refused_quota == 0,
    {
        let mut packets: Vec<StoredPacket> = Vec::new();
        let mut i: usize = 0;
        while i < MAX_STORED
            invariant
                i <= MAX_STORED,
                packets@.len() == i,
                forall|k: int| 0 <= k < i ==> !(#[trigger] packets@[k]).in_use && packets@[k].body_len == 0,
            decreases MAX_STORED - i,
        {
            packets.push(StoredPacket::default());
            i = i + 1;
        }
        let s = Self { packets, count: 0, refused_quota: 0 };
        assert(s.held() =~= Seq::new(MAX_STORED as nat, |i: int| None::<Held>));
        proof {
            lemma_none_count(MAX_STORED as nat);
        }
        s
    }

    /// Frees every slot and clears the counters.
    pub fn reset(&mut self)
        requires
            old(self).packets@.len() == MAX_STORED,
            forall|i: int| 0 <= i < old(self).packets@.len() ==> (#[trigger] old(self).packets@[i]).body_len <= MAX_BODY,
        ensures
            final(self).wf(),
            final(self).held() == Seq::new(MAX_STORED as nat, |i: int| None::<Held>),
            final(self).refused_quota == 0,
    {
        let mut i: usize = 0;
        while i < self.packets.len()
            invariant
                self.packets@.len() == MAX_STORED,
                i <= MAX_STORED,
                forall|k: int| 0 <= k < i ==> !(#[trigger] self.packets@[k]).in_use,
                forall|k: int| 0 <= k < self.packets@.len() ==> (#[trigger] self.packets@[k]).body_len <= MAX_BODY,
            decreases MAX_STORED - i,
        {
            self.packets[i].in_use = false;
            i = i + 1;
        }
        self.count = 0;
        self.refused_quota = 0;
        assert(self.held() =~= Seq::new(MAX_STORED as nat, |i: int| None::<Held>));
        proof {
            lemma_none_count(MAX_STORED as nat);
        }
    }

    /// Frees every held packet that has expired; returns how many.
    pub fn purge_expired(&mut self, now_ms: u64) -> (n: usize)
        requires
            old(self).wf(),
        ensures
            final(self).wf(),
            final(self).held() == purged(old(self).held(), now_ms),
            final(self).refused_quota == old(self).refused_quota,
            n + held_count(final(self).held()) == held_count(old(self).held()),
    {
        let mut purged_n: usize = 0;
        let mut i: usize = 0;
        while i < self.packets.len()
            invariant
                self.wf(),
                self.refused_quota == old(self).refused_quota,
                i <= MAX_STORED,
                self.held().len() == MAX_STORED,
                forall|k: int| 0 <= k < i ==> #[trigger] self.held()[k] == purge_slot(old(self).held()[k], now_ms),
                forall|k: int| i <= k < MAX_STORED ==> #[trigger] self.held()[k] == old(self).held()[k],
                purged_n + held_count(self.held()) == held_count(old(self).held()),
                purged_n <= i,
            decreases MAX_STORED - i,
        {
            if self.packets[i].in_use {
                let at = self.packets[i].stored_at_ms;
                if now_ms >= at && now_ms - at >= TTL_MS {
                    proof {
                        lemma_held_count_update(self.held(), i as int, None);
                    }
                    let ghost before = self.held();
                    self.packets[i].in_use = false;
                    assert(self.held() =~= before.update(i as int, None));
                    self.count = self.count - 1;
                    purged_n = purged_n + 1;
                }
            }
            i = i + 1;
        }
        assert(self.held() =~= purged(old(self).held(), now_ms));
        purged_n
    }

    /// Stores a packet for a recipient after purging expired ones. Refused
    /// when the body is too large, the store is full, or the recipient is at
    /// its packet or byte quota; each refusal after the size check counts
    /// in `refused_quota`.
    pub fn store(&mut self, recipient_addr: [u8; 16], sender_index: u32, body: &[u8], now_ms: u64) -> (r: Result<(), StoreError>)
        requires
            old(self).wf(),
            body@.len() <= MAX_BODY && ({
                let p = purged(old(self).held(), now_ms);
                let (rc, rb) = for_recipient(p, recipient_addr@);
                ||| held_count(p) >= MAX_STORED
                ||| rc >= MAX_PER_RECIPIENT
                ||| rb + body@.len() > MAX_BYTES_PER_RECIPIENT
                ||| first_free(p) is None
            }) ==> old(self).refused_quota < u64::MAX,
        ensures
            final(self).wf(),
            body@.len() > MAX_BODY ==> r == Err::<(), StoreError>(StoreError::BodyTooLarge)
                && final(self).held() == old(self).held() && final(self).refused_quota == old(self).refused_quota,
            body@.len() <= MAX_BODY ==> {
                let p = purged(old(self).held(), now_ms);
                let (rc, rb) = for_recipient(p, recipient_addr@);
                if held_count(p) >= MAX_STORED {
                    r == Err::<(), StoreError>(StoreError::StoreFull) && final(self).held() == p
                        && final(self).refused_quota == old(self).refused_quota + 1
                } else if rc >= MAX_PER_RECIPIENT || rb + body@.len() > MAX_BYTES_PER_RECIPIENT {
                    r == Err::<(), StoreError>(StoreError::RecipientQuota) && final(self).held() == p
                        && final(self).refused_quota == old(self).refused_quota + 1
                } else {
                    match first_free(p) {
                        Some(k) => r is Ok && final(self).held() == p.update(
                            k,
                            Some(
                                Held {
                                    sender_index,
                                    recipient: recipient_addr@,
                                    body: body@,
                                    stored_at_ms: now_ms,
                                },
                            ),
                        ) && final(self).refused_quota == old(self).refused_quota,
                        None => r == Err::<(), StoreError>(StoreError::StoreFull) && final(self).held()
                            == p && final(self).refused_quota == old(self).refused_quota + 1,
                    }
                }
            },
    {
        if body.len() > MAX_BODY {
            return Err(StoreError::BodyTooLarge);
        }
        self.purge_expired(now_ms);
        if self.count >= MAX_STORED {
            self.refused_quota = self.refused_quota + 1;
            return Err(StoreError::StoreFull);
        }
        let (recip_count, recip_bytes) = self.recipient_usage(&recipient_addr);
        if recip_count >= MAX_PER_RECIPIENT || recip_bytes + body.len() > MAX_BYTES_PER_RECIPIENT {
            self.refused_quota = self.refused_quota + 1;
            return Err(StoreError::RecipientQuota);
        }
        match self.place(recipient_addr, sender_index, body, now_ms) {
            true => Ok(()),
            false => {
                self.refused_quota = self.refused_quota + 1;
                Err(StoreError::StoreFull)
            },
        }
    }

    /// Packets held for `addr`, and their body bytes.
    fn recipient_usage(&self, addr: &[u8; 16]) -> (r: (usize, usize))
        requires
            self.wf(),
        ensures
            (r.0 as nat, r.1 as nat) == for_recipient(self.held(), addr@),
            r.1 <= MAX_STORED * MAX_BODY,
    {
        let mut recip_count: usize = 0;
        let mut recip_bytes: usize = 0;
        let mut i: usize = 0;
        while i < self.packets.len()
            invariant
                self.wf(),
                i <= MAX_STORED,
                (recip_count as nat, recip_bytes as nat) == for_recipient(self.held().subrange(0, i as int), addr@),
                recip_bytes <= i * MAX_BODY,
                recip_count <= i,
            decreases MAX_STORED - i,
        {
            proof {
                assert(self.held().subrange(0, i + 1).drop_last() =~= self.held().subrange(0, i as int));
            }
            let p = &self.packets[i];
            if p.in_use && bytes_eq(p.recipient_addr.as_slice(), addr.as_slice()) {
                recip_count = recip_count + 1;
                recip_bytes = recip_bytes + p.body_len;
            }
            i = i + 1;
        }
        assert(self.held().subrange(0, MAX_STORED as int) =~= self.held());
        (recip_count, recip_bytes)
    }

    /// Puts the packet in the first free slot; false when none is free.
    fn place(&mut self, recipient_addr: [u8; 16], sender_index: u32, body: &[u8], now_ms: u64) -> (ok: bool)
        requires
            old(self).wf(),
            body@.len() <= MAX_BODY,
        ensures
            final(self).wf(),
            final(self).refused_quota == old(self).refused_quota,
            match first_free(old(self).held()) {
                Some(k) => ok && final(self).held() == old(self).held().update(
                    k,
                    Some(Held { sender_index, recipient: recipient_addr@, body: body@, stored_at_ms: now_ms }),
                ),
                None => !ok && final(self).held() == old(self).held(),
            },
    {
        let mut j: usize = 0;
        while j < self.packets.len()
            invariant
                self.wf(),
                *self == *old(self),
                body@.len() <= MAX_BODY,
                j <= MAX_STORED,
                forall|k: int| 0 <= k < j ==> #[trigger] self.held()[k] is Some,
            decreases MAX_STORED - j,
        {
            if !self.packets[j].in_use {
                let ghost before = self.held();
                let ghost h = Held { sender_index, recipient: recipient_addr@, body: body@, stored_at_ms: now_ms };
                proof {
                    lemma_held_count_update(before, j as int, Some(h));
                    assert(before[j as int] is None);
                    let c = choose|x: int| 0 <= x < before.len() && #[trigger] before[x] is None && forall|k: int| 0 <= k < x ==> #[trigger] before[k] is Some;
                    if c > j {
                    }
                }
                let mut buf = [0u8;2048];
                let mut k: usize = 0;
                while k < body.len()
                    invariant
                        body@.len() <= MAX_BODY,
                        k <= body@.len(),
                        forall|t: int| 0 <= t < k ==> buf@[t] == body@[t],
                    decreases body@.len() - k,
                {
                    buf[k] = body[k];
                    k = k + 1;
                }
                assert(buf@.subrange(0, body@.len() as int) =~= body@);
                self.packets.set(j, StoredPacket {
                    in_use: true,
                    sender_index,
                    recipient_addr,
                    body_len: body.len(),
                    body: buf,
                    stored_at_ms: now_ms,
                });
                assert(self.held() =~= before.update(j as int, Some(h)));
                proof {
                    lemma_held_count_bound(self.held());
                }
                self.count = self.count + 1;
                return true;
            }
            j = j + 1;
        }
        false
    }

    /// Takes the oldest packet held for `recipient_addr` (after purging
    /// expired ones) and frees its slot.
    pub fn drain_next(&mut self, recipient_addr: &[u8; 16], now_ms: u64) -> (r: Option<DrainedPacket<'_>>)
        requires
            old(self).wf(),
        ensures
            final(self).wf(),
            final(self).refused_quota == old(self).refused_quota,
            ({
                let p = purged(old(self).held(), now_ms);
                match r {
                    Some(d) => exists|i: int|
                        oldest_for(p, recipient_addr@, i) && d.sender_index == p[i]->Some_0.sender_index
                            && d.body@ == p[i]->Some_0.body && final(self).held() == p.update(i, None),
                    None => final(self).held() == p && forall|k: int|
                        0 <= k < p.len() ==> !(#[trigger] p[k] is Some && p[k]->Some_0.recipient
                            == recipient_addr@),
                }
            }),
    {
        self.purge_expired(now_ms);
        let ghost s = self.held();
        let mut best: Option<usize> = None;
        let mut i: usize = 0;
        while i < self.packets.len()
            invariant
                self.wf(),
                s == self.held(),
                i <= MAX_STORED,
                match best {
                    Some(b) => b < i && s[b as int] is Some && s[b as int]->Some_0.recipient == recipient_addr@
                        && forall|k: int|
                        0 <= k < i && #[trigger] s[k] is Some && s[k]->Some_0.recipient == recipient_addr@
                            ==> s[b as int]->Some_0.stored_at_ms < s[k]->Some_0.stored_at_ms || (
                        s[b as int]->Some_0.stored_at_ms == s[k]->Some_0.stored_at_ms && b <= k),
                    None => forall|k: int|
                        0 <= k < i ==> !(#[trigger] s[k] is Some && s[k]->Some_0.recipient
                            == recipient_addr@),
                },
            decreases MAX_STORED - i,
        {
            let p = &self.packets[i];
            if p.in_use && bytes_eq(p.recipient_addr.as_slice(), recipient_addr.as_slice()) {
                let better = match best {
                    Some(b) => p.stored_at_ms < self.packets[b].stored_at_ms,
                    None => true,
                };
                if better {
                    best = Some(i);
                }
            }
            i = i + 1;
        }
        let idx = match best {
            Some(b) => b,
            None => return None,
        };
        let sender_index = self.packets[idx].sender_index;
        let body_len = self.packets[idx].body_len;
        proof {
            lemma_held_count_update(s, idx as int, None);
        }
        self.packets[idx].in_use = false;
        assert(self.held() =~= s.update(idx as int, None));
        self.count = self.count - 1;
        let body = &self.packets[idx].body[0..body_len];
        Some(DrainedPacket { sender_index, body })
    }
}

proof fn lemma_none_count(n: nat)
    ensures
        held_count(Seq::new(n, |i: int| None::<Held>)) == 0,
    decreases n,
{
    if n > 0 {
        lemma_none_count((n - 1) as nat);
        assert(Seq::new(n, |i: int| None::<Held>).drop_last() =~= Seq::new((n - 1) as nat, |i: int| None::<Held>));
    }
}

/// A sequence with every slot held counts all of its slots.
proof fn lemma_held_all(s: Seq<Option<Held>>)
    requires
        forall|k: int| 0 <= k < s.len() ==> #[trigger] s[k] is Some,
    ensures
        held_count(s) == s.len(),
    decreases s.len(),
{
    if s.len() > 0 {
        lemma_held_all(s.drop_last());
    }
}

} // verus!
