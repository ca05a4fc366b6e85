//! Fragmentation accounting, metadata only.
//!
//! Stores no payload bytes: tracks fragment indices, byte accounting,
//! timeouts and node admission capacity. The caller owns byte buffers.
//!
//! Two scopes, two failure semantics:
//! - message scope (per peer): drop the message, keep the session;
//! - node scope: refuse new sessions rather than degrade existing ones.

use vstd::prelude::*;

verus! {

pub const MAX_MESSAGE: usize = 1048576;  // 1 MiB
pub const MAX_HEADER: usize = 512;
pub const MAX_BODY_LEN: usize = 1048064;  // MAX_MESSAGE - MAX_HEADER
pub const CONTEXTS_PER_PEER: u8 = 8;
pub const MEMORY_PER_PEER: usize = 8388608;  // 8 MiB
pub const SESSIONS_PER_NODE: u16 = 512;
pub const MEMORY_PER_NODE: usize = 268435456;  // 256 MiB
pub const INCOMPLETE_TIMEOUT_MS: u64 = 30_000;

#[derive(Debug, Clone, Copy, PartialEq, Eq, Structural)]
pub enum PeerEvent {
    Complete,
    Partial,
    Duplicate,
    MessageDropped,
}

#[derive(Debug, Clone, Copy, PartialEq, Eq, Structural)]
pub enum NodeEvent {
    Admitted,
    Refused,
}

// --- bitset facts ------------------------------------------------------------

/// Bit `b` of `w`.
pub open spec fn bit_of(w: u64, b: u64) -> bool {
    (w >> b) & 1u64 == 1u64
}

proof fn lemma_bit_set(w: u64, b: u64, c: u64)
    requires
        b < 64,
        c < 64,
    ensures
        bit_of(w | (1u64 << b), c) == (c == b || bit_of(w, c)),
{
    assert(((w | (1u64 << b)) >> c) & 1u64 == 1u64 <==> (c == b || (w >> c) & 1u64 == 1u64))
        by (bit_vector)
        requires
            b < 64,
            c < 64,
    ;
}

proof fn lemma_bit_test(w: u64, b: u64)
    requires
        b < 64,
    ensures
        (w & (1u64 << b) != 0u64) == bit_of(w, b),
{
    assert((w & (1u64 << b) != 0u64) == ((w >> b) & 1u64 == 1u64)) by (bit_vector)
        requires
            b < 64,
    ;
}

proof fn lemma_bit_zero(c: u64)
    ensures
        !bit_of(0u64, c),
{
    assert((0u64 >> c) & 1u64 != 1u64) by (bit_vector);
}

// --- contexts --------------------------------------------------------------------

#[derive(Clone, Copy)]
struct Context {
    msg_id: u64,
    total: u16,
    received: u16,
    bytes: usize,
    updated_ms: u64,
    in_use: bool,
    seen: [u64; 16],  // up to 1024 fragments (16 * 64)
}

/// A message being reassembled: its id, the fragment count it announced,
/// how many distinct fragments arrived, their bytes, the time of the last
/// one, and the indices seen.
pub struct Assembly {
    pub msg_id: u64,
    pub total: u16,
    pub received: u16,
    pub bytes: usize,
    pub updated_ms: u64,
    pub seen: Set<int>,
}

impl Context {
    spec fn has(self, i: int) -> bool {
        bit_of(self.seen@[i / 64], (i % 64) as u64)
    }

    spec fn model(self) -> Option<Assembly> {
        if self.in_use {
            Some(
                Assembly {
                    msg_id: self.msg_id,
                    total: self.total,
                    received: self.received,
                    bytes: self.bytes,
                    updated_ms: self.updated_ms,
                    seen: Set::new(|i: int| 0 <= i < 1024 && self.has(i)),
                },
            )
        } else {
            None
        }
    }

    fn new() -> (c: Self)
        ensures
            !c.in_use,
            c.msg_id == 0 && c.total == 0 && c.received == 0,
            c.bytes == 0 && c.updated_ms == 0,
            forall|k: int| 0 <= k < 16 ==> c.seen@[k] == 0,
    {
        Self { msg_id: 0, total: 0, received: 0, bytes: 0, updated_ms: 0, in_use: false, seen: [0;16] }
    }
}

/// Bytes held by the assemblies in `s`.
pub open spec fn held_bytes(s: Seq<Option<Assembly>>) -> nat
    decreases s.len(),
{
    if s.len() == 0 {
        0
    } else {
        held_bytes(s.drop_last()) + match s.last() {
            Some(a) => a.bytes as nat,
            None => 0nat,
        }
    }
}

/// How many slots of `s` hold an assembly.
pub open spec fn in_use_count(s: Seq<Option<Assembly>>) -> nat
    decreases s.len(),
{
    if s.len() == 0 {
        0
    } else {
        in_use_count(s.drop_last()) + if s.last() is Some {
            1nat
        } else {
            0nat
        }
    }
}

pub open spec fn slot_bytes(o: Option<Assembly>) -> nat {
    match o {
        Some(a) => a.bytes as nat,
        None => 0,
    }
}

pub open spec fn slot_used(o: Option<Assembly>) -> nat {
    if o is Some {
        1
    } else {
        0
    }
}

pub proof fn lemma_held_update(s: Seq<Option<Assembly>>, k: int, x: Option<Assembly>)
    requires
        0 <= k < s.len(),
    ensures
        held_bytes(s.update(k, x)) + slot_bytes(s[k]) == held_bytes(s) + slot_bytes(x),
        in_use_count(s.update(k, x)) + slot_used(s[k]) == in_use_count(s) + slot_used(x),
    decreases s.len(),
{
    if k < s.len() - 1 {
        lemma_held_update(s.drop_last(), k, x);
        assert(s.update(k, x).drop_last() =~= s.drop_last().update(k, x));
    } else {
        assert(s.update(k, x).drop_last() =~= s.drop_last());
    }
}

pub proof fn lemma_held_bound(s: Seq<Option<Assembly>>, k: int)
    requires
        0 <= k < s.len(),
    ensures
        slot_bytes(s[k]) <= held_bytes(s),
        slot_used(s[k]) <= in_use_count(s),
        in_use_count(s) <= s.len(),
    decreases s.len(),
{
    lemma_count_bound(s);
    if k < s.len() - 1 {
        lemma_held_bound(s.drop_last(), k);
    }
}

pub proof fn lemma_count_bound(s: Seq<Option<Assembly>>)
    ensures
        in_use_count(s) <= s.len(),
    decreases s.len(),
{
    if s.len() > 0 {
        lemma_count_bound(s.drop_last());
    }
}

/// First slot holding message `msg_id`.
pub open spec fn slot_of(s: Seq<Option<Assembly>>, msg_id: u64) -> Option<int> {
    if exists|i: int|
        0 <= i < s.len() && #[trigger] s[i] is Some && s[i]->Some_0.msg_id == msg_id && forall|k: int|
            0 <= k < i ==> !(#[trigger] s[k] is Some && s[k]->Some_0.msg_id == msg_id) {
        Some(
            choose|i: int|
                0 <= i < s.len() && #[trigger] s[i] is Some && s[i]->Some_0.msg_id == msg_id
                    && forall|k: int|
                    0 <= k < i ==> !(#[trigger] s[k] is Some && s[k]->Some_0.msg_id == msg_id),
        )
    } else {
        None
    }
}

/// First free slot.
pub open spec fn free_slot(s: Seq<Option<Assembly>>) -> Option<int> {
    if exists|i: int|
        0 <= i < s.len() && #[trigger] s[i] is None && forall|k: int|
            0 <= k < i ==> #[trigger] s[k] is Some {
        Some(
            choose|i: int|
                0 <= i < s.len() && #[trigger] s[i] is None && forall|k: int|
                    0 <= k < i ==> #[trigger] s[k] is Some,
        )
    } else {
        None
    }
}

/// What `ingest` does: the new slots and bytes in use, and the event.
pub open spec fn spec_ingest(
    s: Seq<Option<Assembly>>,
    used: nat,
    max_fragments: u16,
    now_ms: u64,
    msg_id: u64,
    index: u16,
    total: u16,
    frag_bytes: usize,
) -> (Seq<Option<Assembly>>, nat, PeerEvent) {
    if total == 0 || index >= total || total > max_fragments {
        (s, used, PeerEvent::MessageDropped)
    } else {
        let found = slot_of(s, msg_id);
        if found is None && free_slot(s) is None {
            (s, used, PeerEvent::MessageDropped)
        } else {
            let k = if found is Some {
                found->Some_0
            } else {
                free_slot(s)->Some_0
            };
            let a = if found is Some {
                s[k]->Some_0
            } else {
                Assembly {
                    msg_id,
                    total,
                    received: 0,
                    bytes: 0,
                    updated_ms: now_ms,
                    seen: Set::empty(),
                }
            };
            if found is Some && a.total != total {
                (s.update(k, None), (used - a.bytes) as nat, PeerEvent::MessageDropped)
            } else if a.seen.contains(index as int) {
                (s.update(k, Some(a)), used, PeerEvent::Duplicate)
            } else if a.bytes + frag_bytes > MAX_MESSAGE || used + frag_bytes > MEMORY_PER_PEER {
                (s.update(k, None), (used - a.bytes) as nat, PeerEvent::MessageDropped)
            } else {
                let b = Assembly {
                    received: (a.received + 1) as u16,
                    bytes: (a.bytes + frag_bytes) as usize,
                    updated_ms: now_ms,
                    seen: a.seen.insert(index as int),
                    ..a
                };
                if b.received >= b.total {
                    (s.update(k, None), (used + frag_bytes - b.bytes) as nat, PeerEvent::Complete)
                } else {
                    (s.update(k, Some(b)), (used + frag_bytes) as nat, PeerEvent::Partial)
                }
            }
        }
    }
}

/// Per-peer reassembly state over at most `MAX_CONTEXTS` concurrent
/// messages of at most `MAX_FRAGMENTS` fragments each.
pub struct PeerReassembler<const MAX_CONTEXTS: usize, const MAX_FRAGMENTS: u16> {
    contexts: Vec<Context>,
    active: u8,
    bytes_used: usize,
}

impl<const MAX_CONTEXTS: usize, const MAX_FRAGMENTS: u16> PeerReassembler<MAX_CONTEXTS, MAX_FRAGMENTS> {
    /// The slots: an assembly in each context in use.
    pub closed spec fn slots(&self) -> Seq<Option<Assembly>> {
        self.contexts@.map_values(|c: Context| c.model())
    }

    pub closed spec fn used(&self) -> nat {
        self.bytes_used as nat
    }

    pub closed spec fn count(&self) -> nat {
        self.active as nat
    }

    /// The invariant: one slot per context; the active count and the bytes
    /// in use are those of the assemblies held; every assembly stays within
    /// its announced total and the message budget.
    pub closed spec fn wf(&self) -> bool {
        &&& MAX_CONTEXTS <= 255
        &&& MAX_FRAGMENTS <= 1024
        &&& self.contexts@.len() == MAX_CONTEXTS
        &&& self.active as nat == in_use_count(self.slots())
        &&& self.bytes_used as nat == held_bytes(self.slots())
        &&& self.bytes_used <= MEMORY_PER_PEER
        &&& forall|i: int|
            0 <= i < self.contexts@.len() && (#[trigger] self.contexts@[i]).in_use
                ==> self.contexts@[i].bytes <= MAX_MESSAGE && self.contexts@[i].received
                < self.contexts@[i].total && self.contexts@[i].total <= MAX_FRAGMENTS
    }

    pub fn new() -> (r: Self)
        requires
            MAX_CONTEXTS <= 255,
            MAX_FRAGMENTS <= 1024,
        ensures
            r.wf(),
            r.slots() == Seq::new(MAX_CONTEXTS as nat, |i: int| None::<Assembly>),
            r.used() == 0,
            r.count() == 0,
    {
        let mut contexts: Vec<Context> = Vec::new();
        let mut i: usize = 0;
        while i < MAX_CONTEXTS
            invariant
                i <= MAX_CONTEXTS,
                contexts@.len() == i,
                forall|k: int| 0 <= k < i ==> !(#[trigger] contexts@[k]).in_use,
            decreases MAX_CONTEXTS - i,
        {
            contexts.push(Context::new());
            i = i + 1;
        }
        let r = Self { contexts, active: 0, bytes_used: 0 };
        assert(r.slots() =~= Seq::new(MAX_CONTEXTS as nat, |i: int| None::<Assembly>));
        proof {
            lemma_none_slots(MAX_CONTEXTS as nat);
        }
        r
    }

    pub fn active_contexts(&self) -> (n: u8)
        ensures
            n == self.count(),
    {
        self.active
    }

    pub fn bytes_in_use(&self) -> (n: usize)
        ensures
            n == self.used(),
    {
        self.bytes_used
    }

    /// Frees context `idx` if it is in use.
    fn free_context(&mut self, idx: usize)
        requires
            old(self).wf(),
            idx < MAX_CONTEXTS,
        ensures
            final(self).wf(),
            final(self).slots() == old(self).slots().update(idx as int, None),
            final(self).used() + slot_bytes(old(self).slots()[idx as int]) == old(self).used(),
            final(self).count() + slot_used(old(self).slots()[idx as int]) == old(self).count(),
    {
        proof {
            lemma_held_update(self.slots(), idx as int, None);
            lemma_held_bound(self.slots(), idx as int);
        }
        if self.contexts[idx].in_use {
            let mut c = self.contexts[idx];
            self.bytes_used = self.bytes_used.saturating_sub(c.bytes);
            c.in_use = false;
            self.contexts.set(idx, c);
            self.active = self.active - 1;
        }
        assert(self.slots() =~= old(self).slots().update(idx as int, None));
    }

    fn find_msg(&self, msg_id: u64) -> (r: Option<usize>)
        requires
            self.wf(),
        ensures
            match slot_of(self.slots(), msg_id) {
                Some(k) => r == Some(k as usize),
                None => r is None,
            },
    {
        let mut i: usize = 0;
        while i < self.contexts.len()
            invariant
                self.wf(),
                i <= self.contexts@.len(),
                forall|k: int|
                    0 <= k < i ==> !(#[trigger] self.slots()[k] is Some && self.slots()[k]->Some_0.msg_id
                        == msg_id),
            decreases self.contexts@.len() - i,
        {
            if self.contexts[i].in_use && self.contexts[i].msg_id == msg_id {
                proof {
                    let s = self.slots();
                    assert(s[i as int] is Some && s[i as int]->Some_0.msg_id == msg_id);
                    let c = choose|x: int|
                        0 <= x < s.len() && #[trigger] s[x] is Some && s[x]->Some_0.msg_id == msg_id
                            && forall|k: int|
                            0 <= k < x ==> !(#[trigger] s[k] is Some && s[k]->Some_0.msg_id
                                == msg_id);
                    if c > i {
                    }
                }
                return Some(i);
            }
            assert(!(self.slots()[i as int] is Some && self.slots()[i as int]->Some_0.msg_id == msg_id));
            i = i + 1;
        }
        None
    }

    fn find_free(&self) -> (r: Option<usize>)
        requires
            self.wf(),
        ensures
            match free_slot(self.slots()) {
                Some(k) => r == Some(k as usize),
                None => r is None,
            },
    {
        let mut i: usize = 0;
        while i < self.contexts.len()
            invariant
                self.wf(),
                i <= self.contexts@.len(),
                forall|k: int| 0 <= k < i ==> #[trigger] self.slots()[k] is Some,
            decreases self.contexts@.len() - i,
        {
            if !self.contexts[i].in_use {
                proof {
                    let s = self.slots();
                    assert(s[i as int] is None);
                    let c = choose|x: int|
                        0 <= x < s.len() && #[trigger] s[x] is None && forall|k: int|
                            0 <= k < x ==> #[trigger] s[k] is Some;
                    if c > i {
                    }
                }
                return Some(i);
            }
            assert(self.slots()[i as int] is Some);
            i = i + 1;
        }
        None
    }

    /// Ingest one authenticated fragment. A breach returns MessageDropped
    /// and tears down the message's context; the session is unaffected.
    #[verifier::rlimit(40)]
    pub fn ingest(&mut self, now_ms: u64, msg_id: u64, index: u16, total: u16, frag_bytes: usize) -> (e: PeerEvent)
        requires
            old(self).wf(),
        ensures
            final(self).wf(),
            (final(self).slots(), final(self).used(), e) == spec_ingest(
                old(self).slots(),
                old(self).used(),
                MAX_FRAGMENTS,
                now_ms,
                msg_id,
                index,
                total,
                frag_bytes,
            ),
    {
        // Malformed: total == 0, index >= total, or total above the ceiling.
        if total == 0 || index >= total || total > MAX_FRAGMENTS {
            return PeerEvent::MessageDropped;
        }
        let ghost s0 = self.slots();
        let found = self.find_msg(msg_id);
        let creating = found.is_none();
        let idx = match found {
            Some(i) => i,
            None => match self.find_free() {
                Some(i) => i,
                None => return PeerEvent::MessageDropped,
            },
        };
        proof {
            lemma_held_bound(s0, idx as int);
        }
        let mut c = self.contexts[idx];
        if creating {
            c = Context {
                msg_id,
                total,
                received: 0,
                bytes: 0,
                updated_ms: now_ms,
                in_use: true,
                seen: [0;16],
            };
            proof {
                assert forall|i: int| 0 <= i < 1024 implies !c.has(i) by {
                    lemma_bit_zero((i % 64) as u64);
                }
                assert(c.model()->Some_0.seen =~= Set::<int>::empty());
            }
        } else if c.total != total {
            // A later fragment disagrees on the total: free and drop.
            self.free_context(idx);
            return PeerEvent::MessageDropped;
        }
        // Duplicate?
        let word = (index / 64) as usize;
        let sh = (index % 64) as u64;
        let bit = 1u64 << sh;
        proof {
            lemma_bit_test(c.seen@[word as int], sh);
            assert(c.has(index as int) == c.model()->Some_0.seen.contains(index as int));
        }
        if (c.seen[word] & bit) != 0 {
            if creating {
                assert(false);
            }
            return PeerEvent::Duplicate;
        }
        // The byte budget.
        if frag_bytes > MAX_MESSAGE - c.bytes || frag_bytes > MEMORY_PER_PEER - self.bytes_used {
            if !creating {
                self.free_context(idx);
            }
            return PeerEvent::MessageDropped;
        }
        // Accept.
        let ghost c0 = c;
        let prev_bytes = c.bytes;
        let w = c.seen[word] | bit;
        c.seen[word] = w;
        c.received = c.received + 1;
        c.bytes = c.bytes + frag_bytes;
        c.updated_ms = now_ms;
        proof {
            assert forall|i: int| 0 <= i < 1024 implies c.has(i) == (i == index || c0.has(i)) by {
                if i / 64 == word {
                    lemma_bit_set(c0.seen@[word as int], sh, (i % 64) as u64);
                } else {
                    assert(c.seen@[i / 64] == c0.seen@[i / 64]);
                }
            }
            assert(c.model()->Some_0.seen =~= c0.model()->Some_0.seen.insert(index as int));
        }
        let ghost before = self.slots();
        if c.received >= c.total {
            let mut done = c;
            done.in_use = false;
            proof {
                lemma_held_update(before, idx as int, c.model());
                lemma_count_bound(before.update(idx as int, c.model()));
            }
            if creating {
                self.active = self.active + 1;
            }
            self.contexts.set(idx, done);
            self.bytes_used = self.bytes_used - prev_bytes;
            assert(self.slots() =~= before.update(idx as int, None));
            proof {
                lemma_held_update(before, idx as int, None);
            }
            self.active = self.active - 1;
            PeerEvent::Complete
        } else {
            proof {
                lemma_held_update(before, idx as int, c.model());
                lemma_count_bound(before.update(idx as int, c.model()));
            }
            if creating {
                self.active = self.active + 1;
            }
            self.contexts.set(idx, c);
            self.bytes_used = self.bytes_used + frag_bytes;
            assert(self.slots() =~= before.update(idx as int, c.model()));
            PeerEvent::Partial
        }
    }

    /// Evict contexts whose last fragment is at least the timeout old
    /// (ages measured with wrapping subtraction).
    pub fn evict_expired(&mut self, now_ms: u64)
        requires
            old(self).wf(),
        ensures
            final(self).wf(),
            final(self).slots() == old(self).slots().map_values(
                |o: Option<Assembly>|
                    match o {
                        Some(a) => if vstd::wrapping::u64_specs::wrapping_sub(now_ms, a.updated_ms)
                            >= INCOMPLETE_TIMEOUT_MS {
                            None
                        } else {
                            Some(a)
                        },
                        None => None,
                    },
            ),
    {
        let ghost s0 = self.slots();
        let ghost f = |o: Option<Assembly>|
            match o {
                Some(a) => if vstd::wrapping::u64_specs::wrapping_sub(now_ms, a.updated_ms)
                    >= INCOMPLETE_TIMEOUT_MS {
                    None
                } else {
                    Some(a)
                },
                None => None,
            };
        let mut i: usize = 0;
        while i < MAX_CONTEXTS
            invariant
                self.wf(),
                i <= MAX_CONTEXTS,
                s0.len() == MAX_CONTEXTS,
                f == (|o: Option<Assembly>|
                    match o {
                        Some(a) => if vstd::wrapping::u64_specs::wrapping_sub(now_ms, a.updated_ms)
                            >= INCOMPLETE_TIMEOUT_MS {
                            None
                        } else {
                            Some(a)
                        },
                        None => None,
                    }),
                forall|k: int| 0 <= k < i ==> #[trigger] self.slots()[k] == f(s0[k]),
                forall|k: int| i <= k < MAX_CONTEXTS ==> #[trigger] self.slots()[k] == s0[k],
            decreases MAX_CONTEXTS - i,
        {
            if self.contexts[i].in_use {
                let age = now_ms.wrapping_sub(self.contexts[i].updated_ms);
                if age >= INCOMPLETE_TIMEOUT_MS {
                    self.free_context(i);
                }
            }
            i = i + 1;
        }
        assert(self.slots() =~= s0.map_values(f));
    }

    /// In every state `new`, `ingest` and `evict_expired` reach: the active
    /// count is the number of messages in progress, at most MAX_CONTEXTS;
    /// the bytes in use are the sum of their accepted fragment bytes, at
    /// most MEMORY_PER_PEER; each message holds at most MAX_MESSAGE bytes
    /// and fewer fragments than it announced, which is at most
    /// MAX_FRAGMENTS.
    pub proof fn lemma_accounting(&self)
        requires
            self.wf(),
        ensures
            self.slots().len() == MAX_CONTEXTS,
            self.count() == in_use_count(self.slots()),
            self.count() <= MAX_CONTEXTS,
            self.used() == held_bytes(self.slots()),
            self.used() <= MEMORY_PER_PEER,
            forall|i: int|
                0 <= i < self.slots().len() && #[trigger] self.slots()[i] is Some ==> {
                    let a = self.slots()[i]->Some_0;
                    &&& a.bytes <= MAX_MESSAGE
                    &&& a.received < a.total
                    &&& a.total <= MAX_FRAGMENTS
                },
    {
        lemma_count_bound(self.slots());
        assert forall|i: int|
            0 <= i < self.slots().len() && #[trigger] self.slots()[i] is Some implies {
                let a = self.slots()[i]->Some_0;
                &&& a.bytes <= MAX_MESSAGE
                &&& a.received < a.total
                &&& a.total <= MAX_FRAGMENTS
            } by {
            assert(self.contexts@[i].in_use);
        }
    }
}

/// One ingest of a well-formed fragment of a message in progress changes
/// that message's slot alone: a duplicate changes nothing, and a drop or a
/// completion frees the slot, releasing its bytes.
pub proof fn lemma_ingest_effects(
    s: Seq<Option<Assembly>>,
    used: nat,
    max_fragments: u16,
    now_ms: u64,
    msg_id: u64,
    index: u16,
    total: u16,
    frag_bytes: usize,
)
    requires
        0 < total <= max_fragments,
        index < total,
        slot_of(s, msg_id) is Some,
    ensures
        ({
            let k = slot_of(s, msg_id)->Some_0;
            let (s2, u2, e) = spec_ingest(s, used, max_fragments, now_ms, msg_id, index, total, frag_bytes);
            &&& forall|j: int| 0 <= j < s.len() && j != k ==> s2[j] == s[j]
            &&& s2.len() == s.len()
            &&& e == PeerEvent::Duplicate ==> s2 == s && u2 == used
            &&& (e == PeerEvent::MessageDropped || e == PeerEvent::Complete) ==> s2 == s.update(k, None)
        }),
{
    let k = slot_of(s, msg_id)->Some_0;
    let (s2, u2, e) = spec_ingest(s, used, max_fragments, now_ms, msg_id, index, total, frag_bytes);
    assert(0 <= k < s.len() && s[k] is Some);
    if e == PeerEvent::Duplicate {
        assert(s.update(k, Some(s[k]->Some_0)) =~= s);
    }
}

proof fn lemma_none_slots(n: nat)
    ensures
        in_use_count(Seq::new(n, |i: int| None::<Assembly>)) == 0,
        held_bytes(Seq::new(n, |i: int| None::<Assembly>)) == 0,
    decreases n,
{
    if n > 0 {
        lemma_none_slots((n - 1) as nat);
        assert(Seq::new(n, |i: int| None::<Assembly>).drop_last() =~= Seq::new(
            (n - 1) as nat,
            |i: int| None::<Assembly>,
        ));
    }
}

// --- node capacity ---------------------------------------------------------------

pub struct NodeCapacity {
    sessions: u16,
    bytes: usize,
}

impl NodeCapacity {
    pub closed spec fn session_count(&self) -> u16 {
        self.sessions
    }

    pub closed spec fn byte_count(&self) -> usize {
        self.bytes
    }

    pub fn new() -> (n: Self)
        ensures
            n.session_count() == 0,
            n.byte_count() == 0,
    {
        Self { sessions: 0, bytes: 0 }
    }

    /// Admits a new session unless the node is at its session limit.
    pub fn try_admit_session(&mut self) -> (e: NodeEvent)
        ensures
            old(self).session_count() >= SESSIONS_PER_NODE ==> e == NodeEvent::Refused
                && final(self).session_count() == old(self).session_count(),
            old(self).session_count() < SESSIONS_PER_NODE ==> e == NodeEvent::Admitted
                && final(self).session_count() == old(self).session_count() + 1,
            final(self).byte_count() == old(self).byte_count(),
    {
        if self.sessions >= SESSIONS_PER_NODE {
            return NodeEvent::Refused;
        }
        self.sessions = self.sessions + 1;
        NodeEvent::Admitted
    }

    pub fn release_session(&mut self)
        ensures
            final(self).session_count() == if old(self).session_count() == 0 {
                0
            } else {
                old(self).session_count() - 1
            },
            final(self).byte_count() == old(self).byte_count(),
    {
        self.sessions = self.sessions.saturating_sub(1);
    }

    pub fn within_memory(&self, additional: usize) -> (ok: bool)
        ensures
            ok == (self.byte_count() + additional <= MEMORY_PER_NODE),
    {
        additional <= MEMORY_PER_NODE && self.bytes <= MEMORY_PER_NODE - additional
    }

    pub fn add_bytes(&mut self, n: usize)
        ensures
            final(self).byte_count() == if old(self).byte_count() + n > usize::MAX {
                usize::MAX as int
            } else {
                old(self).byte_count() + n
            },
            final(self).session_count() == old(self).session_count(),
    {
        self.bytes = self.bytes.saturating_add(n);
    }

    pub fn release_bytes(&mut self, n: usize)
        ensures
            final(self).byte_count() == if old(self).byte_count() < n {
                0
            } else {
                old(self).byte_count() - n
            },
            final(self).session_count() == old(self).session_count(),
    {
        self.bytes = self.bytes.saturating_sub(n);
    }

    pub fn sessions(&self) -> (n: u16)
        ensures
            n == self.session_count(),
    {
        self.sessions
    }

    pub fn bytes(&self) -> (n: usize)
        ensures
            n == self.byte_count(),
    {
        self.bytes
    }
}

} // verus!
