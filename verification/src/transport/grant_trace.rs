//! A conformance trace of the grant path (schema `bolina.grant-trace.v1`):
//! events appended to a fixed ring of 256, with a single overflow marker
//! once it is full.
//!
//! The event contract: `CommitConsumed11` is emitted only after the durable
//! append returned; `EffectStart` is the transition from approved to
//! executing; a refused effect never emits `MarkPublished` afterwards.

use vstd::prelude::*;

verus! {

#[derive(Debug, Clone, Copy, PartialEq, Eq, Structural)]
pub enum Tag {
    ReceiveIntent,
    RejectResourceConflict,
    BeginVerify,
    VerifyCheck,
    CommitConsumed11,
    EffectStart,
    EffectReturn,
    MarkPublished,
    RecordExecutingWitness,
    RecoverMarkPublished,
    EffectRefused,
    PublishOutcome,
    MarkPublishedFailed,
    PruneTempWritten,
    PruneTempSynced,
    PruneRenamed,
    PruneReopened,
    ExpirePending,
    TraceOverflow,
}

pub open spec fn tag_id(t: Tag) -> u8 {
    match t {
        Tag::ReceiveIntent => 1,
        Tag::RejectResourceConflict => 2,
        Tag::BeginVerify => 3,
        Tag::VerifyCheck => 4,
        Tag::CommitConsumed11 => 5,
        Tag::EffectStart => 6,
        Tag::EffectReturn => 7,
        Tag::MarkPublished => 8,
        Tag::RecordExecutingWitness => 9,
        Tag::RecoverMarkPublished => 10,
        Tag::EffectRefused => 11,
        Tag::PublishOutcome => 12,
        Tag::MarkPublishedFailed => 13,
        Tag::PruneTempWritten => 14,
        Tag::PruneTempSynced => 15,
        Tag::PruneRenamed => 16,
        Tag::PruneReopened => 17,
        Tag::ExpirePending => 18,
        Tag::TraceOverflow => 255,
    }
}

impl Tag {
    /// The tag's wire id, shared with the other implementations.
    pub fn id(self) -> (n: u8)
        ensures
            n == tag_id(self),
    {
        match self {
            Tag::ReceiveIntent => 1,
            Tag::RejectResourceConflict => 2,
            Tag::BeginVerify => 3,
            Tag::VerifyCheck => 4,
            Tag::CommitConsumed11 => 5,
            Tag::EffectStart => 6,
            Tag::EffectReturn => 7,
            Tag::MarkPublished => 8,
            Tag::RecordExecutingWitness => 9,
            Tag::RecoverMarkPublished => 10,
            Tag::EffectRefused => 11,
            Tag::PublishOutcome => 12,
            Tag::MarkPublishedFailed => 13,
            Tag::PruneTempWritten => 14,
            Tag::PruneTempSynced => 15,
            Tag::PruneRenamed => 16,
            Tag::PruneReopened => 17,
            Tag::ExpirePending => 18,
            Tag::TraceOverflow => 255,
        }
    }
}

pub const NO_PC: u8 = 0xFF;
pub const CAP: usize = 256;
pub const FNV_OFFSET: u64 = 0xcbf29ce484222325;
pub const FNV_PRIME: u64 = 0x100000001b3;

#[derive(Debug, Clone, Copy, PartialEq, Eq, Structural)]
pub struct Event {
    pub tag: Tag,
    pub pc: u8,
    pub id: u64,
    pub id2: u64,
    pub now_ms: u64,
    pub seq: u32,
}

/// FNV-1a over `s`, 64-bit.
pub open spec fn fnv1a(s: Seq<u8>) -> u64
    decreases s.len(),
{
    if s.len() == 0 {
        FNV_OFFSET
    } else {
        (fnv1a(s.drop_last()) ^ (s.last() as u64)).wrapping_mul(FNV_PRIME)
    }
}

/// The FNV-1a fingerprint of an id: the same on every run and build.
pub fn fingerprint(id: &[u8]) -> (h: u64)
    ensures
        h == fnv1a(id@),
{
    let mut h: u64 = FNV_OFFSET;
    let mut i: usize = 0;
    while i < id.len()
        invariant
            i <= id@.len(),
            h == fnv1a(id@.subrange(0, i as int)),
        decreases id@.len() - i,
    {
        assert(id@.subrange(0, i + 1).drop_last() =~= id@.subrange(0, i as int));
        h = (h ^ (id[i] as u64)).wrapping_mul(FNV_PRIME);
        i = i + 1;
    }
    assert(id@.subrange(0, id@.len() as int) =~= id@);
    h
}

/// The events of a trace: every recorded event carries its position as its
/// sequence number, and once the ring has overflowed its last entry is the
/// single overflow marker, numbered `CAP`.
pub struct TraceRing {
    events: Vec<Event>,
    len: usize,
    seq_next: u32,
    overflow_count: usize,
}

impl TraceRing {
    /// The recorded events, oldest first.
    pub closed spec fn log(&self) -> Seq<Event> {
        self.events@.subrange(0, self.len as int)
    }

    pub closed spec fn next_seq(&self) -> u32 {
        self.seq_next
    }

    pub closed spec fn overflowed(&self) -> nat {
        self.overflow_count as nat
    }

    pub closed spec fn wf(&self) -> bool {
        &&& self.events@.len() == CAP
        &&& self.len <= CAP
        &&& self.overflow_count > 0 ==> self.len == CAP
        &&& self.seq_next == self.len + if self.overflow_count > 0 { 1int } else { 0int }
        &&& forall|i: int|
            0 <= i < self.len ==> (#[trigger] self.events@[i]).seq == i || (self.overflow_count > 0 && i
                == CAP - 1)
        &&& self.overflow_count > 0 ==> self.events@[CAP - 1].tag == Tag::TraceOverflow
            && self.events@[CAP - 1].seq == CAP
    }

    pub proof fn lemma_wf(&self)
        requires
            self.wf(),
        ensures
            self.log().len() <= CAP,
            self.overflowed() > 0 ==> self.log().len() == CAP && self.log()[CAP - 1].tag == Tag::TraceOverflow
                && self.log()[CAP - 1].seq == CAP,
            forall|i: int|
                0 <= i < self.log().len() && !(self.overflowed() > 0 && i == CAP - 1) ==> (
                #[trigger] self.log()[i]).seq == i,
            self.next_seq() == self.log().len() + if self.overflowed() > 0 { 1int } else { 0int },
    {
    }

    pub fn new() -> (t: Self)
        ensures
            t.wf(),
            t.log() == Seq::<Event>::empty(),
            t.overflowed() == 0,
    {
        let blank = Event { tag: Tag::ReceiveIntent, pc: 0, id: 0, id2: 0, now_ms: 0, seq: 0 };
        let mut events: Vec<Event> = Vec::new();
        while events.len() < CAP
            invariant
                events@.len() <= CAP,
            decreases CAP - events@.len(),
        {
            events.push(blank);
        }
        let t = TraceRing { events, len: 0, seq_next: 0, overflow_count: 0 };
        assert(t.log() =~= Seq::<Event>::empty());
        t
    }

    /// Records an event with one id.
    pub fn emit(&mut self, tag: Tag, pc: u8, id_bytes: &[u8], now_ms: u64)
        requires
            old(self).wf(),
            old(self).log().len() == CAP ==> old(self).overflowed() < usize::MAX,
        ensures
            final(self).wf(),
            emitted(*old(self), *final(self), tag, pc, fnv1a(id_bytes@), 0, now_ms),
    {
        let empty: Vec<u8> = Vec::new();
        self.emit2(tag, pc, id_bytes, empty.as_slice(), now_ms);
    }

    /// Records an event with two ids; an empty second id is recorded as 0.
    /// Once the ring is full only the first overflow writes its marker, and
    /// every overflow is counted.
    pub fn emit2(&mut self, tag: Tag, pc: u8, id_bytes: &[u8], id2_bytes: &[u8], now_ms: u64)
        requires
            old(self).wf(),
            old(self).log().len() == CAP ==> old(self).overflowed() < usize::MAX,
        ensures
            final(self).wf(),
            emitted(
                *old(self),
                *final(self),
                tag,
                pc,
                fnv1a(id_bytes@),
                if id2_bytes@.len() == 0 { 0 } else { fnv1a(id2_bytes@) },
                now_ms,
            ),
    {
        if self.len == CAP {
            if self.overflow_count == 0 {
                let marker = Event {
                    tag: Tag::TraceOverflow,
                    pc: NO_PC,
                    id: 0,
                    id2: 0,
                    now_ms,
                    seq: self.seq_next,
                };
                self.events.set(CAP - 1, marker);
                self.seq_next = self.seq_next + 1;
                assert(self.log() =~= old(self).log().update(CAP - 1, marker));
            } else {
                assert(self.log() =~= old(self).log());
            }
            self.overflow_count = self.overflow_count + 1;
            return;
        }
        let id2: u64 = if id2_bytes.len() == 0 { 0 } else { fingerprint(id2_bytes) };
        let ev = Event { tag, pc, id: fingerprint(id_bytes), id2, now_ms, seq: self.seq_next };
        self.events.set(self.len, ev);
        self.seq_next = self.seq_next + 1;
        self.len = self.len + 1;
        assert(self.log() =~= old(self).log().push(ev));
    }

    /// The recorded events.
    pub fn snapshot(&self) -> (s: &[Event])
        requires
            self.wf(),
        ensures
            s@ == self.log(),
    {
        let all = self.events.as_slice();
        &all[0..self.len]
    }

    pub fn overflow(&self) -> (n: usize)
        ensures
            n == self.overflowed(),
    {
        self.overflow_count
    }

    /// Empties the trace; numbering restarts at zero.
    pub fn reset(&mut self)
        requires
            old(self).wf(),
        ensures
            final(self).wf(),
            final(self).log() == Seq::<Event>::empty(),
            final(self).overflowed() == 0,
    {
        self.len = 0;
        self.seq_next = 0;
        self.overflow_count = 0;
        assert(self.log() =~= Seq::<Event>::empty());
    }

    pub fn len(&self) -> (n: usize)
        requires
            self.wf(),
        ensures
            n == self.log().len(),
    {
        self.len
    }

    pub fn is_empty(&self) -> (b: bool)
        requires
            self.wf(),
        ensures
            b == (self.log().len() == 0),
    {
        self.len == 0
    }
}

/// What one emit does: below capacity the event is appended with the next
/// sequence number; at capacity the first overflow replaces the last event
/// with the overflow marker and every overflow is counted.
pub open spec fn emitted(
    before: TraceRing,
    after: TraceRing,
    tag: Tag,
    pc: u8,
    id: u64,
    id2: u64,
    now_ms: u64,
) -> bool {
    if before.log().len() < CAP {
        &&& after.log() == before.log().push(
            Event { tag, pc, id, id2, now_ms, seq: before.next_seq() },
        )
        &&& after.overflowed() == before.overflowed()
    } else if before.overflowed() == 0 {
        &&& after.log() == before.log().update(
            CAP - 1,
            Event { tag: Tag::TraceOverflow, pc: NO_PC, id: 0, id2: 0, now_ms, seq: before.next_seq() },
        )
        &&& after.overflowed() == 1
    } else {
        &&& after.log() == before.log()
        &&& after.overflowed() == before.overflowed() + 1
    }
}

} // verus!
