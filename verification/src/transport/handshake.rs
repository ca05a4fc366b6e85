//! The live Noise_IK responder layer: one datagram in, at most one
//! committed session out.
//!
//! The session table is changed in exactly one place, the commit after the
//! responder has finalized; every failure returns before it, so a failed
//! handshake leaves no half-session state. The order inside
//! `process_datagram` is: type and length check, table capacity check, the
//! full Noise verification (mac1, then decryption), the response, the send
//! (an exact-length send or `SendFailed`), finalize, commit.

use vstd::prelude::*;
use crate::codec::copy_into;
use super::noise::{
    initiation_read_spec, public_of, response_spec, sym_init, sym_mix_hash, sym_split, zeros,
    KeyPair, Responder, SymModel, MSG1_SIZE, MSG2_SIZE,
};

verus! {

/// The responder's accept table holds this many sessions.
pub const MAX_SESSIONS: usize = 16;

/// Distinct refusals stay distinct.
#[derive(Debug, Clone, Copy, PartialEq, Eq, Structural)]
pub enum HandshakeError {
    NotInitiation,
    TableFull,
    Refused,
    SendFailed,
}

/// A committed session. `peer_static` is the initiator's static key as the
/// handshake recovered it; `created_ms` is when it was committed.
#[derive(Debug, Clone, Copy, PartialEq, Eq)]
pub struct Session {
    pub send_key: [u8; 32],
    pub recv_key: [u8; 32],
    pub handshake_hash: [u8; 32],
    pub peer_static: [u8; 32],
    pub created_ms: u64,
}

/// The first free slot, or the length when none is free.
pub open spec fn first_free_from(slots: Seq<Option<Session>>, i: int) -> int
    decreases slots.len() - i,
{
    if i >= slots.len() || i < 0 {
        slots.len() as int
    } else if slots[i] is None {
        i
    } else {
        first_free_from(slots, i + 1)
    }
}

pub open spec fn first_free(slots: Seq<Option<Session>>) -> int {
    first_free_from(slots, 0)
}

pub open spec fn any_free(slots: Seq<Option<Session>>) -> bool {
    exists|i: int| 0 <= i < slots.len() && #[trigger] slots[i] is None
}

proof fn lemma_first_free_from(slots: Seq<Option<Session>>, i: int)
    requires
        0 <= i <= slots.len(),
    ensures
        i <= first_free_from(slots, i) <= slots.len(),
        first_free_from(slots, i) < slots.len() ==> slots[first_free_from(slots, i)] is None,
        forall|j: int| i <= j < first_free_from(slots, i) ==> slots[j] is Some,
        (exists|j: int| i <= j < slots.len() && #[trigger] slots[j] is None) ==> first_free_from(slots, i)
            < slots.len(),
    decreases slots.len() - i,
{
    if i < slots.len() && slots[i] is Some {
        lemma_first_free_from(slots, i + 1);
        assert forall|j: int| i <= j < slots.len() && #[trigger] slots[j] is None implies i + 1 <= j by {
        }
    }
}

/// Whether a slot holds a session older than `timeout_ms` at `now_ms`
/// (the age saturates at zero).
pub open spec fn is_stale(s: Option<Session>, now_ms: u64, timeout_ms: u64) -> bool {
    match s {
        Some(x) => (if now_ms >= x.created_ms { now_ms - x.created_ms } else { 0 }) > timeout_ms,
        None => false,
    }
}

/// How many of the first `n` slots are stale.
pub open spec fn stale_count(slots: Seq<Option<Session>>, n: int, now_ms: u64, timeout_ms: u64) -> nat
    decreases n,
{
    if n <= 0 {
        0
    } else {
        stale_count(slots, n - 1, now_ms, timeout_ms) + if is_stale(slots[n - 1], now_ms, timeout_ms) {
            1nat
        } else {
            0nat
        }
    }
}

/// The accept table. Capacity is checked before any crypto work; the table
/// is changed only by the commit.
pub struct Table {
    pub slots: [Option<Session>; MAX_SESSIONS],
}

impl Default for Table {
    fn default() -> (t: Self)
        ensures
            forall|i: int| 0 <= i < MAX_SESSIONS ==> t.slots@[i] is None,
    {
        Self::new()
    }
}

impl Table {
    pub fn new() -> (t: Self)
        ensures
            forall|i: int| 0 <= i < MAX_SESSIONS ==> t.slots@[i] is None,
    {
        let slots: [Option<Session>; MAX_SESSIONS] = [None; 16];
        Table { slots }
    }

    pub fn has_free(&self) -> (b: bool)
        ensures
            b == any_free(self.slots@),
    {
        let mut i: usize = 0;
        while i < MAX_SESSIONS
            invariant
                i <= MAX_SESSIONS,
                self.slots@.len() == MAX_SESSIONS,
                forall|j: int| 0 <= j < i ==> self.slots@[j] is Some,
            decreases MAX_SESSIONS - i,
        {
            if self.slots[i].is_none() {
                assert(self.slots@[i as int] is None);
                return true;
            }
            i = i + 1;
        }
        false
    }

    fn first_free_index(&self) -> (i: usize)
        requires
            any_free(self.slots@),
        ensures
            i == first_free(self.slots@),
            i < MAX_SESSIONS,
    {
        proof {
            lemma_first_free_from(self.slots@, 0);
        }
        let mut i: usize = 0;
        while i < MAX_SESSIONS
            invariant
                i <= MAX_SESSIONS,
                self.slots@.len() == MAX_SESSIONS,
                first_free(self.slots@) < MAX_SESSIONS,
                forall|j: int| 0 <= j < i ==> self.slots@[j] is Some,
                first_free_from(self.slots@, 0) == first_free_from(self.slots@, i as int),
            decreases MAX_SESSIONS - i,
        {
            if self.slots[i].is_none() {
                return i;
            }
            i = i + 1;
        }
        proof {
            lemma_first_free_from(self.slots@, 0);
        }
        i
    }

    fn commit(&mut self, session: Session) -> (slot: usize)
        requires
            any_free(old(self).slots@),
        ensures
            slot == first_free(old(self).slots@),
            slot < MAX_SESSIONS,
            final(self).slots@ == old(self).slots@.update(slot as int, Some(session)),
    {
        let slot = self.first_free_index();
        self.slots[slot] = Some(session);
        slot
    }

    /// Frees one slot, clearing the session's keys first. An index out of
    /// range, or a slot already free, changes nothing.
    pub fn release_slot(&mut self, index: usize)
        ensures
            index >= MAX_SESSIONS ==> final(self).slots@ == old(self).slots@,
            index < MAX_SESSIONS ==> final(self).slots@ == old(self).slots@.update(index as int, None),
    {
        if index >= MAX_SESSIONS {
            return;
        }
        if self.slots[index].is_some() {
            let zero: [u8; 32] = [0u8; 32];
            self.slots[index] = Some(Session {
                send_key: zero,
                recv_key: zero,
                handshake_hash: zero,
                peer_static: zero,
                created_ms: 0,
            });
        }
        self.slots[index] = None;
    }

    /// Frees every slot whose session is older than `timeout_ms` at
    /// `now_ms`, and returns how many were freed.
    pub fn release_stale(&mut self, now_ms: u64, timeout_ms: u64) -> (released: usize)
        ensures
            forall|i: int|
                0 <= i < MAX_SESSIONS ==> final(self).slots@[i] == if is_stale(
                    old(self).slots@[i],
                    now_ms,
                    timeout_ms,
                ) {
                    None
                } else {
                    old(self).slots@[i]
                },
            released == stale_count(old(self).slots@, MAX_SESSIONS as int, now_ms, timeout_ms),
    {
        let mut released: usize = 0;
        let mut i: usize = 0;
        while i < MAX_SESSIONS
            invariant
                i <= MAX_SESSIONS,
                self.slots@.len() == MAX_SESSIONS,
                old(self).slots@.len() == MAX_SESSIONS,
                released <= i,
                released == stale_count(old(self).slots@, i as int, now_ms, timeout_ms),
                forall|j: int|
                    0 <= j < i ==> self.slots@[j] == if is_stale(old(self).slots@[j], now_ms, timeout_ms) {
                        None
                    } else {
                        old(self).slots@[j]
                    },
                forall|j: int| i <= j < MAX_SESSIONS ==> self.slots@[j] == old(self).slots@[j],
            decreases MAX_SESSIONS - i,
        {
            if let Some(s) = self.slots[i] {
                if now_ms.saturating_sub(s.created_ms) > timeout_ms {
                    self.slots[i] = None;
                    released = released + 1;
                }
            }
            i = i + 1;
        }
        released
    }
}

/// The transcript a responder with static secret `own_dh_secret` starts from.
pub open spec fn responder_start(own_dh_secret: Seq<u8>) -> SymModel {
    sym_mix_hash(sym_init(), public_of(own_dh_secret))
}

/// Whether `s` is the session a finished transcript `t` yields.
pub open spec fn session_from(s: Session, t: SymModel, peer_static: Seq<u8>, now_ms: u64) -> bool {
    &&& s.recv_key@ == sym_split(t).0
    &&& s.send_key@ == sym_split(t).1
    &&& s.handshake_hash@ == t.h
    &&& s.peer_static@ == peer_static
    &&& s.created_ms == now_ms
}

/// The response a responder in transcript `t1` sends with ephemeral secret
/// `e` to the initiation `msg1`, from slot `slot`.
pub open spec fn answer(
    t1: SymModel,
    e: Seq<u8>,
    msg1: Seq<u8>,
    si: Seq<u8>,
    slot: usize,
    idx: u32,
    own_sig_pub: Seq<u8>,
) -> Result<(Seq<u8>, SymModel), super::noise::Error> {
    response_spec(t1, e, msg1.subrange(8, 40), si, slot as u32, idx, own_sig_pub, zeros(16))
}

/// One datagram. `send` plays the socket: `Ok(())` is an exact-length
/// send, anything else is `SendFailed`, and a failed send stops before the
/// commit. `own_dh_secret` is the responder's X25519 static secret,
/// `own_sig_pub` its Ed25519 key (the mac1 key). The response carries a zero
/// mac2 cookie. Returns the committed slot.
pub fn process_datagram<F: FnOnce(&[u8]) -> Result<(), ()>>(
    table: &mut Table,
    datagram: &[u8],
    own_dh_secret: [u8; 32],
    own_sig_pub: &[u8; 32],
    send: F,
    now_ms: u64,
) -> (r: Result<usize, HandshakeError>)
    requires
        forall|b: &[u8]| call_requires(send, (b,)),
    ensures
        !(datagram@.len() == MSG1_SIZE && datagram@[0] == 1) ==> r == Err::<usize, HandshakeError>(
            HandshakeError::NotInitiation,
        ),
        datagram@.len() == MSG1_SIZE && datagram@[0] == 1 && !any_free(old(table).slots@) ==> r
            == Err::<usize, HandshakeError>(HandshakeError::TableFull),
        datagram@.len() == MSG1_SIZE && datagram@[0] == 1 && any_free(old(table).slots@) ==> match initiation_read_spec(
            responder_start(own_dh_secret@),
            own_dh_secret@,
            datagram@,
            own_sig_pub@,
        ) {
            Err(_) => r == Err::<usize, HandshakeError>(HandshakeError::Refused),
            Ok((idx, si, ts, t1)) => exists|e: Seq<u8>|
                #![trigger answer(t1, e, datagram@, si, first_free(old(table).slots@) as usize, idx, own_sig_pub@)]
                {
                    let slot = first_free(old(table).slots@) as usize;
                    &&& e.len() == 32
                    &&& match answer(t1, e, datagram@, si, slot, idx, own_sig_pub@) {
                        Err(_) => r == Err::<usize, HandshakeError>(HandshakeError::Refused),
                        Ok((msg2, t2)) => exists|b: &[u8], sent: Result<(), ()>|
                            #![trigger call_ensures(send, (b,), sent)]
                            {
                                &&& call_ensures(send, (b,), sent)
                                &&& b@ == msg2
                                &&& match sent {
                                    Ok(_) => {
                                        &&& r == Ok::<usize, HandshakeError>(slot)
                                        &&& final(table).slots@[slot as int] matches Some(s)
                                            && session_from(s, t2, si, now_ms)
                                        &&& forall|j: int|
                                            0 <= j < MAX_SESSIONS && j != slot ==> final(table).slots@[j]
                                                == old(table).slots@[j]
                                    },
                                    Err(_) => r == Err::<usize, HandshakeError>(HandshakeError::SendFailed),
                                }
                            },
                    }
                },
        },
        r is Err ==> final(table).slots@ == old(table).slots@,
{
    if datagram.len() != MSG1_SIZE || datagram[0] != 1 {
        return Err(HandshakeError::NotInitiation);
    }
    if !table.has_free() {
        return Err(HandshakeError::TableFull);
    }
    let mut responder = Responder::new(KeyPair::from_secret(own_dh_secret));
    let msg1: [u8; MSG1_SIZE] = copy_into(datagram);
    let info = match responder.read_initiation(&msg1, own_sig_pub) {
        Ok(info) => info,
        Err(_) => return Err(HandshakeError::Refused),
    };
    let ghost t1 = responder.transcript();
    let responder_index = table.first_free_index();
    let mut out: [u8; MSG2_SIZE] = [0u8; 92];
    let zero_cookie: [u8; 16] = [0u8; 16];
    assert(zero_cookie@ =~= zeros(16));
    proof {
        assert(msg1@ == datagram@);
        let rd = initiation_read_spec(responder_start(own_dh_secret@), own_dh_secret@, datagram@, own_sig_pub@);
        assert(rd is Ok);
        assert(rd->Ok_0.3 == t1);
        assert(rd->Ok_0.1 == info.initiator_static_pub@);
        assert(rd->Ok_0.0 == info.sender_index);
    }
    let wr = responder.write_response(&mut out, responder_index as u32, info.sender_index, own_sig_pub, &zero_cookie);
    let ghost e = responder.ephemeral().secret@;
    let ghost ans = answer(t1, e, datagram@, info.initiator_static_pub@, responder_index, info.sender_index, own_sig_pub@);
    if wr.is_err() {
        assert(ans is Err);
        return Err(HandshakeError::Refused);
    }
    let b = out.as_slice();
    let sent = send(b);
    match sent {
        Ok(()) => {},
        Err(()) => {
            assert(call_ensures(send, (b,), sent));
            assert(ans == Ok::<(Seq<u8>, SymModel), super::noise::Error>((b@, responder.transcript())));
            return Err(HandshakeError::SendFailed);
        },
    }
    let ghost t2 = responder.transcript();
    let result = responder.finalize();
    let session = Session {
        send_key: result.send_key,
        recv_key: result.recv_key,
        handshake_hash: result.handshake_hash,
        peer_static: info.initiator_static_pub,
        created_ms: now_ms,
    };
    let slot = table.commit(session);
    proof {
        assert(slot == responder_index);
        assert(ans == Ok::<(Seq<u8>, SymModel), super::noise::Error>((out@, t2)));
        assert(table.slots@[slot as int] == Some(session));
        assert(session_from(session, t2, info.initiator_static_pub@, now_ms));
        assert(call_ensures(send, (b,), sent));
    }
    Ok(slot)
}

} // verus!
