//! Transport sessions after the handshake: key rotation with the old keys
//! cleared, a 64-counter replay window, and the type-4 framing.
//!
//! A transport packet is a 16-byte header (type 4, three zero bytes, the
//! peer's index, the send counter, both big-endian) followed by the
//! ChaCha20-Poly1305 ciphertext of the payload with the header as
//! associated data and the counter as nonce.

use vstd::prelude::*;
use crate::codec::{copy_prefix, push_u32be, push_u64be, u32_bytes, u64_bytes, write_at};
use crate::crypto;
use super::noise::{nonce_spec, transport_nonce, zeros};

verus! {

pub const MAX_SESSIONS: usize = 512;
pub const REKEY_AFTER_MS: u64 = 120_000;
pub const REKEY_AFTER_MESSAGES: u64 = 0x1_0000_0000_0000;
pub const HEADER_SIZE: usize = 16;
pub const MSG_TYPE_TRANSPORT: u8 = 4;

#[derive(Debug, Clone, Copy, PartialEq, Eq, Structural)]
pub enum TransportError {
    RekeyRequired,
    DecryptFailed,
    Replay,
    SlotFull,
    OutOfRange,
    NotBound,
}

// --- the replay window -----------------------------------------------------

/// The window's model: whether any counter has been recorded, the highest
/// one, and the mask whose bit `d` stands for counter `highest - d`.
pub struct WindowModel {
    pub started: bool,
    pub highest: u64,
    pub mask: u64,
}

/// The window that has seen nothing.
pub open spec fn empty_window() -> WindowModel {
    WindowModel { started: false, highest: 0, mask: 0 }
}

/// One window step: whether `counter` is fresh, and the window afterwards.
pub open spec fn window_check(w: WindowModel, counter: u64) -> (bool, WindowModel) {
    if !w.started {
        (true, WindowModel { started: true, highest: counter, mask: 1 })
    } else if counter > w.highest {
        let shift = (counter - w.highest) as u64;
        (true, WindowModel {
            started: true,
            highest: counter,
            mask: (if shift >= 64 { 0u64 } else { w.mask << shift }) | 1u64,
        })
    } else if counter == w.highest {
        (false, w)
    } else {
        let behind = (w.highest - counter) as u64;
        if behind >= 64 {
            (false, w)
        } else if w.mask & (1u64 << behind) != 0 {
            (false, w)
        } else {
            (true, WindowModel { mask: w.mask | (1u64 << behind), ..w })
        }
    }
}

/// Whether the window records `counter` as seen.
pub open spec fn window_seen(w: WindowModel, counter: u64) -> bool {
    &&& w.started
    &&& counter <= w.highest
    &&& w.highest - counter < 64
    &&& w.mask & (1u64 << ((w.highest - counter) as u64)) != 0
}

#[derive(Clone, Copy)]
pub struct ReplayWindow {
    started: bool,
    highest: u64,
    mask: u64,
}

impl View for ReplayWindow {
    type V = WindowModel;

    closed spec fn view(&self) -> WindowModel {
        WindowModel { started: self.started, highest: self.highest, mask: self.mask }
    }
}

impl ReplayWindow {
    pub fn new() -> (w: Self)
        ensures
            w@ == empty_window(),
    {
        Self { started: false, highest: 0, mask: 0 }
    }

    /// Whether `counter` is fresh; a fresh counter is recorded.
    pub fn check(&mut self, counter: u64) -> (fresh: bool)
        ensures
            (fresh, final(self)@) == window_check(old(self)@, counter),
    {
        if !self.started {
            self.started = true;
            self.highest = counter;
            self.mask = 1;
            return true;
        }
        if counter > self.highest {
            let shift = counter - self.highest;
            if shift >= 64 {
                self.mask = 0;
            } else {
                self.mask = self.mask << shift;
            }
            self.mask = self.mask | 1;
            self.highest = counter;
            return true;
        }
        if counter == self.highest {
            return false;
        }
        let behind = self.highest - counter;
        if behind >= 64 {
            return false;
        }
        let bit = 1u64 << behind;
        if (self.mask & bit) != 0 {
            return false;
        }
        self.mask = self.mask | bit;
        true
    }

    pub fn zero(&mut self)
        ensures
            final(self)@ == empty_window(),
    {
        self.started = false;
        self.highest = 0;
        self.mask = 0;
    }
}

/// A counter the window has recorded is refused.
pub proof fn lemma_window_refuses_seen(w: WindowModel, counter: u64)
    requires
        window_seen(w, counter),
    ensures
        !window_check(w, counter).0,
{
}

/// A counter the window accepts is recorded.
pub proof fn lemma_window_records_fresh(w: WindowModel, counter: u64)
    requires
        window_check(w, counter).0,
    ensures
        window_seen(window_check(w, counter).1, counter),
{
    let mask = w.mask;
    if !w.started {
        assert(1u64 & (1u64 << 0u64) != 0) by (bit_vector);
    } else if counter > w.highest {
        let shift = (counter - w.highest) as u64;
        let y: u64 = if shift >= 64 { 0u64 } else { mask << shift };
        assert((y | 1u64) & (1u64 << 0u64) != 0) by (bit_vector);
    } else {
        let behind = (w.highest - counter) as u64;
        assert(behind < 64);
        assert((mask | (1u64 << behind)) & (1u64 << behind) != 0) by (bit_vector)
            requires
                behind < 64,
        ;
    }
}

// --- the two directions ------------------------------------------------------

/// The sending direction: a key and the next counter.
#[derive(Clone)]
pub struct CipherState {
    pub key: [u8; 32],
    pub counter: u64,
}

impl CipherState {
    pub fn new() -> (c: Self)
        ensures
            c.key@ == zeros(32),
            c.counter == 0,
    {
        let key: [u8; 32] = [0u8; 32];
        assert(key@ =~= zeros(32)) by {
            assert(forall|i: int| 0 <= i < 32 ==> key@[i] == 0u8);
        }
        Self { key, counter: 0 }
    }

    /// Seals `plaintext` under the key and the counter as nonce, with `ad`
    /// as associated data, into the front of `out`, and advances the
    /// counter. Refused once the counter reaches the rekey bound, when `out`
    /// is too short, and when the AEAD refuses the length.
    pub fn seal(&mut self, out: &mut [u8], plaintext: &[u8], ad: &[u8]) -> (r: Result<(), TransportError>)
        requires
            plaintext@.len() + 16 <= usize::MAX,
        ensures
            old(self).counter >= REKEY_AFTER_MESSAGES ==> r == Err::<(), TransportError>(TransportError::RekeyRequired),
            old(self).counter < REKEY_AFTER_MESSAGES && old(out)@.len() < plaintext@.len() + 16 ==> r
                == Err::<(), TransportError>(TransportError::OutOfRange),
            old(self).counter < REKEY_AFTER_MESSAGES && old(out)@.len() >= plaintext@.len() + 16
                && plaintext@.len() / 64 >= 0xffff_ffff ==> r == Err::<(), TransportError>(
                TransportError::DecryptFailed,
            ),
            r is Err ==> *final(self) == *old(self) && final(out)@ == old(out)@,
            r is Ok ==> {
                let c = crypto::aead_seal_spec(old(self).key@, nonce_spec(old(self).counter), ad@, plaintext@);
                &&& c.len() == plaintext@.len() + 16
                &&& final(out)@ == c + old(out)@.subrange(c.len() as int, old(out)@.len() as int)
                &&& final(self).key == old(self).key
                &&& final(self).counter == old(self).counter + 1
            },
            old(self).counter < REKEY_AFTER_MESSAGES && old(out)@.len() >= plaintext@.len() + 16
                && plaintext@.len() / 64 < 0xffff_ffff ==> r is Ok,
    {
        if self.counter >= REKEY_AFTER_MESSAGES {
            return Err(TransportError::RekeyRequired);
        }
        if out.len() < plaintext.len() + 16 {
            return Err(TransportError::OutOfRange);
        }
        let nonce = transport_nonce(self.counter);
        match crypto::aead_seal(&self.key, &nonce, ad, plaintext) {
            Some(ct) => {
                copy_prefix(out, ct.as_slice());
                self.counter = self.counter + 1;
                Ok(())
            },
            None => Err(TransportError::DecryptFailed),
        }
    }

    pub fn zero(&mut self)
        ensures
            final(self).key@ == zeros(32),
            final(self).counter == 0,
    {
        let key: [u8; 32] = [0u8; 32];
        assert(key@ =~= zeros(32)) by {
            assert(forall|i: int| 0 <= i < 32 ==> key@[i] == 0u8);
        }
        self.key = key;
        self.counter = 0;
    }
}

/// The receiving direction: a key and the replay window.
#[derive(Clone)]
pub struct RecvState {
    pub key: [u8; 32],
    pub window: ReplayWindow,
}

impl RecvState {
    pub fn new() -> (s: Self)
        ensures
            s.key@ == zeros(32),
            s.window@ == empty_window(),
    {
        let key: [u8; 32] = [0u8; 32];
        assert(key@ =~= zeros(32)) by {
            assert(forall|i: int| 0 <= i < 32 ==> key@[i] == 0u8);
        }
        Self { key, window: ReplayWindow::new() }
    }

    /// Opens `ct` (ciphertext and tag) sealed under the key with `counter`
    /// as nonce and `ad` as associated data. The tag is checked before the
    /// replay window, and the window records the counter only for a packet
    /// that authenticates. Returns the plaintext length; the plaintext goes
    /// to the front of `out`.
    pub fn open(&mut self, out: &mut [u8], ad: &[u8], ct: &[u8], counter: u64) -> (r: Result<usize, TransportError>)
        ensures
            ct@.len() < 16 ==> r == Err::<usize, TransportError>(TransportError::DecryptFailed),
            ct@.len() >= 16 && old(out)@.len() < ct@.len() - 16 ==> r == Err::<usize, TransportError>(
                TransportError::OutOfRange,
            ),
            ct@.len() >= 16 && old(out)@.len() >= ct@.len() - 16 ==> match crypto::aead_open_spec(
                old(self).key@,
                nonce_spec(counter),
                ad@,
                ct@,
            ) {
                None => r == Err::<usize, TransportError>(TransportError::DecryptFailed),
                Some(p) => {
                    let (fresh, w2) = window_check(old(self).window@, counter);
                    if fresh {
                        &&& r == Ok::<usize, TransportError>((ct@.len() - 16) as usize)
                        &&& p.len() == ct@.len() - 16
                        &&& final(out)@ == p + old(out)@.subrange(p.len() as int, old(out)@.len() as int)
                        &&& final(self).key == old(self).key
                        &&& final(self).window@ == w2
                    } else {
                        r == Err::<usize, TransportError>(TransportError::Replay)
                    }
                },
            },
            r is Err ==> final(self).key == old(self).key && final(self).window@ == old(self).window@
                && final(out)@ == old(out)@,
    {
        if ct.len() < 16 {
            return Err(TransportError::DecryptFailed);
        }
        let pt_len = ct.len() - 16;
        if out.len() < pt_len {
            return Err(TransportError::OutOfRange);
        }
        let nonce = transport_nonce(counter);
        let opened = crypto::aead_open(&self.key, &nonce, ad, ct);
        let pt = match opened {
            Some(p) => p,
            None => return Err(TransportError::DecryptFailed),
        };
        if !self.window.check(counter) {
            return Err(TransportError::Replay);
        }
        copy_prefix(out, pt.as_slice());
        Ok(pt_len)
    }

    pub fn zero(&mut self)
        ensures
            final(self).key@ == zeros(32),
            final(self).window@ == empty_window(),
    {
        let key: [u8; 32] = [0u8; 32];
        assert(key@ =~= zeros(32)) by {
            assert(forall|i: int| 0 <= i < 32 ==> key@[i] == 0u8);
        }
        self.key = key;
        self.window.zero();
    }
}

// --- a session -------------------------------------------------------------

/// The 16-byte header of a transport packet.
pub open spec fn transport_header(peer_index: u32, counter: u64) -> Seq<u8> {
    seq![MSG_TYPE_TRANSPORT, 0u8, 0u8, 0u8] + u32_bytes(peer_index) + u64_bytes(counter)
}

#[derive(Clone)]
pub struct Session {
    pub local_index: u32,
    pub peer_index: u32,
    pub send: CipherState,
    pub recv: RecvState,
    pub handshake_hash: [u8; 32],
    pub key_epoch_ms: u64,
    pub bound: bool,
    pub in_use: bool,
}

impl Session {
    pub fn new() -> (s: Self)
        ensures
            s.local_index == 0,
            s.peer_index == 0,
            s.send.key@ == zeros(32),
            s.send.counter == 0,
            s.recv.key@ == zeros(32),
            s.recv.window@ == empty_window(),
            s.handshake_hash@ == zeros(32),
            s.key_epoch_ms == 0,
            !s.bound,
            !s.in_use,
    {
        let hh: [u8; 32] = [0u8; 32];
        assert(hh@ =~= zeros(32)) by {
            assert(forall|i: int| 0 <= i < 32 ==> hh@[i] == 0u8);
        }
        Self {
            local_index: 0,
            peer_index: 0,
            send: CipherState::new(),
            recv: RecvState::new(),
            handshake_hash: hh,
            key_epoch_ms: 0,
            bound: false,
            in_use: false,
        }
    }

    /// Whether the keys are due for rotation: the send counter reached its
    /// bound, or the keys are `REKEY_AFTER_MS` old.
    pub fn due_for_rekey(&self, now_ms: u64) -> (due: bool)
        requires
            self.key_epoch_ms + REKEY_AFTER_MS <= u64::MAX,
        ensures
            due == (self.send.counter >= REKEY_AFTER_MESSAGES || now_ms >= self.key_epoch_ms
                + REKEY_AFTER_MS),
    {
        self.send.counter >= REKEY_AFTER_MESSAGES || now_ms >= self.key_epoch_ms + REKEY_AFTER_MS
    }

    /// Frames and seals `plaintext` into `out`: the header, then the sealed
    /// payload with the header as associated data. Returns the packet
    /// length.
    pub fn seal(&mut self, out: &mut [u8], plaintext: &[u8]) -> (r: Result<usize, TransportError>)
        requires
            plaintext@.len() + 32 <= usize::MAX,
        ensures
            old(out)@.len() < plaintext@.len() + 32 ==> r == Err::<usize, TransportError>(TransportError::OutOfRange),
            old(out)@.len() >= plaintext@.len() + 32 && old(self).send.counter >= REKEY_AFTER_MESSAGES ==> r
                == Err::<usize, TransportError>(TransportError::RekeyRequired),
            old(out)@.len() >= plaintext@.len() + 32 && old(self).send.counter < REKEY_AFTER_MESSAGES
                && plaintext@.len() / 64 < 0xffff_ffff ==> r is Ok,
            r is Err ==> *final(self) == *old(self) && final(out)@ == old(out)@,
            r is Ok ==> {
                let header = transport_header(old(self).peer_index, old(self).send.counter);
                let c = crypto::aead_seal_spec(old(self).send.key@, nonce_spec(old(self).send.counter), header, plaintext@);
                &&& r == Ok::<usize, TransportError>((plaintext@.len() + 32) as usize)
                &&& c.len() == plaintext@.len() + 16
                &&& final(out)@ == header + c + old(out)@.subrange(plaintext@.len() + 32int, old(out)@.len() as int)
                &&& final(self).send.counter == old(self).send.counter + 1
                &&& final(self).send.key == old(self).send.key
                &&& final(self).recv == old(self).recv
                &&& final(self).peer_index == old(self).peer_index
            },
    {
        let total = HEADER_SIZE + plaintext.len() + 16;
        if out.len() < total {
            return Err(TransportError::OutOfRange);
        }
        let mut header: Vec<u8> = vec![MSG_TYPE_TRANSPORT, 0u8, 0u8, 0u8];
        push_u32be(&mut header, self.peer_index);
        push_u64be(&mut header, self.send.counter);
        assert(header@ =~= transport_header(self.peer_index, self.send.counter));
        let mut body: Vec<u8> = Vec::new();
        let mut i: usize = 0;
        while i < plaintext.len() + 16
            invariant
                body@.len() == i,
                i <= plaintext@.len() + 16,
                plaintext@.len() + 32 <= usize::MAX,
            decreases plaintext@.len() + 16 - i,
        {
            body.push(0);
            i = i + 1;
        }
        self.send.seal(body.as_mut_slice(), plaintext, header.as_slice())?;
        write_at(out, HEADER_SIZE, body.as_slice());
        copy_prefix(out, header.as_slice());
        assert(out@ =~= transport_header(old(self).peer_index, old(self).send.counter)
            + body@ + old(out)@.subrange(plaintext@.len() + 32int, old(out)@.len() as int));
        Ok(total)
    }

    /// Opens a transport packet: the header (as associated data) and the
    /// sealed payload, with `hdr_counter` as the nonce.
    pub fn open(&mut self, packet: &[u8], hdr_counter: u64, out: &mut [u8]) -> (r: Result<usize, TransportError>)
        ensures
            packet@.len() < HEADER_SIZE ==> r == Err::<usize, TransportError>(TransportError::OutOfRange),
            packet@.len() >= HEADER_SIZE ==> {
                let ad = packet@.subrange(0, 16);
                let ct = packet@.subrange(16, packet@.len() as int);
                &&& ct.len() < 16 ==> r == Err::<usize, TransportError>(TransportError::DecryptFailed)
                &&& ct.len() >= 16 && old(out)@.len() < ct.len() - 16 ==> r == Err::<usize, TransportError>(
                    TransportError::OutOfRange,
                )
                &&& ct.len() >= 16 && old(out)@.len() >= ct.len() - 16 ==> match crypto::aead_open_spec(
                    old(self).recv.key@,
                    nonce_spec(hdr_counter),
                    ad,
                    ct,
                ) {
                    None => r == Err::<usize, TransportError>(TransportError::DecryptFailed),
                    Some(p) => {
                        let (fresh, w2) = window_check(old(self).recv.window@, hdr_counter);
                        if fresh {
                            &&& r == Ok::<usize, TransportError>((ct.len() - 16) as usize)
                            &&& p.len() == ct.len() - 16
                            &&& final(out)@ == p + old(out)@.subrange(p.len() as int, old(out)@.len() as int)
                            &&& final(self).recv.window@ == w2
                        } else {
                            r == Err::<usize, TransportError>(TransportError::Replay)
                        }
                    },
                }
            },
            final(self).recv.key == old(self).recv.key,
            final(self).send == old(self).send,
            final(self).peer_index == old(self).peer_index,
            final(self).local_index == old(self).local_index,
            final(self).in_use == old(self).in_use,
            final(self).bound == old(self).bound,
            r is Err ==> final(self).recv.window@ == old(self).recv.window@ && final(out)@ == old(out)@,
    {
        if packet.len() < HEADER_SIZE {
            return Err(TransportError::OutOfRange);
        }
        self.recv.open(out, &packet[0..HEADER_SIZE], &packet[HEADER_SIZE..packet.len()], hdr_counter)
    }

    /// Installs fresh keys: both directions are cleared first (counter and
    /// window restart), then the new keys, transcript hash and epoch.
    pub fn rotate(&mut self, send_key: [u8; 32], recv_key: [u8; 32], handshake_hash: [u8; 32], now_ms: u64)
        ensures
            final(self).send.key == send_key,
            final(self).send.counter == 0,
            final(self).recv.key == recv_key,
            final(self).recv.window@ == empty_window(),
            final(self).handshake_hash == handshake_hash,
            final(self).key_epoch_ms == now_ms,
            final(self).local_index == old(self).local_index,
            final(self).peer_index == old(self).peer_index,
            final(self).bound == old(self).bound,
            final(self).in_use == old(self).in_use,
    {
        self.send.zero();
        self.recv.zero();
        self.send.key = send_key;
        self.recv.key = recv_key;
        self.handshake_hash = handshake_hash;
        self.key_epoch_ms = now_ms;
    }
}

// --- the table ---------------------------------------------------------------

pub struct SessionTable {
    slots: Vec<Session>,
}

impl SessionTable {
    pub closed spec fn sessions(&self) -> Seq<Session> {
        self.slots@
    }

    pub open spec fn wf(&self) -> bool {
        self.sessions().len() == MAX_SESSIONS
    }

    pub fn new() -> (t: Self)
        ensures
            t.wf(),
            forall|i: int| 0 <= i < MAX_SESSIONS ==> !(#[trigger] t.sessions()[i]).in_use,
    {
        let mut slots: Vec<Session> = Vec::new();
        while slots.len() < MAX_SESSIONS
            invariant
                slots@.len() <= MAX_SESSIONS,
                forall|i: int| 0 <= i < slots@.len() ==> !(#[trigger] slots@[i]).in_use,
            decreases MAX_SESSIONS - slots@.len(),
        {
            slots.push(Session::new());
        }
        SessionTable { slots }
    }

    /// The session in use at `local_index`, to read and change.
    pub fn lookup(&mut self, local_index: u32) -> (r: Option<&mut Session>)
        requires
            old(self).wf(),
        ensures
            match r {
                Some(s) => {
                    &&& local_index < MAX_SESSIONS
                    &&& old(self).sessions()[local_index as int].in_use
                    &&& *s == old(self).sessions()[local_index as int]
                    &&& final(self).sessions() == old(self).sessions().update(local_index as int, *final(s))
                },
                None => {
                    &&& !(local_index < MAX_SESSIONS && old(self).sessions()[local_index as int].in_use)
                    &&& final(self).sessions() == old(self).sessions()
                },
            },
    {
        if local_index as usize >= MAX_SESSIONS {
            return None;
        }
        let i = local_index as usize;
        if !self.slots[i].in_use {
            return None;
        }
        Some(&mut self.slots[i])
    }

    /// The session in use at `local_index`.
    pub fn lookup_immut(&self, local_index: u32) -> (r: Option<&Session>)
        requires
            self.wf(),
        ensures
            match r {
                Some(s) => local_index < MAX_SESSIONS && self.sessions()[local_index as int].in_use
                    && *s == self.sessions()[local_index as int],
                None => !(local_index < MAX_SESSIONS && self.sessions()[local_index as int].in_use),
            },
    {
        if local_index as usize >= MAX_SESSIONS {
            return None;
        }
        let slot = &self.slots[local_index as usize];
        if !slot.in_use {
            return None;
        }
        Some(slot)
    }

    /// Admits a session at `local_index`: fresh keys with the counter and
    /// window restarted, not yet bound. Refused out of range, or when the
    /// slot is in use.
    pub fn try_admit(
        &mut self,
        local_index: u32,
        peer_index: u32,
        send_key: [u8; 32],
        recv_key: [u8; 32],
        handshake_hash: [u8; 32],
        now_ms: u64,
    ) -> (r: Result<(), TransportError>)
        requires
            old(self).wf(),
        ensures
            final(self).wf(),
            local_index >= MAX_SESSIONS ==> r == Err::<(), TransportError>(TransportError::OutOfRange),
            local_index < MAX_SESSIONS && old(self).sessions()[local_index as int].in_use ==> r == Err::<
                (),
                TransportError,
            >(TransportError::SlotFull),
            r is Err ==> final(self).sessions() == old(self).sessions(),
            r is Ok ==> {
                &&& local_index < MAX_SESSIONS
                &&& !old(self).sessions()[local_index as int].in_use
                &&& forall|j: int| 0 <= j < MAX_SESSIONS && j != local_index ==> final(self).sessions()[j]
                    == old(self).sessions()[j]
                &&& {
                    let s = final(self).sessions()[local_index as int];
                    &&& s.local_index == local_index
                    &&& s.peer_index == peer_index
                    &&& s.send.key == send_key
                    &&& s.send.counter == 0
                    &&& s.recv.key == recv_key
                    &&& s.recv.window@ == empty_window()
                    &&& s.handshake_hash == handshake_hash
                    &&& s.key_epoch_ms == now_ms
                    &&& !s.bound
                    &&& s.in_use
                }
            },
            local_index < MAX_SESSIONS && !old(self).sessions()[local_index as int].in_use ==> r is Ok,
    {
        if local_index as usize >= MAX_SESSIONS {
            return Err(TransportError::OutOfRange);
        }
        let i = local_index as usize;
        if self.slots[i].in_use {
            return Err(TransportError::SlotFull);
        }
        let mut send = CipherState::new();
        send.key = send_key;
        let mut recv = RecvState::new();
        recv.key = recv_key;
        let s = Session {
            local_index,
            peer_index,
            send,
            recv,
            handshake_hash,
            key_epoch_ms: now_ms,
            bound: false,
            in_use: true,
        };
        self.slots.set(i, s);
        Ok(())
    }

    /// Releases the slot at `local_index`: keys, counter, window and
    /// transcript hash cleared, unbound, free. Out of range changes nothing.
    pub fn release(&mut self, local_index: u32)
        requires
            old(self).wf(),
        ensures
            final(self).wf(),
            local_index >= MAX_SESSIONS ==> final(self).sessions() == old(self).sessions(),
            local_index < MAX_SESSIONS ==> {
                &&& forall|j: int| 0 <= j < MAX_SESSIONS && j != local_index ==> final(self).sessions()[j]
                    == old(self).sessions()[j]
                &&& {
                    let s = final(self).sessions()[local_index as int];
                    let o = old(self).sessions()[local_index as int];
                    &&& s.send.key@ == zeros(32)
                    &&& s.send.counter == 0
                    &&& s.recv.key@ == zeros(32)
                    &&& s.recv.window@ == empty_window()
                    &&& s.handshake_hash@ == zeros(32)
                    &&& !s.bound
                    &&& !s.in_use
                    &&& s.local_index == o.local_index
                    &&& s.peer_index == o.peer_index
                    &&& s.key_epoch_ms == o.key_epoch_ms
                }
            },
    {
        if local_index as usize >= MAX_SESSIONS {
            return;
        }
        let i = local_index as usize;
        let hh: [u8; 32] = [0u8; 32];
        assert(hh@ =~= zeros(32)) by {
            assert(forall|k: int| 0 <= k < 32 ==> hh@[k] == 0u8);
        }
        self.slots[i].send.zero();
        self.slots[i].recv.zero();
        self.slots[i].handshake_hash = hh;
        self.slots[i].bound = false;
        self.slots[i].in_use = false;
    }
}

} // verus!
