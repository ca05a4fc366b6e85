//! In-memory evidence ledger.
//!
//! A hash store of accepted envelopes, per-(sender, channel) replay
//! windows, the anchor table and the revocation table. No I/O; the durable
//! log is `state::ledger`. Admission checks the parents before the sequence
//! window and the insert.

use vstd::prelude::*;
use crate::codec::bytes_eq;
use crate::transport::replay::{spec_check, ReplayModel, ReplayWindow};

verus! {

pub const HASH_BYTES: usize = 32;
pub const LEN_SIG_PUBKEY: usize = 32;
pub const LEN_CHANNEL_ID: usize = 32;
pub const MAX_ENVELOPES: usize = 4096;
pub const MAX_SEQ_WINDOWS: usize = 256;
pub const MAX_ANCHORS: usize = 256;
pub const MAX_REVOCATIONS: usize = 64;

#[derive(Debug, Clone, Copy, PartialEq, Eq, Structural)]
pub enum LedgerError {
    StoreFull,
    SeqWindowsFull,
    AnchorsFull,
    RevocationsFull,
    /// Same (sender, channel, seq) with a different hash: equivocation.
    Divergence,
    /// Seq below the window, or already seen: a stale replay.
    WindowStale,
}

/// Why an envelope was not admitted.
#[derive(Debug, Clone, Copy, PartialEq, Eq, Structural)]
pub enum AdmitError {
    /// A parent hash is not in the store.
    MissingParent,
    Ledger(LedgerError),
}

/// An envelope that passed admission: newly stored, or the same envelope
/// again (same sender, channel, seq and hash), which changes nothing.
#[derive(Debug, Clone, Copy, PartialEq, Eq, Structural)]
pub enum Admission {
    Admitted,
    Duplicate,
}

/// An accepted envelope record, stored by hash, not plaintext.
#[derive(Clone)]
pub struct EnvelopeEntry {
    pub hash: [u8; HASH_BYTES],
    pub sender: [u8; LEN_SIG_PUBKEY],
    pub channel: [u8; LEN_CHANNEL_ID],
    pub seq: u64,
}

/// Per-(sender, channel) sequence window.
pub struct SeqWindow {
    pub sender: [u8; LEN_SIG_PUBKEY],
    pub channel: [u8; LEN_CHANNEL_ID],
    pub replay: ReplayWindow,
}

/// The first envelope of a pubkey is its anchor.
#[derive(Clone)]
pub struct AnchorEntry {
    pub pubkey: [u8; LEN_SIG_PUBKEY],
    pub hash: [u8; HASH_BYTES],
}

/// A revocation, with the revoked cert's expiry for pruning.
#[derive(Clone)]
pub struct RevocationEntry {
    pub pubkey: [u8; LEN_SIG_PUBKEY],
    pub revoke_hash: [u8; HASH_BYTES],
    pub cert_expiry_ms: u64,
}

impl EnvelopeEntry {
    /// Same sender, channel and seq.
    pub open spec fn same_slot(self, o: EnvelopeEntry) -> bool {
        self.sender@ == o.sender@ && self.channel@ == o.channel@ && self.seq == o.seq
    }
}

pub struct Ledger {
    envelopes: Vec<EnvelopeEntry>,
    seq_windows: Vec<SeqWindow>,
    anchors: Vec<AnchorEntry>,
    revocations: Vec<RevocationEntry>,
}

/// A window's identity and state.
pub open spec fn window_view(w: SeqWindow) -> (Seq<u8>, Seq<u8>, ReplayModel) {
    (w.sender@, w.channel@, w.replay@)
}

/// The first window for (sender, channel).
pub open spec fn window_of(ws: Seq<(Seq<u8>, Seq<u8>, ReplayModel)>, sender: Seq<u8>, channel: Seq<u8>) -> Option<int> {
    if exists|i: int| 0 <= i < ws.len() && (#[trigger] ws[i]).0 == sender && ws[i].1 == channel {
        Some(choose|i: int| 0 <= i < ws.len() && (#[trigger] ws[i]).0 == sender && ws[i].1 == channel)
    } else {
        None
    }
}

/// The hash stored for (sender, channel, seq), if any.
pub open spec fn slot_hash(envs: Seq<EnvelopeEntry>, sender: Seq<u8>, channel: Seq<u8>, seq: u64) -> Option<
    Seq<u8>,
> {
    if exists|i: int|
        0 <= i < envs.len() && (#[trigger] envs[i]).sender@ == sender && envs[i].channel@ == channel
            && envs[i].seq == seq {
        Some(
            envs[choose|i: int|
                0 <= i < envs.len() && (#[trigger] envs[i]).sender@ == sender && envs[i].channel@
                    == channel && envs[i].seq == seq].hash@,
        )
    } else {
        None
    }
}

/// Whether the sequence window of (sender, channel) takes `seq`: a fresh
/// seq in an existing window, or a new window while there is room.
pub open spec fn seq_admits(ws: Seq<(Seq<u8>, Seq<u8>, ReplayModel)>, sender: Seq<u8>, channel: Seq<u8>, seq: u64) -> Result<
    (),
    LedgerError,
> {
    match window_of(ws, sender, channel) {
        Some(i) => if spec_check(ws[i].2, seq).1 {
            Ok(())
        } else {
            Err(LedgerError::WindowStale)
        },
        None => if ws.len() >= MAX_SEQ_WINDOWS {
            Err(LedgerError::SeqWindowsFull)
        } else {
            Ok(())
        },
    }
}

/// The windows after `seq` is taken.
pub open spec fn seq_advance(ws: Seq<(Seq<u8>, Seq<u8>, ReplayModel)>, sender: Seq<u8>, channel: Seq<u8>, seq: u64) -> Seq<
    (Seq<u8>, Seq<u8>, ReplayModel),
> {
    match window_of(ws, sender, channel) {
        Some(i) => ws.update(i, (sender, channel, spec_check(ws[i].2, seq).0)),
        None => ws.push(
            (
                sender,
                channel,
                spec_check(ReplayModel { initialized: false, largest: 0, seen: Set::empty() }, seq).0,
            ),
        ),
    }
}

impl Ledger {
    pub closed spec fn envelopes(&self) -> Seq<EnvelopeEntry> {
        self.envelopes@
    }

    pub closed spec fn windows(&self) -> Seq<(Seq<u8>, Seq<u8>, ReplayModel)> {
        self.seq_windows@.map_values(|w: SeqWindow| window_view(w))
    }

    /// The anchors as (pubkey, hash).
    pub closed spec fn anchors(&self) -> Seq<(Seq<u8>, Seq<u8>)> {
        self.anchors@.map_values(|a: AnchorEntry| (a.pubkey@, a.hash@))
    }

    /// The revocations as (pubkey, revoke hash, cert expiry).
    pub closed spec fn revocations(&self) -> Seq<(Seq<u8>, Seq<u8>, u64)> {
        self.revocations@.map_values(|r: RevocationEntry| (r.pubkey@, r.revoke_hash@, r.cert_expiry_ms))
    }

    /// The ledger's invariant: every table within its capacity; no two
    /// envelopes share (sender, channel, seq); no two windows share
    /// (sender, channel); one anchor and one revocation per pubkey.
    pub closed spec fn wf(&self) -> bool {
        &&& self.envelopes@.len() <= MAX_ENVELOPES
        &&& self.seq_windows@.len() <= MAX_SEQ_WINDOWS
        &&& self.anchors@.len() <= MAX_ANCHORS
        &&& self.revocations@.len() <= MAX_REVOCATIONS
        &&& forall|i: int, j: int|
            0 <= i < j < self.envelopes@.len() ==> !(#[trigger] self.envelopes@[i]).same_slot(
                #[trigger] self.envelopes@[j],
            )
        &&& forall|i: int, j: int|
            0 <= i < j < self.seq_windows@.len() ==> !((#[trigger] self.seq_windows@[i]).sender@
                == (#[trigger] self.seq_windows@[j]).sender@ && self.seq_windows@[i].channel@
                == self.seq_windows@[j].channel@)
        &&& forall|i: int| 0 <= i < self.seq_windows@.len() ==> (#[trigger] self.seq_windows@[i]).replay.wf()
        &&& forall|i: int, j: int|
            0 <= i < j < self.anchors@.len() ==> (#[trigger] self.anchors@[i]).pubkey@ != (
            #[trigger] self.anchors@[j]).pubkey@
        &&& forall|i: int, j: int|
            0 <= i < j < self.revocations@.len() ==> (#[trigger] self.revocations@[i]).pubkey@ != (
            #[trigger] self.revocations@[j]).pubkey@
    }

    pub fn new() -> (l: Self)
        ensures
            l.wf(),
            l.envelopes() == Seq::<EnvelopeEntry>::empty(),
            l.windows() == Seq::<(Seq<u8>, Seq<u8>, ReplayModel)>::empty(),
            l.anchors() == Seq::<(Seq<u8>, Seq<u8>)>::empty(),
            l.revocations() == Seq::<(Seq<u8>, Seq<u8>, u64)>::empty(),
    {
        let l = Self {
            envelopes: Vec::new(),
            seq_windows: Vec::new(),
            anchors: Vec::new(),
            revocations: Vec::new(),
        };
        assert(l.windows() =~= Seq::<(Seq<u8>, Seq<u8>, ReplayModel)>::empty());
        assert(l.anchors() =~= Seq::<(Seq<u8>, Seq<u8>)>::empty());
        assert(l.revocations() =~= Seq::<(Seq<u8>, Seq<u8>, u64)>::empty());
        l
    }

    pub fn envelope_count(&self) -> (n: usize)
        ensures
            n == self.envelopes().len(),
    {
        self.envelopes.len()
    }

    pub fn seq_window_count(&self) -> (n: usize)
        ensures
            n == self.windows().len(),
    {
        self.seq_windows.len()
    }

    pub fn anchor_count(&self) -> (n: usize)
        ensures
            n == self.anchors().len(),
    {
        self.anchors.len()
    }

    pub fn revocation_count(&self) -> (n: usize)
        ensures
            n == self.revocations().len(),
    {
        self.revocations.len()
    }

    /// Insert an envelope entry by hash. The scan for the same (sender,
    /// channel, seq) comes first: the same hash is an idempotent success
    /// (so a re-send of a stored envelope succeeds on a full store), a
    /// different hash is equivocation. Only then the capacity check.
    pub fn insert_envelope(&mut self, entry: EnvelopeEntry) -> (r: Result<(), LedgerError>)
        requires
            old(self).wf(),
        ensures
            final(self).wf(),
            final(self).windows() == old(self).windows(),
            final(self).anchors() == old(self).anchors(),
            final(self).revocations() == old(self).revocations(),
            (exists|i: int|
                0 <= i < old(self).envelopes().len() && (#[trigger] old(self).envelopes()[i]).same_slot(entry)
                    && old(self).envelopes()[i].hash@ == entry.hash@) ==> r is Ok && final(self).envelopes()
                == old(self).envelopes(),
            (exists|i: int|
                0 <= i < old(self).envelopes().len() && (#[trigger] old(self).envelopes()[i]).same_slot(entry)
                    && old(self).envelopes()[i].hash@ != entry.hash@) ==> r == Err::<(), LedgerError>(
                LedgerError::Divergence,
            ) && final(self).envelopes() == old(self).envelopes(),
            (forall|i: int|
                0 <= i < old(self).envelopes().len() ==> !(#[trigger] old(self).envelopes()[i]).same_slot(entry)) ==> if old(
                self,
            ).envelopes().len() >= MAX_ENVELOPES {
                r == Err::<(), LedgerError>(LedgerError::StoreFull) && final(self).envelopes() == old(self).envelopes()
            } else {
                r is Ok && final(self).envelopes() == old(self).envelopes().push(entry)
            },
    {
        let mut i: usize = 0;
        while i < self.envelopes.len()
            invariant
                self.wf(),
                self == old(self),
                i <= self.envelopes@.len(),
                forall|k: int| 0 <= k < i ==> !(#[trigger] self.envelopes@[k]).same_slot(entry),
            decreases self.envelopes@.len() - i,
        {
            let e = &self.envelopes[i];
            if bytes_eq(e.sender.as_slice(), entry.sender.as_slice()) && bytes_eq(
                e.channel.as_slice(),
                entry.channel.as_slice(),
            ) && e.seq == entry.seq {
                proof {
                    assert forall|j: int|
                        0 <= j < self.envelopes@.len() && (#[trigger] self.envelopes@[j]).same_slot(entry) implies j
                        == i by {
                        if j < i {
                        } else if j > i {
                            assert(!self.envelopes@[i as int].same_slot(self.envelopes@[j]));
                        }
                    }
                }
                if bytes_eq(e.hash.as_slice(), entry.hash.as_slice()) {
                    return Ok(());
                } else {
                    return Err(LedgerError::Divergence);
                }
            }
            i = i + 1;
        }
        if self.envelopes.len() >= MAX_ENVELOPES {
            return Err(LedgerError::StoreFull);
        }
        self.envelopes.push(entry);
        assert(self.windows() =~= old(self).windows());
        assert(self.anchors() =~= old(self).anchors());
        assert(self.revocations() =~= old(self).revocations());
        Ok(())
    }

    /// A stored envelope has hash `h`.
    pub open spec fn has_hash(&self, h: Seq<u8>) -> bool {
        exists|e: int| 0 <= e < self.envelopes().len() && (#[trigger] self.envelopes()[e]).hash@ == h
    }

    /// Every parent hash is present in the store (in memory only; the
    /// caller owns any fetch budget).
    pub fn all_parents_present(&self, parents: &[[u8; HASH_BYTES]]) -> (ok: bool)
        ensures
            ok == forall|p: int| 0 <= p < parents@.len() ==> self.has_hash(#[trigger] parents@[p]@),
    {
        let mut p: usize = 0;
        while p < parents.len()
            invariant
                p <= parents@.len(),
                forall|q: int| 0 <= q < p ==> self.has_hash(#[trigger] parents@[q]@),
            decreases parents@.len() - p,
        {
            let mut found = false;
            let mut e: usize = 0;
            while e < self.envelopes.len()
                invariant
                    p < parents@.len(),
                    e <= self.envelopes@.len(),
                    !found ==> forall|k: int| 0 <= k < e ==> (#[trigger] self.envelopes@[k]).hash@ != parents@[p as int]@,
                    found ==> self.has_hash(parents@[p as int]@),
                decreases self.envelopes@.len() - e,
            {
                if !found && bytes_eq(self.envelopes[e].hash.as_slice(), parents[p].as_slice()) {
                    found = true;
                    assert(self.envelopes()[e as int].hash@ == parents@[p as int]@);
                }
                e = e + 1;
            }
            if !found {
                assert(!self.has_hash(parents@[p as int]@));
                return false;
            }
            p = p + 1;
        }
        true
    }

    /// Check and advance the sequence window of (sender, channel). With no
    /// window yet, one is created and seeded with this seq. A seq the window
    /// refuses is stale.
    pub fn check_seq(&mut self, sender: &[u8; LEN_SIG_PUBKEY], channel: &[u8; LEN_CHANNEL_ID], seq: u64) -> (r: Result<(), LedgerError>)
        requires
            old(self).wf(),
        ensures
            final(self).wf(),
            final(self).envelopes() == old(self).envelopes(),
            final(self).anchors() == old(self).anchors(),
            final(self).revocations() == old(self).revocations(),
            match window_of(old(self).windows(), sender@, channel@) {
                Some(i) => {
                    let (m, fresh) = spec_check(old(self).windows()[i].2, seq);
                    &&& final(self).windows() == old(self).windows().update(
                        i,
                        (sender@, channel@, m),
                    )
                    &&& r == if fresh {
                        Ok::<(), LedgerError>(())
                    } else {
                        Err(LedgerError::WindowStale)
                    }
                },
                None => if old(self).windows().len() >= MAX_SEQ_WINDOWS {
                    r == Err::<(), LedgerError>(LedgerError::SeqWindowsFull) && final(self).windows()
                        == old(self).windows()
                } else {
                    r is Ok && final(self).windows() == old(self).windows().push(
                        (
                            sender@,
                            channel@,
                            spec_check(
                                ReplayModel { initialized: false, largest: 0, seen: Set::empty() },
                                seq,
                            ).0,
                        ),
                    )
                },
            },
    {
        let mut i: usize = 0;
        while i < self.seq_windows.len()
            invariant
                self.wf(),
                self == old(self),
                i <= self.seq_windows@.len(),
                forall|k: int|
                    0 <= k < i ==> !((#[trigger] self.seq_windows@[k]).sender@ == sender@
                        && self.seq_windows@[k].channel@ == channel@),
            decreases self.seq_windows@.len() - i,
        {
            if bytes_eq(self.seq_windows[i].sender.as_slice(), sender.as_slice()) && bytes_eq(
                self.seq_windows[i].channel.as_slice(),
                channel.as_slice(),
            ) {
                proof {
                    let ws = self.windows();
                    assert(ws[i as int].0 == sender@ && ws[i as int].1 == channel@);
                    let c = choose|x: int| 0 <= x < ws.len() && (#[trigger] ws[x]).0 == sender@ && ws[x].1 == channel@;
                    if c < i {
                        assert(!(self.seq_windows@[c].sender@ == sender@ && self.seq_windows@[c].channel@ == channel@));
                    } else if c > i {
                        assert(!(self.seq_windows@[i as int].sender@ == self.seq_windows@[c].sender@
                            && self.seq_windows@[i as int].channel@ == self.seq_windows@[c].channel@));
                    }
                }
                let mut w = self.seq_windows.remove(i);
                let fresh = w.replay.check(seq);
                self.seq_windows.insert(i, w);
                proof {
                    assert(self.seq_windows@ =~= old(self).seq_windows@.update(i as int, w));
                    assert(self.windows() =~= old(self).windows().update(i as int, window_view(w)));
                }
                if !fresh {
                    return Err(LedgerError::WindowStale);
                }
                return Ok(());
            }
            i = i + 1;
        }
        if self.seq_windows.len() >= MAX_SEQ_WINDOWS {
            return Err(LedgerError::SeqWindowsFull);
        }
        let mut rw = ReplayWindow::new();
        // The first check seeds the window with this seq as its largest.
        let _ = rw.check(seq);
        self.seq_windows.push(SeqWindow { sender: *sender, channel: *channel, replay: rw });
        assert(self.windows() =~= old(self).windows().push(window_view(self.seq_windows@.last())));
        Ok(())
    }

    /// The hash stored for (sender, channel, seq), if any.
    pub fn find_envelope(&self, sender: &[u8; LEN_SIG_PUBKEY], channel: &[u8; LEN_CHANNEL_ID], seq: u64) -> (r: Option<[u8; HASH_BYTES]>)
        requires
            self.wf(),
        ensures
            match r {
                Some(h) => slot_hash(self.envelopes(), sender@, channel@, seq) == Some(h@),
                None => slot_hash(self.envelopes(), sender@, channel@, seq) is None,
            },
    {
        let mut i: usize = 0;
        while i < self.envelopes.len()
            invariant
                self.wf(),
                i <= self.envelopes@.len(),
                forall|k: int|
                    0 <= k < i ==> !((#[trigger] self.envelopes@[k]).sender@ == sender@
                        && self.envelopes@[k].channel@ == channel@ && self.envelopes@[k].seq == seq),
            decreases self.envelopes@.len() - i,
        {
            let e = &self.envelopes[i];
            if bytes_eq(e.sender.as_slice(), sender.as_slice()) && bytes_eq(e.channel.as_slice(), channel.as_slice())
                && e.seq == seq {
                proof {
                    let envs = self.envelopes@;
                    let c = choose|j: int|
                        0 <= j < envs.len() && (#[trigger] envs[j]).sender@ == sender@ && envs[j].channel@
                            == channel@ && envs[j].seq == seq;
                    if c < i {
                    } else if c > i {
                        assert(!envs[i as int].same_slot(envs[c]));
                    }
                }
                return Some(e.hash);
            }
            i = i + 1;
        }
        None
    }

    /// Admission of a verified envelope: an envelope already stored under
    /// its (sender, channel, seq) is a duplicate when the hash is the same
    /// and equivocation when it differs; then every parent must be stored,
    /// then the store must have room, then the sequence window must take the
    /// seq; only then is the envelope stored. A refused envelope consumes no
    /// sequence number and changes nothing.
    pub fn admit_envelope(
        &mut self,
        hash: &[u8; HASH_BYTES],
        sender: &[u8; LEN_SIG_PUBKEY],
        channel: &[u8; LEN_CHANNEL_ID],
        seq: u64,
        parents: &[[u8; HASH_BYTES]],
    ) -> (r: Result<Admission, AdmitError>)
        requires
            old(self).wf(),
        ensures
            final(self).wf(),
            final(self).anchors() == old(self).anchors(),
            final(self).revocations() == old(self).revocations(),
            r == match slot_hash(old(self).envelopes(), sender@, channel@, seq) {
                Some(h) => if h == hash@ {
                    Ok::<Admission, AdmitError>(Admission::Duplicate)
                } else {
                    Err(AdmitError::Ledger(LedgerError::Divergence))
                },
                None => if !(forall|p: int| 0 <= p < parents@.len() ==> old(self).has_hash(#[trigger] parents@[p]@)) {
                    Err(AdmitError::MissingParent)
                } else if old(self).envelopes().len() >= MAX_ENVELOPES {
                    Err(AdmitError::Ledger(LedgerError::StoreFull))
                } else {
                    match seq_admits(old(self).windows(), sender@, channel@, seq) {
                        Err(e) => Err(AdmitError::Ledger(e)),
                        Ok(()) => Ok(Admission::Admitted),
                    }
                },
            },
            r == Ok::<Admission, AdmitError>(Admission::Admitted) ==> {
                &&& final(self).envelopes() == old(self).envelopes().push(
                    (EnvelopeEntry { hash: *hash, sender: *sender, channel: *channel, seq }),
                )
                &&& final(self).windows() == seq_advance(old(self).windows(), sender@, channel@, seq)
            },
            r != Ok::<Admission, AdmitError>(Admission::Admitted) ==> final(self).envelopes() == old(
                self,
            ).envelopes() && final(self).windows() == old(self).windows(),
    {
        match self.find_envelope(sender, channel, seq) {
            Some(h) => {
                if bytes_eq(h.as_slice(), hash.as_slice()) {
                    return Ok(Admission::Duplicate);
                } else {
                    return Err(AdmitError::Ledger(LedgerError::Divergence));
                }
            },
            None => {},
        }
        if !self.all_parents_present(parents) {
            return Err(AdmitError::MissingParent);
        }
        if self.envelopes.len() >= MAX_ENVELOPES {
            return Err(AdmitError::Ledger(LedgerError::StoreFull));
        }
        let ghost ws0 = self.windows();
        match self.check_seq(sender, channel, seq) {
            Err(e) => {
                proof {
                    match window_of(ws0, sender@, channel@) {
                        Some(i) => {
                            let i0 = choose|x: int| 0 <= x < ws0.len() && (#[trigger] ws0[x]).0 == sender@ && ws0[x].1 == channel@;
                            assert(i == i0);
                            assert(ws0[i].0 == sender@ && ws0[i].1 == channel@);
                            assert(ws0.update(i, (sender@, channel@, ws0[i].2)) =~= ws0);
                        },
                        None => {},
                    }
                }
                return Err(AdmitError::Ledger(e));
            },
            Ok(()) => {},
        }
        let entry = EnvelopeEntry { hash: *hash, sender: *sender, channel: *channel, seq };
        let ghost envs = self.envelopes();
        proof {
            assert forall|i: int| 0 <= i < envs.len() implies !(#[trigger] envs[i]).same_slot(entry) by {
                if envs[i].same_slot(entry) {
                    assert(envs[i].sender@ == sender@ && envs[i].channel@ == channel@ && envs[i].seq == seq);
                }
            }
        }
        let ins = self.insert_envelope(entry);
        assert(ins is Ok);
        Ok(Admission::Admitted)
    }

    /// Set the anchor of a pubkey: the first call stores it, the same hash
    /// again is idempotent, a different hash is divergence.
    pub fn set_anchor(&mut self, pubkey: &[u8; LEN_SIG_PUBKEY], hash: &[u8; HASH_BYTES]) -> (r: Result<(), LedgerError>)
        requires
            old(self).wf(),
        ensures
            final(self).wf(),
            final(self).envelopes() == old(self).envelopes(),
            final(self).windows() == old(self).windows(),
            final(self).revocations() == old(self).revocations(),
            (exists|i: int|
                0 <= i < old(self).anchors().len() && (#[trigger] old(self).anchors()[i]).0 == pubkey@) ==> final(self).anchors()
                == old(self).anchors() && r == if (exists|i: int|
                0 <= i < old(self).anchors().len() && (#[trigger] old(self).anchors()[i]).0 == pubkey@
                    && old(self).anchors()[i].1 == hash@) {
                Ok::<(), LedgerError>(())
            } else {
                Err(LedgerError::Divergence)
            },
            (forall|i: int| 0 <= i < old(self).anchors().len() ==> (#[trigger] old(self).anchors()[i]).0 != pubkey@) ==> if old(
                self,
            ).anchors().len() >= MAX_ANCHORS {
                r == Err::<(), LedgerError>(LedgerError::AnchorsFull) && final(self).anchors() == old(self).anchors()
            } else {
                r is Ok && final(self).anchors() == old(self).anchors().push((pubkey@, hash@))
            },
    {
        let mut i: usize = 0;
        while i < self.anchors.len()
            invariant
                self.wf(),
                self == old(self),
                i <= self.anchors@.len(),
                forall|k: int| 0 <= k < i ==> (#[trigger] self.anchors@[k]).pubkey@ != pubkey@,
            decreases self.anchors@.len() - i,
        {
            if bytes_eq(self.anchors[i].pubkey.as_slice(), pubkey.as_slice()) {
                proof {
                    assert forall|j: int|
                        0 <= j < self.anchors@.len() && (#[trigger] self.anchors@[j]).pubkey@ == pubkey@ implies j == i by {
                        if j > i {
                            assert(self.anchors@[i as int].pubkey@ != self.anchors@[j].pubkey@);
                        }
                    }
                    assert(self.anchors()[i as int].0 == pubkey@);
                }
                if bytes_eq(self.anchors[i].hash.as_slice(), hash.as_slice()) {
                    assert(self.anchors()[i as int].1 == hash@);
                    return Ok(());
                } else {
                    return Err(LedgerError::Divergence);
                }
            }
            i = i + 1;
        }
        if self.anchors.len() >= MAX_ANCHORS {
            return Err(LedgerError::AnchorsFull);
        }
        self.anchors.push(AnchorEntry { pubkey: *pubkey, hash: *hash });
        assert(self.anchors() =~= old(self).anchors().push((pubkey@, hash@)));
        assert(self.windows() =~= old(self).windows());
        assert(self.revocations() =~= old(self).revocations());
        Ok(())
    }

    /// The anchor hash of a pubkey, if set.
    pub fn get_anchor(&self, pubkey: &[u8; LEN_SIG_PUBKEY]) -> (r: Option<&[u8; HASH_BYTES]>)
        requires
            self.wf(),
        ensures
            match r {
                Some(h) => exists|i: int|
                    0 <= i < self.anchors().len() && (#[trigger] self.anchors()[i]).0 == pubkey@
                        && self.anchors()[i].1 == h@,
                None => forall|i: int|
                    0 <= i < self.anchors().len() ==> (#[trigger] self.anchors()[i]).0 != pubkey@,
            },
    {
        let mut i: usize = 0;
        while i < self.anchors.len()
            invariant
                i <= self.anchors@.len(),
                forall|k: int| 0 <= k < i ==> (#[trigger] self.anchors@[k]).pubkey@ != pubkey@,
            decreases self.anchors@.len() - i,
        {
            if bytes_eq(self.anchors[i].pubkey.as_slice(), pubkey.as_slice()) {
                assert(self.anchors()[i as int].0 == pubkey@);
                return Some(&self.anchors[i].hash);
            }
            assert(self.anchors()[i as int].0 != pubkey@);
            i = i + 1;
        }
        None
    }

    /// Set a revocation: the first call stores it, the same hash again is
    /// idempotent, a different hash is divergence. On a full table the entry
    /// with the lowest cert expiry (the first such) is evicted first, its
    /// place taken by the last entry.
    pub fn set_revocation(&mut self, pubkey: &[u8; LEN_SIG_PUBKEY], revoke_hash: &[u8; HASH_BYTES], cert_expiry_ms: u64) -> (r: Result<(), LedgerError>)
        requires
            old(self).wf(),
        ensures
            final(self).wf(),
            final(self).envelopes() == old(self).envelopes(),
            final(self).windows() == old(self).windows(),
            final(self).anchors() == old(self).anchors(),
            (exists|i: int|
                0 <= i < old(self).revocations().len() && (#[trigger] old(self).revocations()[i]).0 == pubkey@) ==> final(self).revocations()
                == old(self).revocations() && r == if (exists|i: int|
                0 <= i < old(self).revocations().len() && (#[trigger] old(self).revocations()[i]).0 == pubkey@
                    && old(self).revocations()[i].1 == revoke_hash@) {
                Ok::<(), LedgerError>(())
            } else {
                Err(LedgerError::Divergence)
            },
            (forall|i: int|
                0 <= i < old(self).revocations().len() ==> (#[trigger] old(self).revocations()[i]).0 != pubkey@) ==> r is Ok
                && if old(self).revocations().len() >= MAX_REVOCATIONS {
                exists|m: int|
                    {
                        &&& 0 <= m < old(self).revocations().len()
                        &&& forall|k: int|
                            0 <= k < old(self).revocations().len() ==> (#[trigger] old(self).revocations()[k]).2
                                >= old(self).revocations()[m].2
                        &&& forall|k: int|
                            0 <= k < m ==> (#[trigger] old(self).revocations()[k]).2 > old(self).revocations()[m].2
                        &&& final(self).revocations() == old(self).revocations().update(
                            m,
                            old(self).revocations().last(),
                        ).drop_last().push((pubkey@, revoke_hash@, cert_expiry_ms))
                    }
            } else {
                final(self).revocations() == old(self).revocations().push((pubkey@, revoke_hash@, cert_expiry_ms))
            },
    {
        let mut i: usize = 0;
        while i < self.revocations.len()
            invariant
                self.wf(),
                self == old(self),
                i <= self.revocations@.len(),
                forall|k: int| 0 <= k < i ==> (#[trigger] self.revocations@[k]).pubkey@ != pubkey@,
            decreases self.revocations@.len() - i,
        {
            if bytes_eq(self.revocations[i].pubkey.as_slice(), pubkey.as_slice()) {
                proof {
                    assert forall|j: int|
                        0 <= j < self.revocations@.len() && (#[trigger] self.revocations@[j]).pubkey@ == pubkey@ implies j == i by {
                        if j > i {
                            assert(self.revocations@[i as int].pubkey@ != self.revocations@[j].pubkey@);
                        }
                    }
                    assert(self.revocations()[i as int].0 == pubkey@);
                }
                if bytes_eq(self.revocations[i].revoke_hash.as_slice(), revoke_hash.as_slice()) {
                    assert(self.revocations()[i as int].1 == revoke_hash@);
                    return Ok(());
                } else {
                    return Err(LedgerError::Divergence);
                }
            }
            assert(self.revocations()[i as int].0 != pubkey@);
            i = i + 1;
        }
        let ghost before = self.revocations();
        if self.revocations.len() >= MAX_REVOCATIONS {
            // Evict the lowest cert expiry.
            let mut m: usize = 0;
            let mut k: usize = 1;
            while k < self.revocations.len()
                invariant
                    self == old(self),
                    1 <= k <= self.revocations@.len(),
                    m < k,
                    forall|j: int| 0 <= j < k ==> (#[trigger] self.revocations@[j]).cert_expiry_ms >= self.revocations@[m as int].cert_expiry_ms,
                    forall|j: int| 0 <= j < m ==> (#[trigger] self.revocations@[j]).cert_expiry_ms > self.revocations@[m as int].cert_expiry_ms,
                decreases self.revocations@.len() - k,
            {
                if self.revocations[k].cert_expiry_ms < self.revocations[m].cert_expiry_ms {
                    m = k;
                }
                k = k + 1;
            }
            let _evicted = self.revocations.swap_remove(m);
            proof {
                assert(self.revocations() =~= before.update(m as int, before.last()).drop_last());
                assert forall|a: int, b: int|
                    0 <= a < b < self.revocations@.len() implies (#[trigger] self.revocations@[a]).pubkey@ != (
                    #[trigger] self.revocations@[b]).pubkey@ by {
                    let n = old(self).revocations@.len();
                    let oa = if a == m { n - 1 } else { a };
                    let ob = if b == m { n - 1 } else { b };
                    assert(self.revocations@[a] == old(self).revocations@[oa]);
                    assert(self.revocations@[b] == old(self).revocations@[ob]);
                    if oa < ob {
                        assert(old(self).revocations@[oa].pubkey@ != old(self).revocations@[ob].pubkey@);
                    } else {
                        assert(old(self).revocations@[ob].pubkey@ != old(self).revocations@[oa].pubkey@);
                    }
                }
                assert forall|k2: int| 0 <= k2 < self.revocations@.len() implies (#[trigger] self.revocations@[k2]).pubkey@ != pubkey@ by {
                    let n = old(self).revocations@.len();
                    let o = if k2 == m { n - 1 } else { k2 };
                    assert(self.revocations@[k2] == old(self).revocations@[o]);
                }
                assert(self.revocations()[m as int] == before.last() || m == before.len() - 1);
            }
        }
        let ghost mid = self.revocations();
        self.revocations.push(RevocationEntry { pubkey: *pubkey, revoke_hash: *revoke_hash, cert_expiry_ms });
        assert(self.revocations() =~= mid.push((pubkey@, revoke_hash@, cert_expiry_ms)));
        assert(self.windows() =~= old(self).windows());
        assert(self.anchors() =~= old(self).anchors());
        Ok(())
    }

    /// Whether a pubkey is revoked.
    pub fn is_revoked(&self, pubkey: &[u8; LEN_SIG_PUBKEY]) -> (b: bool)
        ensures
            b == exists|i: int|
                0 <= i < self.revocations().len() && (#[trigger] self.revocations()[i]).0 == pubkey@,
    {
        let mut i: usize = 0;
        while i < self.revocations.len()
            invariant
                i <= self.revocations@.len(),
                forall|k: int| 0 <= k < i ==> (#[trigger] self.revocations@[k]).pubkey@ != pubkey@,
            decreases self.revocations@.len() - i,
        {
            if bytes_eq(self.revocations[i].pubkey.as_slice(), pubkey.as_slice()) {
                assert(self.revocations()[i as int].0 == pubkey@);
                return true;
            }
            assert(self.revocations()[i as int].0 != pubkey@);
            i = i + 1;
        }
        false
    }

    /// The revocation hash of a pubkey, if revoked.
    pub fn get_revoke_hash(&self, pubkey: &[u8; LEN_SIG_PUBKEY]) -> (r: Option<&[u8; HASH_BYTES]>)
        requires
            self.wf(),
        ensures
            match r {
                Some(h) => exists|i: int|
                    0 <= i < self.revocations().len() && (#[trigger] self.revocations()[i]).0 == pubkey@
                        && self.revocations()[i].1 == h@,
                None => forall|i: int|
                    0 <= i < self.revocations().len() ==> (#[trigger] self.revocations()[i]).0 != pubkey@,
            },
    {
        let mut i: usize = 0;
        while i < self.revocations.len()
            invariant
                i <= self.revocations@.len(),
                forall|k: int| 0 <= k < i ==> (#[trigger] self.revocations@[k]).pubkey@ != pubkey@,
            decreases self.revocations@.len() - i,
        {
            if bytes_eq(self.revocations[i].pubkey.as_slice(), pubkey.as_slice()) {
                assert(self.revocations()[i as int].0 == pubkey@);
                return Some(&self.revocations[i].revoke_hash);
            }
            assert(self.revocations()[i as int].0 != pubkey@);
            i = i + 1;
        }
        None
    }
}

impl Default for Ledger {
    fn default() -> (l: Self)
        ensures
            l.wf(),
            l.envelopes() == Seq::<EnvelopeEntry>::empty(),
            l.windows() == Seq::<(Seq<u8>, Seq<u8>, ReplayModel)>::empty(),
            l.anchors() == Seq::<(Seq<u8>, Seq<u8>)>::empty(),
            l.revocations() == Seq::<(Seq<u8>, Seq<u8>, u64)>::empty(),
    {
        Self::new()
    }
}

} // verus!
