//! Noise_IK_25519_ChaChaPoly_BLAKE2s: the handshake machine.
//!
//! The transcript is modelled by `SymModel` (h, ck, k, n, has_key) and the
//! operations of the Noise symmetric state as spec functions over it. Each
//! handshake message is stated as the chain of those operations, and the
//! executable code is proved to follow the chain byte for byte. The
//! primitives (BLAKE2s, X25519, ChaCha20-Poly1305) are the named results of
//! `crate::crypto`.
//!
//! Message 1 is 144 bytes: type 1, three zero bytes, the sender index, the
//! ephemeral (32), the encrypted static (48), the encrypted timestamp (24),
//! mac1 (16) and mac2 (16). Message 2 is 92 bytes: type 2, three zero bytes,
//! the sender index, the echoed receiver index, the ephemeral (32), the
//! encrypted empty payload (16), mac1 and mac2. The framing is not mixed into
//! the transcript.

use vstd::prelude::*;
use crate::codec::{be32, be64, copy_prefix, write_at, lemma_be32_u32_bytes, lemma_be64_u64_bytes, copy_into, push_bytes, push_u32be, push_u64be, read_u32be, read_u64be, u32_bytes, u64_bytes};
use crate::crypto;
use super::mac1;
use super::mac1::{mac1_spec, MAC_BYTES};

verus! {

pub const DHLEN: usize = 32;
pub const HASHLEN: usize = 32;
pub const KEYLEN: usize = 32;
pub const TAGLEN: usize = 16;
pub const NONCELEN: usize = 12;

pub const MSG1_SIZE: usize = 144;
pub const MSG2_SIZE: usize = 92;
pub const MSG1_BEFORE_MAC1: usize = 112;
pub const MSG2_BEFORE_MAC1: usize = 60;

pub const OFF1_SENDER_INDEX: usize = 4;
pub const OFF1_EPHEMERAL: usize = 8;
pub const OFF1_ENC_STATIC: usize = 40;
pub const OFF1_ENC_TIMESTAMP: usize = 88;
pub const OFF1_MAC1: usize = 112;
pub const OFF1_MAC2: usize = 128;

pub const OFF2_SENDER_INDEX: usize = 4;
pub const OFF2_RECEIVER_INDEX: usize = 8;
pub const OFF2_EPHEMERAL: usize = 12;
pub const OFF2_ENC_NOTHING: usize = 44;
pub const OFF2_MAC1: usize = 60;
pub const OFF2_MAC2: usize = 76;

#[derive(Debug, Clone, Copy, PartialEq, Eq, Structural)]
pub enum Error {
    Mac1Failed,
    DecryptFailed,
    IdentityPoint,
}

/// A completed handshake: the two transport keys and the transcript hash.
#[derive(Debug, Clone, Copy, PartialEq, Eq)]
pub struct HandshakeResult {
    pub send_key: [u8; KEYLEN],
    pub recv_key: [u8; KEYLEN],
    pub handshake_hash: [u8; HASHLEN],
}

// --- the model ------------------------------------------------------------

/// "Noise_IK_25519_ChaChaPoly_BLAKE2s" in ASCII.
pub open spec fn protocol_name() -> Seq<u8> {
    seq![
        78u8, 111, 105, 115, 101, 95, 73, 75, 95, 50, 53, 53, 49, 57, 95, 67, 104, 97, 67, 104,
        97, 80, 111, 108, 121, 95, 66, 76, 65, 75, 69, 50, 115,
    ]
}

pub open spec fn zeros(n: nat) -> Seq<u8> {
    Seq::new(n, |i: int| 0u8)
}

/// The X25519 base point: u = 9.
pub open spec fn basepoint() -> Seq<u8> {
    seq![9u8] + zeros(31)
}

/// The public key of an X25519 secret.
pub open spec fn public_of(secret: Seq<u8>) -> Seq<u8> {
    crypto::x25519_spec(secret, basepoint())
}

/// Diffie-Hellman that refuses the all-zero (identity) result.
pub open spec fn spec_dh(sk: Seq<u8>, pk: Seq<u8>) -> Option<Seq<u8>> {
    let s = crypto::x25519_spec(sk, pk);
    if s == zeros(32) {
        None
    } else {
        Some(s)
    }
}

/// The HMAC key block: the key (hashed first when longer than a block),
/// padded with zeros to the 64-byte BLAKE2s block.
pub open spec fn hmac_key_block(key: Seq<u8>) -> Seq<u8> {
    let k = if key.len() > 64 {
        crypto::blake2s256_spec(key)
    } else {
        key
    };
    k + zeros((64 - k.len()) as nat)
}

pub open spec fn xor_pad(k: Seq<u8>, pad: u8) -> Seq<u8> {
    Seq::new(64, |i: int| k[i] ^ pad)
}

/// HMAC-BLAKE2s-256 (RFC 2104 over the 64-byte block).
pub open spec fn hmac_spec(key: Seq<u8>, data: Seq<u8>) -> Seq<u8> {
    let kb = hmac_key_block(key);
    crypto::blake2s256_spec(
        xor_pad(kb, 0x5cu8) + crypto::blake2s256_spec(xor_pad(kb, 0x36u8) + data),
    )
}

/// The Noise HKDF with two outputs.
pub open spec fn hkdf2_spec(ck: Seq<u8>, ikm: Seq<u8>) -> (Seq<u8>, Seq<u8>) {
    let t = hmac_spec(ck, ikm);
    let o1 = hmac_spec(t, seq![1u8]);
    (o1, hmac_spec(t, o1 + seq![2u8]))
}

/// The AEAD nonce of a counter: four zero bytes, then the counter big-endian.
pub open spec fn nonce_spec(counter: u64) -> Seq<u8> {
    zeros(4) + u64_bytes(counter)
}

/// The Noise symmetric state.
pub struct SymModel {
    pub h: Seq<u8>,
    pub ck: Seq<u8>,
    pub k: Seq<u8>,
    pub n: u64,
    pub has_key: bool,
}

pub open spec fn sym_init() -> SymModel {
    let h = crypto::blake2s256_spec(protocol_name());
    SymModel { h: h, ck: h, k: zeros(32), n: 0, has_key: false }
}

pub open spec fn sym_mix_hash(s: SymModel, data: Seq<u8>) -> SymModel {
    SymModel { h: crypto::blake2s256_spec(s.h + data), ..s }
}

pub open spec fn sym_mix_key(s: SymModel, ikm: Seq<u8>) -> SymModel {
    let (o1, o2) = hkdf2_spec(s.ck, ikm);
    SymModel { ck: o1, k: o2, n: 0, has_key: true, ..s }
}

/// EncryptAndHash: the new state and the bytes written.
pub open spec fn sym_encrypt(s: SymModel, pt: Seq<u8>) -> (SymModel, Seq<u8>) {
    if s.has_key {
        let c = crypto::aead_seal_spec(s.k, nonce_spec(s.n), s.h, pt);
        (SymModel { h: crypto::blake2s256_spec(s.h + c), n: (s.n + 1) as u64, ..s }, c)
    } else {
        (sym_mix_hash(s, pt), pt)
    }
}

/// DecryptAndHash: the new state and the plaintext, or nothing when the
/// tag does not authenticate.
pub open spec fn sym_decrypt(s: SymModel, ct: Seq<u8>) -> Option<(SymModel, Seq<u8>)> {
    if s.has_key {
        match crypto::aead_open_spec(s.k, nonce_spec(s.n), s.h, ct) {
            Some(p) => Some(
                (SymModel { h: crypto::blake2s256_spec(s.h + ct), n: (s.n + 1) as u64, ..s }, p),
            ),
            None => None,
        }
    } else {
        Some((sym_mix_hash(s, ct), ct))
    }
}

/// How many plaintext bytes DecryptAndHash yields for `len` input bytes.
pub open spec fn sym_pt_len(s: SymModel, len: nat) -> int {
    if s.has_key {
        len - 16
    } else {
        len as int
    }
}

/// Split: the two transport keys.
pub open spec fn sym_split(s: SymModel) -> (Seq<u8>, Seq<u8>) {
    hkdf2_spec(s.ck, Seq::empty())
}

// --- small byte helpers -----------------------------------------------------

fn zero_array<const N: usize>() -> (r: [u8; N])
    ensures
        r@ == zeros(N as nat),
{
    let mut r = [0u8; N];
    let mut i: usize = 0;
    while i < N
        invariant
            r@.len() == N,
            i <= N,
            forall|j: int| 0 <= j < i ==> r@[j] == 0u8,
        decreases N - i,
    {
        r[i] = 0;
        i = i + 1;
    }
    assert(r@ =~= zeros(N as nat));
    r
}

fn is_zero(s: &[u8]) -> (z: bool)
    ensures
        z == (s@ == zeros(s@.len())),
{
    let mut i: usize = 0;
    while i < s.len()
        invariant
            i <= s@.len(),
            forall|j: int| 0 <= j < i ==> s@[j] == 0u8,
        decreases s@.len() - i,
    {
        if s[i] != 0 {
            assert(s@[i as int] != zeros(s@.len())[i as int]);
            return false;
        }
        i = i + 1;
    }
    assert(s@ =~= zeros(s@.len()));
    true
}

fn basepoint_bytes() -> (b: [u8; 32])
    ensures
        b@ == basepoint(),
{
    let mut b: [u8; 32] = zero_array();
    b[0] = 9;
    assert(b@ =~= basepoint());
    b
}

fn protocol_name_bytes() -> (r: Vec<u8>)
    ensures
        r@ == protocol_name(),
{
    let r: Vec<u8> = vec![
        78u8, 111, 105, 115, 101, 95, 73, 75, 95, 50, 53, 53, 49, 57, 95, 67, 104, 97, 67, 104,
        97, 80, 111, 108, 121, 95, 66, 76, 65, 75, 69, 50, 115,
    ];
    assert(r@ =~= protocol_name());
    r
}

// --- HMAC, HKDF, DH ---------------------------------------------------------

fn hmac_blake2s(key: &[u8], data: &[u8]) -> (r: [u8; 32])
    ensures
        r@ == hmac_spec(key@, data@),
{
    let mut k: [u8; 64] = zero_array();
    if key.len() > 64 {
        let d = crypto::blake2s256(key);
        copy_prefix(&mut k, d.as_slice());
    } else {
        copy_prefix(&mut k, key);
    }
    assert(k@ =~= hmac_key_block(key@));
    let mut inner: Vec<u8> = Vec::new();
    let mut outer: Vec<u8> = Vec::new();
    let mut i: usize = 0;
    while i < 64
        invariant
            k@ == hmac_key_block(key@),
            k@.len() == 64,
            i <= 64,
            inner@ == xor_pad(k@, 0x36u8).subrange(0, i as int),
            outer@ == xor_pad(k@, 0x5cu8).subrange(0, i as int),
        decreases 64 - i,
    {
        inner.push(k[i] ^ 0x36u8);
        outer.push(k[i] ^ 0x5cu8);
        i = i + 1;
        assert(inner@ =~= xor_pad(k@, 0x36u8).subrange(0, i as int));
        assert(outer@ =~= xor_pad(k@, 0x5cu8).subrange(0, i as int));
    }
    assert(inner@ =~= xor_pad(k@, 0x36u8));
    assert(outer@ =~= xor_pad(k@, 0x5cu8));
    push_bytes(&mut inner, data);
    let ih = crypto::blake2s256(inner.as_slice());
    push_bytes(&mut outer, ih.as_slice());
    crypto::blake2s256(outer.as_slice())
}

fn hkdf2(ck: &[u8; 32], ikm: &[u8]) -> (r: ([u8; 32], [u8; 32]))
    ensures
        (r.0@, r.1@) == hkdf2_spec(ck@, ikm@),
{
    let temp_key = hmac_blake2s(ck.as_slice(), ikm);
    let one: Vec<u8> = vec![1u8];
    assert(one@ =~= seq![1u8]);
    let o1 = hmac_blake2s(temp_key.as_slice(), one.as_slice());
    let mut buf: Vec<u8> = Vec::new();
    push_bytes(&mut buf, o1.as_slice());
    buf.push(2);
    assert(buf@ =~= o1@ + seq![2u8]);
    let o2 = hmac_blake2s(temp_key.as_slice(), buf.as_slice());
    (o1, o2)
}

/// X25519 with the identity result refused.
fn dh(sk: &[u8; 32], pk: &[u8; 32]) -> (r: Result<[u8; DHLEN], Error>)
    ensures
        match spec_dh(sk@, pk@) {
            Some(s) => r is Ok && r->Ok_0@ == s,
            None => r == Err::<[u8; DHLEN], Error>(Error::IdentityPoint),
        },
{
    let shared = crypto::x25519(*sk, *pk);
    if is_zero(shared.as_slice()) {
        return Err(Error::IdentityPoint);
    }
    Ok(shared)
}

/// The ChaCha20-Poly1305 nonce of a session counter: four zero bytes then
/// the counter big-endian.
pub fn transport_nonce(counter: u64) -> (nb: [u8; NONCELEN])
    ensures
        nb@ == nonce_spec(counter),
{
    let mut tail: Vec<u8> = Vec::new();
    push_u64be(&mut tail, counter);
    let mut nb: [u8; NONCELEN] = zero_array();
    let mut i: usize = 0;
    while i < 8
        invariant
            tail@ == u64_bytes(counter),
            nb@.len() == 12,
            i <= 8,
            forall|j: int| 0 <= j < 4 ==> nb@[j] == 0u8,
            forall|j: int| 0 <= j < i ==> nb@[4 + j] == tail@[j],
        decreases 8 - i,
    {
        nb[4 + i] = tail[i];
        i = i + 1;
    }
    assert(nb@ =~= nonce_spec(counter));
    nb
}

// --- the symmetric state ---------------------------------------------------

pub struct SymmetricState {
    pub h: [u8; HASHLEN],
    pub ck: [u8; HASHLEN],
    k: [u8; KEYLEN],
    n: u64,
    has_key: bool,
}

impl View for SymmetricState {
    type V = SymModel;

    closed spec fn view(&self) -> SymModel {
        SymModel { h: self.h@, ck: self.ck@, k: self.k@, n: self.n, has_key: self.has_key }
    }
}

impl SymmetricState {
    pub proof fn lemma_view(&self)
        ensures
            self@.h.len() == 32,
            self@.ck.len() == 32,
            self@.k.len() == 32,
    {
    }

    /// h = BLAKE2s(protocol name), ck = h, no key. The prologue is empty.
    pub fn init() -> (s: Self)
        ensures
            s@ == sym_init(),
    {
        let name = protocol_name_bytes();
        let h = crypto::blake2s256(name.as_slice());
        let k: [u8; KEYLEN] = zero_array();
        SymmetricState { h, ck: h, k, n: 0, has_key: false }
    }

    /// h = BLAKE2s(h || data).
    pub fn mix_hash(&mut self, data: &[u8])
        ensures
            final(self)@ == sym_mix_hash(old(self)@, data@),
    {
        let mut buf: Vec<u8> = Vec::new();
        push_bytes(&mut buf, self.h.as_slice());
        push_bytes(&mut buf, data);
        self.h = crypto::blake2s256(buf.as_slice());
    }

    /// ck, k = HKDF(ck, ikm); the nonce restarts and a key is present.
    pub fn mix_key(&mut self, ikm: &[u8; DHLEN])
        ensures
            final(self)@ == sym_mix_key(old(self)@, ikm@),
    {
        let (o1, o2) = hkdf2(&self.ck, ikm.as_slice());
        self.ck = o1;
        self.k = o2;
        self.n = 0;
        self.has_key = true;
    }

    /// With a key: the ciphertext and tag of `pt` under k, the nonce and
    /// ad = h go into `out`, the nonce advances and the ciphertext is mixed
    /// into h. Without a key the plaintext passes through and is mixed.
    pub fn encrypt_and_hash(&mut self, out: &mut [u8], pt: &[u8])
        requires
            old(self)@.has_key ==> old(out)@.len() == pt@.len() + TAGLEN && old(self)@.n
                < u64::MAX && pt@.len() / 64 < 0xffff_ffff,
            !old(self)@.has_key ==> old(out)@.len() >= pt@.len(),
        ensures
            final(self)@ == sym_encrypt(old(self)@, pt@).0,
            old(self)@.has_key ==> sym_encrypt(old(self)@, pt@).1.len() == pt@.len() + TAGLEN,
            final(out)@ == sym_encrypt(old(self)@, pt@).1 + old(out)@.subrange(
                sym_encrypt(old(self)@, pt@).1.len() as int,
                old(out)@.len() as int,
            ),
    {
        if self.has_key {
            let nonce = transport_nonce(self.n);
            let sealed = crypto::aead_seal(&self.k, &nonce, self.h.as_slice(), pt);
            if let Some(c) = sealed {
                copy_prefix(out, c.as_slice());
                assert(out@ =~= c@);
                self.n = self.n + 1;
                self.mix_hash(c.as_slice());
            }
        } else {
            copy_prefix(out, pt);
            self.mix_hash(pt);
        }
    }

    /// The inverse of `encrypt_and_hash`. A tag that does not authenticate
    /// is `DecryptFailed` and changes nothing; otherwise the plaintext goes
    /// to the front of `out`, the nonce advances and the ciphertext is mixed
    /// into h.
    pub fn decrypt_and_hash(&mut self, out: &mut [u8], ct: &[u8]) -> (r: Result<(), Error>)
        requires
            old(self)@.has_key ==> ct@.len() >= TAGLEN && old(out)@.len() >= ct@.len() - TAGLEN
                && old(self)@.n < u64::MAX,
            !old(self)@.has_key ==> old(out)@.len() >= ct@.len(),
        ensures
            match sym_decrypt(old(self)@, ct@) {
                Some((s, p)) => {
                    &&& r is Ok
                    &&& final(self)@ == s
                    &&& p.len() == sym_pt_len(old(self)@, ct@.len())
                    &&& final(out)@ == p + old(out)@.subrange(p.len() as int, old(out)@.len() as int)
                },
                None => {
                    &&& r == Err::<(), Error>(Error::DecryptFailed)
                    &&& final(self)@ == old(self)@
                    &&& final(out)@ == old(out)@
                },
            },
    {
        if self.has_key {
            let nonce = transport_nonce(self.n);
            let opened = crypto::aead_open(&self.k, &nonce, self.h.as_slice(), ct);
            match opened {
                Some(p) => {
                    copy_prefix(out, p.as_slice());
                    self.n = self.n + 1;
                    self.mix_hash(ct);
                    Ok(())
                },
                None => Err(Error::DecryptFailed),
            }
        } else {
            copy_prefix(out, ct);
            self.mix_hash(ct);
            Ok(())
        }
    }

    /// The two transport keys: HKDF(ck, empty). The first is the
    /// initiator's sending key.
    pub fn split(&self) -> (r: ([u8; KEYLEN], [u8; KEYLEN]))
        ensures
            (r.0@, r.1@) == sym_split(self@),
    {
        let empty: Vec<u8> = Vec::new();
        assert(empty@ =~= Seq::<u8>::empty());
        hkdf2(&self.ck, empty.as_slice())
    }
}


// --- the handshake messages --------------------------------------------------

#[derive(Clone, Copy)]
pub struct KeyPair {
    pub secret: [u8; DHLEN],
    pub public: [u8; DHLEN],
}

impl KeyPair {
    /// The key pair of an X25519 secret.
    pub fn from_secret(secret: [u8; DHLEN]) -> (kp: Self)
        ensures
            kp.secret == secret,
            kp.public@ == public_of(secret@),
    {
        KeyPair { secret, public: crypto::x25519(secret, basepoint_bytes()) }
    }
}

/// Message 1 written by an initiator whose transcript is `sym0`, with
/// ephemeral secret `e`, static pair (`s_sk`, `s_pk`) and responder static
/// `rs`: the 144 bytes and the transcript afterwards.
pub open spec fn initiation_spec(
    sym0: SymModel,
    e: Seq<u8>,
    s_sk: Seq<u8>,
    s_pk: Seq<u8>,
    rs: Seq<u8>,
    sender_index: u32,
    timestamp_ms: u64,
    responder_sig_pubkey: Seq<u8>,
    mac2_cookie: Seq<u8>,
) -> Result<(Seq<u8>, SymModel), Error> {
    let e_pk = public_of(e);
    let s1 = sym_mix_hash(sym0, e_pk);
    match spec_dh(e, rs) {
        None => Err(Error::IdentityPoint),
        Some(es) => {
            let (s3, enc_static) = sym_encrypt(sym_mix_key(s1, es), s_pk);
            match spec_dh(s_sk, rs) {
                None => Err(Error::IdentityPoint),
                Some(ss) => {
                    let (s5, enc_ts) = sym_encrypt(sym_mix_key(s3, ss), u64_bytes(timestamp_ms));
                    let head = seq![1u8, 0, 0, 0] + u32_bytes(sender_index) + e_pk + enc_static
                        + enc_ts;
                    Ok((head + mac1_spec(responder_sig_pubkey, head) + mac2_cookie, s5))
                },
            }
        },
    }
}

/// Message 1 read by a responder whose transcript is `sym0` and whose static
/// secret is `s_sk`: the initiator's sender index, static key and timestamp,
/// and the transcript afterwards. mac1 is checked before any X25519.
pub open spec fn initiation_read_spec(
    sym0: SymModel,
    s_sk: Seq<u8>,
    msg1: Seq<u8>,
    own_sig_pubkey: Seq<u8>,
) -> Result<(u32, Seq<u8>, u64, SymModel), Error> {
    if msg1.subrange(112, 128) != mac1_spec(own_sig_pubkey, msg1.subrange(0, 112)) {
        Err(Error::Mac1Failed)
    } else {
        let e = msg1.subrange(8, 40);
        let s1 = sym_mix_hash(sym0, e);
        match spec_dh(s_sk, e) {
            None => Err(Error::IdentityPoint),
            Some(es) => match sym_decrypt(sym_mix_key(s1, es), msg1.subrange(40, 88)) {
                None => Err(Error::DecryptFailed),
                Some((s3, si)) => match spec_dh(s_sk, si) {
                    None => Err(Error::IdentityPoint),
                    Some(ss) => match sym_decrypt(sym_mix_key(s3, ss), msg1.subrange(88, 112)) {
                        None => Err(Error::DecryptFailed),
                        Some((s5, ts)) => Ok((be32(msg1.subrange(4, 8)), si, be64(ts), s5)),
                    },
                },
            },
        }
    }
}

/// Message 2 written by a responder whose transcript is `sym0`, with
/// ephemeral secret `e`, the initiator's ephemeral `re` and static `rs`.
pub open spec fn response_spec(
    sym0: SymModel,
    e: Seq<u8>,
    re: Seq<u8>,
    rs: Seq<u8>,
    sender_index: u32,
    receiver_index: u32,
    own_sig_pubkey: Seq<u8>,
    mac2_cookie: Seq<u8>,
) -> Result<(Seq<u8>, SymModel), Error> {
    let e_pk = public_of(e);
    let s1 = sym_mix_hash(sym0, e_pk);
    match spec_dh(e, re) {
        None => Err(Error::IdentityPoint),
        Some(ee) => match spec_dh(e, rs) {
            None => Err(Error::IdentityPoint),
            Some(se) => {
                let (s4, enc_nothing) = sym_encrypt(sym_mix_key(sym_mix_key(s1, ee), se), Seq::empty());
                let head = seq![2u8, 0, 0, 0] + u32_bytes(sender_index) + u32_bytes(receiver_index)
                    + e_pk + enc_nothing;
                Ok((head + mac1_spec(own_sig_pubkey, head) + mac2_cookie, s4))
            },
        },
    }
}

/// Message 2 read by an initiator whose transcript is `sym0`, ephemeral
/// secret `e` and static secret `s_sk`: the transcript afterwards. mac1 is
/// checked before any X25519.
pub open spec fn response_read_spec(
    sym0: SymModel,
    e: Seq<u8>,
    s_sk: Seq<u8>,
    msg2: Seq<u8>,
    responder_sig_pubkey: Seq<u8>,
) -> Result<SymModel, Error> {
    if msg2.subrange(60, 76) != mac1_spec(responder_sig_pubkey, msg2.subrange(0, 60)) {
        Err(Error::Mac1Failed)
    } else {
        let re = msg2.subrange(12, 44);
        let s1 = sym_mix_hash(sym0, re);
        match spec_dh(e, re) {
            None => Err(Error::IdentityPoint),
            Some(ee) => match spec_dh(s_sk, re) {
                None => Err(Error::IdentityPoint),
                Some(se) => match sym_decrypt(sym_mix_key(sym_mix_key(s1, ee), se), msg2.subrange(44, 60)) {
                    None => Err(Error::DecryptFailed),
                    Some((s4, _)) => Ok(s4),
                },
            },
        }
    }
}

/// Builds `prefix || mac1(prefix) || cookie` into a message buffer.
fn seal_frame<const N: usize>(
    head: &mut Vec<u8>,
    sig_pubkey: &[u8; 32],
    mac2_cookie: &[u8; MAC_BYTES],
) -> (out: [u8; N])
    requires
        old(head)@.len() + 32 == N,
    ensures
        out@ == old(head)@ + mac1_spec(sig_pubkey@, old(head)@) + mac2_cookie@,
{
    let m1 = mac1::compute_mac1(sig_pubkey, head.as_slice());
    push_bytes(head, m1.as_slice());
    push_bytes(head, mac2_cookie.as_slice());
    copy_into(head.as_slice())
}

/// The Noise_IK initiator: e, es, s, ss and an encrypted timestamp, then
/// the response's e, ee, se.
pub struct Initiator {
    eph_kp: KeyPair,
    static_kp: KeyPair,
    re: [u8; DHLEN],
    responder_static_pub: [u8; DHLEN],
    sym: SymmetricState,
}

impl Initiator {
    pub closed spec fn transcript(&self) -> SymModel {
        self.sym@
    }

    pub closed spec fn ephemeral(&self) -> KeyPair {
        self.eph_kp
    }

    pub closed spec fn static_pair(&self) -> KeyPair {
        self.static_kp
    }

    pub closed spec fn remote_static(&self) -> Seq<u8> {
        self.responder_static_pub@
    }

    pub closed spec fn remote_ephemeral(&self) -> Seq<u8> {
        self.re@
    }

    /// The pre-message: the responder's static key is mixed into h.
    pub fn new(static_kp: KeyPair, responder_static_pub: [u8; DHLEN]) -> (i: Self)
        ensures
            i.transcript() == sym_mix_hash(sym_init(), responder_static_pub@),
            i.static_pair() == static_kp,
            i.remote_static() == responder_static_pub@,
            i.ephemeral().public@ == public_of(zeros(32)),
            i.remote_ephemeral() == zeros(32),
    {
        let mut sym = SymmetricState::init();
        sym.mix_hash(responder_static_pub.as_slice());
        let zero: [u8; DHLEN] = zero_array();
        Initiator {
            eph_kp: KeyPair::from_secret(zero),
            static_kp,
            re: zero,
            responder_static_pub,
            sym,
        }
    }

    /// Writes message 1 with the given ephemeral secret.
    pub fn write_initiation_with(
        &mut self,
        eph_secret: [u8; DHLEN],
        out: &mut [u8; MSG1_SIZE],
        sender_index: u32,
        timestamp_ms: u64,
        responder_sig_pubkey: &[u8; 32],
        mac2_cookie: &[u8; MAC_BYTES],
    ) -> (r: Result<(), Error>)
        ensures
            final(self).ephemeral().secret == eph_secret,
            final(self).ephemeral().public@ == public_of(eph_secret@),
            final(self).static_pair() == old(self).static_pair(),
            final(self).remote_static() == old(self).remote_static(),
            final(self).remote_ephemeral() == old(self).remote_ephemeral(),
            match initiation_spec(
                old(self).transcript(),
                eph_secret@,
                old(self).static_pair().secret@,
                old(self).static_pair().public@,
                old(self).remote_static(),
                sender_index,
                timestamp_ms,
                responder_sig_pubkey@,
                mac2_cookie@,
            ) {
                Ok((m, s)) => r is Ok && final(out)@ == m && final(self).transcript() == s,
                Err(e) => r == Err::<(), Error>(e),
            },
    {
        self.eph_kp = KeyPair::from_secret(eph_secret);
        let e_pk = self.eph_kp.public;
        write_at(out, OFF1_EPHEMERAL, e_pk.as_slice());
        self.sym.mix_hash(e_pk.as_slice());
        let es = dh(&self.eph_kp.secret, &self.responder_static_pub)?;
        self.sym.mix_key(&es);
        let mut enc_static: [u8; 48] = zero_array();
        let s_pk = self.static_kp.public;
        self.sym.encrypt_and_hash(&mut enc_static, s_pk.as_slice());
        write_at(out, OFF1_ENC_STATIC, enc_static.as_slice());
        let ss = dh(&self.static_kp.secret, &self.responder_static_pub)?;
        self.sym.mix_key(&ss);
        let mut ts_pt: Vec<u8> = Vec::new();
        push_u64be(&mut ts_pt, timestamp_ms);
        let mut enc_ts: [u8; 24] = zero_array();
        self.sym.encrypt_and_hash(&mut enc_ts, ts_pt.as_slice());
        let mut head: Vec<u8> = vec![1u8, 0, 0, 0];
        assert(head@ =~= seq![1u8, 0, 0, 0]);
        push_u32be(&mut head, sender_index);
        push_bytes(&mut head, e_pk.as_slice());
        push_bytes(&mut head, enc_static.as_slice());
        push_bytes(&mut head, enc_ts.as_slice());
        *out = seal_frame(&mut head, responder_sig_pubkey, mac2_cookie);
        Ok(())
    }

    /// Writes message 1 with a fresh ephemeral secret from the operating
    /// system.
    pub fn write_initiation(
        &mut self,
        out: &mut [u8; MSG1_SIZE],
        sender_index: u32,
        timestamp_ms: u64,
        responder_sig_pubkey: &[u8; 32],
        mac2_cookie: &[u8; MAC_BYTES],
    ) -> (r: Result<(), Error>)
        ensures
            final(self).ephemeral().public@ == public_of(final(self).ephemeral().secret@),
            final(self).static_pair() == old(self).static_pair(),
            final(self).remote_static() == old(self).remote_static(),
            final(self).remote_ephemeral() == old(self).remote_ephemeral(),
            match initiation_spec(
                old(self).transcript(),
                final(self).ephemeral().secret@,
                old(self).static_pair().secret@,
                old(self).static_pair().public@,
                old(self).remote_static(),
                sender_index,
                timestamp_ms,
                responder_sig_pubkey@,
                mac2_cookie@,
            ) {
                Ok((m, s)) => r is Ok && final(out)@ == m && final(self).transcript() == s,
                Err(e) => r == Err::<(), Error>(e),
            },
    {
        let eph_secret = crypto::random_32();
        self.write_initiation_with(eph_secret, out, sender_index, timestamp_ms, responder_sig_pubkey, mac2_cookie)
    }

    /// Reads message 2: mac1 first, then e, ee, se and the empty encrypted
    /// payload. A bad mac1 changes nothing.
    pub fn read_response(
        &mut self,
        msg2: &[u8; MSG2_SIZE],
        responder_sig_pubkey: &[u8; 32],
    ) -> (r: Result<(), Error>)
        ensures
            final(self).ephemeral() == old(self).ephemeral(),
            final(self).static_pair() == old(self).static_pair(),
            final(self).remote_static() == old(self).remote_static(),
            match response_read_spec(
                old(self).transcript(),
                old(self).ephemeral().secret@,
                old(self).static_pair().secret@,
                msg2@,
                responder_sig_pubkey@,
            ) {
                Ok(s) => r is Ok && final(self).transcript() == s && final(self).remote_ephemeral()
                    == msg2@.subrange(12, 44),
                Err(e) => r == Err::<(), Error>(e),
            },
            r == Err::<(), Error>(Error::Mac1Failed) ==> final(self).transcript() == old(self).transcript()
                && final(self).remote_ephemeral() == old(self).remote_ephemeral(),
    {
        let m = msg2.as_slice();
        let m1_in: [u8; MAC_BYTES] = copy_into(&m[60..76]);
        if !mac1::verify_mac1(responder_sig_pubkey, &m[0..60], &m1_in) {
            return Err(Error::Mac1Failed);
        }
        let eph_r: [u8; DHLEN] = copy_into(&m[12..44]);
        self.re = eph_r;
        self.sym.mix_hash(eph_r.as_slice());
        let ee = dh(&self.eph_kp.secret, &self.re)?;
        self.sym.mix_key(&ee);
        let se = dh(&self.static_kp.secret, &self.re)?;
        self.sym.mix_key(&se);
        let mut nothing: [u8; TAGLEN] = zero_array();
        self.sym.decrypt_and_hash(&mut nothing, &m[44..60])
    }

    /// The initiator sends under the first split key and receives under the
    /// second.
    pub fn finalize(self) -> (r: HandshakeResult)
        ensures
            (r.send_key@, r.recv_key@) == sym_split(self.transcript()),
            r.handshake_hash@ == self.transcript().h,
    {
        let (c1, c2) = self.sym.split();
        HandshakeResult { send_key: c1, recv_key: c2, handshake_hash: self.sym.h }
    }
}

/// What a responder learns from a valid initiation.
#[derive(Debug, PartialEq, Eq)]
pub struct InitiationInfo {
    pub sender_index: u32,
    pub initiator_static_pub: [u8; DHLEN],
    pub timestamp_ms: u64,
}

/// The Noise_IK responder.
pub struct Responder {
    static_kp: KeyPair,
    eph_kp: KeyPair,
    re: [u8; DHLEN],
    remote_static_pub: [u8; DHLEN],
    sym: SymmetricState,
}

impl Responder {
    pub closed spec fn transcript(&self) -> SymModel {
        self.sym@
    }

    pub closed spec fn ephemeral(&self) -> KeyPair {
        self.eph_kp
    }

    pub closed spec fn static_pair(&self) -> KeyPair {
        self.static_kp
    }

    pub closed spec fn remote_static(&self) -> Seq<u8> {
        self.remote_static_pub@
    }

    pub closed spec fn remote_ephemeral(&self) -> Seq<u8> {
        self.re@
    }

    /// The pre-message: the responder mixes its own static key into h.
    pub fn new(static_kp: KeyPair) -> (r: Self)
        ensures
            r.transcript() == sym_mix_hash(sym_init(), static_kp.public@),
            r.static_pair() == static_kp,
            r.ephemeral().public@ == public_of(zeros(32)),
            r.remote_static() == zeros(32),
            r.remote_ephemeral() == zeros(32),
    {
        let mut sym = SymmetricState::init();
        sym.mix_hash(static_kp.public.as_slice());
        let zero: [u8; DHLEN] = zero_array();
        Responder {
            static_kp,
            eph_kp: KeyPair::from_secret(zero),
            re: zero,
            remote_static_pub: zero,
            sym,
        }
    }

    /// Reads message 1: mac1 first, then e, es, s, ss and the timestamp.
    /// A bad mac1 changes nothing.
    pub fn read_initiation(
        &mut self,
        msg1: &[u8; MSG1_SIZE],
        own_sig_pubkey: &[u8; 32],
    ) -> (r: Result<InitiationInfo, Error>)
        ensures
            final(self).static_pair() == old(self).static_pair(),
            final(self).ephemeral() == old(self).ephemeral(),
            match initiation_read_spec(old(self).transcript(), old(self).static_pair().secret@, msg1@, own_sig_pubkey@) {
                Ok((idx, si, ts, s)) => {
                    &&& r is Ok
                    &&& r->Ok_0.sender_index == idx
                    &&& r->Ok_0.initiator_static_pub@ == si
                    &&& r->Ok_0.timestamp_ms == ts
                    &&& final(self).transcript() == s
                    &&& final(self).remote_ephemeral() == msg1@.subrange(8, 40)
                    &&& final(self).remote_static() == si
                },
                Err(e) => r == Err::<InitiationInfo, Error>(e),
            },
            r == Err::<InitiationInfo, Error>(Error::Mac1Failed) ==> final(self).transcript()
                == old(self).transcript() && final(self).remote_ephemeral() == old(self).remote_ephemeral()
                && final(self).remote_static() == old(self).remote_static(),
    {
        let m = msg1.as_slice();
        let m1_in: [u8; MAC_BYTES] = copy_into(&m[112..128]);
        if !mac1::verify_mac1(own_sig_pubkey, &m[0..112], &m1_in) {
            return Err(Error::Mac1Failed);
        }
        let eph_i: [u8; DHLEN] = copy_into(&m[8..40]);
        self.re = eph_i;
        self.sym.mix_hash(eph_i.as_slice());
        let es = dh(&self.static_kp.secret, &self.re)?;
        self.sym.mix_key(&es);
        let mut static_i: [u8; DHLEN] = zero_array();
        self.sym.decrypt_and_hash(&mut static_i, &m[40..88])?;
        assert(static_i@ =~= static_i@.subrange(0, 32));
        self.remote_static_pub = static_i;
        let ss = dh(&self.static_kp.secret, &self.remote_static_pub)?;
        self.sym.mix_key(&ss);
        let mut ts: [u8; 8] = zero_array();
        self.sym.decrypt_and_hash(&mut ts, &m[88..112])?;
        let timestamp_ms = read_u64be(ts.as_slice());
        assert(ts@.subrange(0, 8) =~= ts@);
        let sender_index = read_u32be(&m[4..8]);
        assert(m@.subrange(4, 8).subrange(0, 4) =~= m@.subrange(4, 8));
        Ok(InitiationInfo { sender_index, initiator_static_pub: static_i, timestamp_ms })
    }

    /// Writes message 2 with the given ephemeral secret: our slot as the
    /// sender index, the initiator's index echoed as the receiver index.
    pub fn write_response_with(
        &mut self,
        eph_secret: [u8; DHLEN],
        out: &mut [u8; MSG2_SIZE],
        sender_index: u32,
        receiver_index: u32,
        own_sig_pubkey: &[u8; 32],
        mac2_cookie: &[u8; MAC_BYTES],
    ) -> (r: Result<(), Error>)
        ensures
            final(self).ephemeral().secret == eph_secret,
            final(self).ephemeral().public@ == public_of(eph_secret@),
            final(self).static_pair() == old(self).static_pair(),
            final(self).remote_static() == old(self).remote_static(),
            final(self).remote_ephemeral() == old(self).remote_ephemeral(),
            match response_spec(
                old(self).transcript(),
                eph_secret@,
                old(self).remote_ephemeral(),
                old(self).remote_static(),
                sender_index,
                receiver_index,
                own_sig_pubkey@,
                mac2_cookie@,
            ) {
                Ok((m, s)) => r is Ok && final(out)@ == m && final(self).transcript() == s,
                Err(e) => r == Err::<(), Error>(e),
            },
    {
        self.eph_kp = KeyPair::from_secret(eph_secret);
        let e_pk = self.eph_kp.public;
        let mut head: Vec<u8> = vec![2u8, 0, 0, 0];
        assert(head@ =~= seq![2u8, 0, 0, 0]);
        push_u32be(&mut head, sender_index);
        push_u32be(&mut head, receiver_index);
        push_bytes(&mut head, e_pk.as_slice());
        write_at(out, 0, head.as_slice());
        self.sym.mix_hash(e_pk.as_slice());
        let ee = dh(&self.eph_kp.secret, &self.re)?;
        self.sym.mix_key(&ee);
        let se = dh(&self.eph_kp.secret, &self.remote_static_pub)?;
        self.sym.mix_key(&se);
        let empty: Vec<u8> = Vec::new();
        assert(empty@ =~= Seq::<u8>::empty());
        let mut nothing: [u8; TAGLEN] = zero_array();
        self.sym.encrypt_and_hash(&mut nothing, empty.as_slice());
        push_bytes(&mut head, nothing.as_slice());
        *out = seal_frame(&mut head, own_sig_pubkey, mac2_cookie);
        Ok(())
    }

    /// Writes message 2 with a fresh ephemeral secret from the operating
    /// system.
    pub fn write_response(
        &mut self,
        out: &mut [u8; MSG2_SIZE],
        sender_index: u32,
        receiver_index: u32,
        own_sig_pubkey: &[u8; 32],
        mac2_cookie: &[u8; MAC_BYTES],
    ) -> (r: Result<(), Error>)
        ensures
            final(self).ephemeral().public@ == public_of(final(self).ephemeral().secret@),
            final(self).static_pair() == old(self).static_pair(),
            final(self).remote_static() == old(self).remote_static(),
            final(self).remote_ephemeral() == old(self).remote_ephemeral(),
            match response_spec(
                old(self).transcript(),
                final(self).ephemeral().secret@,
                old(self).remote_ephemeral(),
                old(self).remote_static(),
                sender_index,
                receiver_index,
                own_sig_pubkey@,
                mac2_cookie@,
            ) {
                Ok((m, s)) => r is Ok && final(out)@ == m && final(self).transcript() == s,
                Err(e) => r == Err::<(), Error>(e),
            },
    {
        let eph_secret = crypto::random_32();
        self.write_response_with(eph_secret, out, sender_index, receiver_index, own_sig_pubkey, mac2_cookie)
    }

    /// The responder sends under the second split key and receives under the
    /// first: the swap of the initiator's pair.
    pub fn finalize(self) -> (r: HandshakeResult)
        ensures
            (r.recv_key@, r.send_key@) == sym_split(self.transcript()),
            r.handshake_hash@ == self.transcript().h,
    {
        let (c1, c2) = self.sym.split();
        HandshakeResult { send_key: c2, recv_key: c1, handshake_hash: self.sym.h }
    }
}


// --- agreement ------------------------------------------------------------

/// What the handshake relies on from its primitives, as their documentation
/// gives it: output lengths; X25519 is a Diffie-Hellman function (either
/// secret with the other's public key gives the same value); and
/// ChaCha20-Poly1305 opens what it sealed under the same key, nonce and
/// associated data.
pub open spec fn primitives_behave() -> bool {
    &&& forall|d: Seq<u8>| #[trigger] crypto::blake2s256_spec(d).len() == 32
    &&& forall|k: Seq<u8>, m: Seq<u8>|
        k.len() == 32 ==> #[trigger] crypto::blake2s_mac128_spec(k, m).len() == 16
    &&& forall|a: Seq<u8>, u: Seq<u8>|
        a.len() == 32 && u.len() == 32 ==> #[trigger] crypto::x25519_spec(a, u).len() == 32
    &&& forall|a: Seq<u8>, b: Seq<u8>|
        a.len() == 32 && b.len() == 32 ==> #[trigger] crypto::x25519_spec(a, public_of(b))
            == crypto::x25519_spec(b, public_of(a))
    &&& forall|k: Seq<u8>, n: Seq<u8>, ad: Seq<u8>, p: Seq<u8>|
        k.len() == 32 && n.len() == 12 && p.len() / 64 < 0xffff_ffff ==> {
            &&& (#[trigger] crypto::aead_seal_spec(k, n, ad, p)).len() == p.len() + 16
            &&& crypto::aead_open_spec(k, n, ad, crypto::aead_seal_spec(k, n, ad, p)) == Some(p)
        }
}

proof fn lemma_keyed_lengths(s: SymModel, ikm: Seq<u8>)
    requires
        primitives_behave(),
    ensures
        sym_mix_key(s, ikm).k.len() == 32,
        sym_mix_key(s, ikm).ck.len() == 32,
{
}

proof fn lemma_seal_opens(s: SymModel, pt: Seq<u8>)
    requires
        primitives_behave(),
        s.has_key,
        s.k.len() == 32,
        s.n < u64::MAX,
        pt.len() < 64,
    ensures
        sym_encrypt(s, pt).1.len() == pt.len() + 16,
        sym_decrypt(s, sym_encrypt(s, pt).1) == Some((sym_encrypt(s, pt).0, pt)),
{
    assert(nonce_spec(s.n).len() == 12);
    let c = crypto::aead_seal_spec(s.k, nonce_spec(s.n), s.h, pt);
    assert(c.len() == pt.len() + 16);
}

/// Handshake agreement. Both parties start from the pre-message on the
/// responder's static key, each static pair is a real pair, and the
/// primitives behave as documented. Then a responder reading the
/// initiator's message 1 accepts it, recovers the initiator's sender index,
/// static key and timestamp, and reaches the initiator's transcript; and
/// when it answers with message 2, the initiator reading that message
/// accepts it and reaches the responder's transcript, so the two split the
/// same pair of keys (each sends on the key the other receives on).
pub proof fn lemma_handshake_agreement(
    s_i: Seq<u8>,
    e_i: Seq<u8>,
    s_r: Seq<u8>,
    e_r: Seq<u8>,
    sender_index: u32,
    timestamp_ms: u64,
    responder_index: u32,
    sig_pubkey: Seq<u8>,
    cookie1: Seq<u8>,
    cookie2: Seq<u8>,
)
    requires
        primitives_behave(),
        s_i.len() == 32,
        e_i.len() == 32,
        s_r.len() == 32,
        e_r.len() == 32,
        sig_pubkey.len() == 32,
        cookie1.len() == 16,
        cookie2.len() == 16,
    ensures
        ({
            let sym0 = sym_mix_hash(sym_init(), public_of(s_r));
            match initiation_spec(
                sym0,
                e_i,
                s_i,
                public_of(s_i),
                public_of(s_r),
                sender_index,
                timestamp_ms,
                sig_pubkey,
                cookie1,
            ) {
                Ok((m1, t1)) => {
                    &&& initiation_read_spec(sym0, s_r, m1, sig_pubkey) == Ok::<
                        (u32, Seq<u8>, u64, SymModel),
                        Error,
                    >((sender_index, public_of(s_i), timestamp_ms, t1))
                    &&& match response_spec(
                        t1,
                        e_r,
                        m1.subrange(8, 40),
                        public_of(s_i),
                        responder_index,
                        sender_index,
                        sig_pubkey,
                        cookie2,
                    ) {
                        Ok((m2, t2)) => response_read_spec(t1, e_i, s_i, m2, sig_pubkey) == Ok::<
                            SymModel,
                            Error,
                        >(t2),
                        Err(_) => true,
                    }
                },
                Err(_) => true,
            }
        }),
{
    let sym0 = sym_mix_hash(sym_init(), public_of(s_r));
    let rs = public_of(s_r);
    let si_pk = public_of(s_i);
    let e_pk = public_of(e_i);
    assert(basepoint().len() == 32);
    assert(rs.len() == 32 && si_pk.len() == 32 && e_pk.len() == 32);
    if let Ok((m1, t1)) = initiation_spec(
        sym0,
        e_i,
        s_i,
        si_pk,
        rs,
        sender_index,
        timestamp_ms,
        sig_pubkey,
        cookie1,
    ) {
        // The initiator's side, step by step.
        let s1 = sym_mix_hash(sym0, e_pk);
        let es = spec_dh(e_i, rs)->Some_0;
        let s2 = sym_mix_key(s1, es);
        lemma_keyed_lengths(s1, es);
        lemma_seal_opens(s2, si_pk);
        let (s3, enc_static) = sym_encrypt(s2, si_pk);
        let ss = spec_dh(s_i, rs)->Some_0;
        let s4 = sym_mix_key(s3, ss);
        lemma_keyed_lengths(s3, ss);
        assert(u64_bytes(timestamp_ms).len() == 8);
        lemma_seal_opens(s4, u64_bytes(timestamp_ms));
        let (s5, enc_ts) = sym_encrypt(s4, u64_bytes(timestamp_ms));
        let head = seq![1u8, 0, 0, 0] + u32_bytes(sender_index) + e_pk + enc_static + enc_ts;
        assert(head.len() == 112);
        assert(m1 == head + mac1_spec(sig_pubkey, head) + cookie1);
        assert(t1 == s5);
        // The responder reads the same bytes.
        assert(m1.subrange(0, 112) =~= head);
        assert(m1.subrange(112, 128) =~= mac1_spec(sig_pubkey, head));
        assert(m1.subrange(8, 40) =~= e_pk);
        assert(m1.subrange(40, 88) =~= enc_static);
        assert(m1.subrange(88, 112) =~= enc_ts);
        assert(m1.subrange(4, 8) =~= u32_bytes(sender_index));
        lemma_be32_u32_bytes(sender_index);
        lemma_be64_u64_bytes(timestamp_ms);
        assert(crypto::x25519_spec(s_r, e_pk) == crypto::x25519_spec(e_i, rs));
        assert(crypto::x25519_spec(s_r, si_pk) == crypto::x25519_spec(s_i, rs));
        assert(initiation_read_spec(sym0, s_r, m1, sig_pubkey) == Ok::<
            (u32, Seq<u8>, u64, SymModel),
            Error,
        >((sender_index, si_pk, timestamp_ms, t1)));
        // The answer.
        let re = m1.subrange(8, 40);
        if let Ok((m2, t2)) = response_spec(
            t1,
            e_r,
            re,
            si_pk,
            responder_index,
            sender_index,
            sig_pubkey,
            cookie2,
        ) {
            let r_pk = public_of(e_r);
            assert(r_pk.len() == 32);
            let q1 = sym_mix_hash(t1, r_pk);
            let ee = spec_dh(e_r, re)->Some_0;
            let se = spec_dh(e_r, si_pk)->Some_0;
            let q2 = sym_mix_key(q1, ee);
            let q3 = sym_mix_key(q2, se);
            lemma_keyed_lengths(q2, se);
            lemma_seal_opens(q3, Seq::empty());
            let (q4, enc_nothing) = sym_encrypt(q3, Seq::empty());
            let head2 = seq![2u8, 0, 0, 0] + u32_bytes(responder_index) + u32_bytes(sender_index)
                + r_pk + enc_nothing;
            assert(head2.len() == 60);
            assert(m2 == head2 + mac1_spec(sig_pubkey, head2) + cookie2);
            assert(m2.subrange(0, 60) =~= head2);
            assert(m2.subrange(60, 76) =~= mac1_spec(sig_pubkey, head2));
            assert(m2.subrange(12, 44) =~= r_pk);
            assert(m2.subrange(44, 60) =~= enc_nothing);
            assert(crypto::x25519_spec(e_i, r_pk) == crypto::x25519_spec(e_r, e_pk));
            assert(crypto::x25519_spec(s_i, r_pk) == crypto::x25519_spec(e_r, si_pk));
            assert(response_read_spec(t1, e_i, s_i, m2, sig_pubkey) == Ok::<SymModel, Error>(t2));
        }
    }
}

} // verus!
