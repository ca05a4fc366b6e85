//! mac1: the denial-of-service gate in front of the handshake. The key is an
//! unkeyed BLAKE2s-256 over a fixed label followed by the responder's Ed25519
//! public key; the tag is keyed BLAKE2s-128 over the message bytes that
//! precede it. A responder checks the tag before any X25519 work, so a flood
//! of forged handshakes costs one hash each.

use vstd::prelude::*;
use crate::codec::push_bytes;
use crate::crypto;

verus! {

pub const MAC_BYTES: usize = 16;

/// The label "bolina-mac1-v2" in ASCII.
pub open spec fn mac1_label() -> Seq<u8> {
    seq![98u8, 111, 108, 105, 110, 97, 45, 109, 97, 99, 49, 45, 118, 50]
}

/// The MAC key for a responder: BLAKE2s-256(label || responder key).
pub open spec fn mac1_key_spec(responder_sig_pubkey: Seq<u8>) -> Seq<u8> {
    crypto::blake2s256_spec(mac1_label() + responder_sig_pubkey)
}

/// The mac1 tag over the bytes that precede it.
pub open spec fn mac1_spec(responder_sig_pubkey: Seq<u8>, msg_preceding: Seq<u8>) -> Seq<u8> {
    crypto::blake2s_mac128_spec(mac1_key_spec(responder_sig_pubkey), msg_preceding)
}

fn mac1_label_bytes() -> (r: Vec<u8>)
    ensures
        r@ == mac1_label(),
{
    let r: Vec<u8> = vec![98u8, 111, 108, 105, 110, 97, 45, 109, 97, 99, 49, 45, 118, 50];
    assert(r@ =~= mac1_label());
    r
}

fn mac1_key(responder_sig_pubkey: &[u8; 32]) -> (k: [u8; 32])
    ensures
        k@ == mac1_key_spec(responder_sig_pubkey@),
{
    let mut buf = mac1_label_bytes();
    push_bytes(&mut buf, responder_sig_pubkey.as_slice());
    crypto::blake2s256(buf.as_slice())
}

/// The mac1 tag of `msg_preceding` for the responder whose signing key is
/// `responder_sig_pubkey`.
pub fn compute_mac1(responder_sig_pubkey: &[u8; 32], msg_preceding: &[u8]) -> (m: [u8; MAC_BYTES])
    ensures
        m@ == mac1_spec(responder_sig_pubkey@, msg_preceding@),
{
    let key = mac1_key(responder_sig_pubkey);
    crypto::blake2s_mac128(&key, msg_preceding)
}

/// Whether `received` is the mac1 tag of `msg_preceding`, compared in
/// constant time.
pub fn verify_mac1(
    responder_sig_pubkey: &[u8; 32],
    msg_preceding: &[u8],
    received: &[u8; MAC_BYTES],
) -> (ok: bool)
    ensures
        ok == (received@ == mac1_spec(responder_sig_pubkey@, msg_preceding@)),
{
    let m = compute_mac1(responder_sig_pubkey, msg_preceding);
    crypto::ct_eq(m.as_slice(), received.as_slice())
}

} // verus!
