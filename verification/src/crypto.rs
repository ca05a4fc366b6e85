//! Cryptographic primitives the protocol is built on. Each function here
//! makes one call into an audited outside crate; what is believed of the call
//! is written in its contract.

use vstd::prelude::*;
use blake2::digest::consts::U16;
use blake2::digest::{KeyInit, Mac};
use blake2::{Blake2s256, Blake2sMac, Digest};
use chacha20poly1305::aead::{Aead, Payload};
use chacha20poly1305::{ChaCha20Poly1305, Nonce};
use ed25519_dalek::{Signature, Signer, SigningKey, Verifier, VerifyingKey};
use rand_core::{OsRng, RngCore};
use subtle::ConstantTimeEq;

verus! {

/// The BLAKE2s-256 digest of a byte string.
pub uninterp spec fn blake2s256_spec(data: Seq<u8>) -> Seq<u8>;

/// Calls `blake2::Blake2s256` (new, update, finalize) over `data`. Trusted:
/// the 32-byte output is the digest named `blake2s256_spec` of the input.
#[verifier::external_body]
pub(crate) fn blake2s256(data: &[u8]) -> (out: [u8; 32])
    ensures
        out@ == blake2s256_spec(data@),
{
    let mut h = Blake2s256::new();
    h.update(data);
    h.finalize().into()
}


/// Whether `sig` is an Ed25519 signature over `msg` under the public key
/// `key` (RFC 8032 verification as the ed25519-dalek crate performs it).
pub uninterp spec fn ed25519_verify_spec(key: Seq<u8>, msg: Seq<u8>, sig: Seq<u8>) -> bool;

/// Calls `ed25519_dalek::VerifyingKey::from_bytes` on the key,
/// `Signature::from_slice` on the signature and `Verifier::verify` on the
/// message; false when any of them fails. Trusted: the answer is the
/// predicate named `ed25519_verify_spec` of the three inputs, and false when
/// the signature is not 64 bytes long (`from_slice` refuses other lengths).
#[verifier::external_body]
pub(crate) fn ed25519_verify(key: &[u8], msg: &[u8], sig: &[u8]) -> (ok: bool)
    requires
        key@.len() == 32,
    ensures
        ok == ed25519_verify_spec(key@, msg@, sig@),
        sig@.len() != 64 ==> !ok,
{
    let key: &[u8; 32] = key.try_into().unwrap();
    let (Ok(k), Ok(s)) = (VerifyingKey::from_bytes(key), Signature::from_slice(sig)) else {
        return false;
    };
    k.verify(msg, &s).is_ok()
}

/// The Ed25519 signature over `msg` by the key whose 32-byte secret seed is
/// `seed` (RFC 8032: deterministic, a function of seed and message alone).
pub uninterp spec fn ed25519_sign_spec(seed: Seq<u8>, msg: Seq<u8>) -> Seq<u8>;

/// The Ed25519 public key of the 32-byte secret seed `seed` (RFC 8032
/// key generation: a function of the seed alone).
pub uninterp spec fn ed25519_public_spec(seed: Seq<u8>) -> Seq<u8>;

/// Calls `ed25519_dalek::SigningKey::from_bytes` on the seed, then
/// `verifying_key` and `to_bytes`. Trusted: the 32 bytes are the value
/// named `ed25519_public_spec` of the seed.
#[verifier::external_body]
pub(crate) fn ed25519_public(seed: &[u8; 32]) -> (pk: [u8; 32])
    ensures
        pk@ == ed25519_public_spec(seed@),
{
    SigningKey::from_bytes(seed).verifying_key().to_bytes()
}

/// Calls `ed25519_dalek::SigningKey::from_bytes` on the seed and
/// `Signer::sign` on the message. Trusted: the 64 signature bytes are the
/// value named `ed25519_sign_spec` of seed and message, and they verify
/// over the message under the seed's public key (RFC 8032: a signature made
/// with a signing key is valid under its verifying key, which is what
/// `ed25519_verify` checks).
#[verifier::external_body]
pub(crate) fn ed25519_sign(seed: &[u8; 32], msg: &[u8]) -> (sig: [u8; 64])
    ensures
        sig@ == ed25519_sign_spec(seed@, msg@),
        ed25519_verify_spec(ed25519_public_spec(seed@), msg@, sig@),
{
    SigningKey::from_bytes(seed).sign(msg).to_bytes()
}

/// BLAKE2s with a 16-byte output, keyed (RFC 7693 keyed mode).
pub uninterp spec fn blake2s_mac128_spec(key: Seq<u8>, msg: Seq<u8>) -> Seq<u8>;

/// Calls `blake2::Blake2sMac<U16>` (new_from_slice with the 32-byte key,
/// update, finalize). Trusted: the tag is the value named
/// `blake2s_mac128_spec` of key and message; a 32-byte key is always
/// accepted (BLAKE2s keys go up to 32 bytes).
#[verifier::external_body]
pub(crate) fn blake2s_mac128(key: &[u8; 32], msg: &[u8]) -> (tag: [u8; 16])
    ensures
        tag@ == blake2s_mac128_spec(key@, msg@),
{
    let mut mac = <Blake2sMac<U16> as KeyInit>::new_from_slice(key).unwrap();
    Mac::update(&mut mac, msg);
    mac.finalize().into_bytes().into()
}

/// Calls `subtle::ConstantTimeEq::ct_eq` on two byte slices. Trusted, per
/// its source: the answer is 1 exactly when the lengths agree and every
/// byte does.
#[verifier::external_body]
pub(crate) fn ct_eq(a: &[u8], b: &[u8]) -> (eq: bool)
    ensures
        eq == (a@ == b@),
{
    a.ct_eq(b).into()
}

/// The X25519 function of a scalar and a u-coordinate.
pub uninterp spec fn x25519_spec(k: Seq<u8>, u: Seq<u8>) -> Seq<u8>;

/// Calls `x25519_dalek::x25519`. Trusted: the result is the value named
/// `x25519_spec` of its two arguments.
#[verifier::external_body]
pub(crate) fn x25519(k: [u8; 32], u: [u8; 32]) -> (r: [u8; 32])
    ensures
        r@ == x25519_spec(k@, u@),
{
    x25519_dalek::x25519(k, u)
}

/// ChaCha20-Poly1305 (RFC 8439): the ciphertext followed by the 16-byte tag.
pub uninterp spec fn aead_seal_spec(key: Seq<u8>, nonce: Seq<u8>, ad: Seq<u8>, pt: Seq<u8>) -> Seq<u8>;

/// ChaCha20-Poly1305 decryption of ciphertext-with-tag: the plaintext, or
/// nothing when the tag does not authenticate.
pub uninterp spec fn aead_open_spec(key: Seq<u8>, nonce: Seq<u8>, ad: Seq<u8>, ct: Seq<u8>) -> Option<Seq<u8>>;

/// Calls `Aead::encrypt` of `chacha20poly1305::ChaCha20Poly1305`. Trusted,
/// per its source: it fails exactly when the message is 2^32 - 1 blocks of
/// 64 bytes or longer; otherwise the output is the value named
/// `aead_seal_spec`, 16 bytes longer than the plaintext.
#[verifier::external_body]
pub(crate) fn aead_seal(key: &[u8; 32], nonce: &[u8; 12], ad: &[u8], pt: &[u8]) -> (r: Option<Vec<u8>>)
    ensures
        r is Some <==> pt@.len() / 64 < 0xffff_ffff,
        r matches Some(c) ==> c@ == aead_seal_spec(key@, nonce@, ad@, pt@) && c@.len() == pt@.len() + 16,
{
    ChaCha20Poly1305::new(key.into()).encrypt(Nonce::from_slice(nonce), Payload { msg: pt, aad: ad }).ok()
}

/// Calls `Aead::decrypt` of `chacha20poly1305::ChaCha20Poly1305`. Trusted,
/// per its source: a ciphertext shorter than the tag is refused; otherwise
/// the result is the value named `aead_open_spec`, 16 bytes shorter than
/// the ciphertext when it authenticates.
#[verifier::external_body]
pub(crate) fn aead_open(key: &[u8; 32], nonce: &[u8; 12], ad: &[u8], ct: &[u8]) -> (r: Option<Vec<u8>>)
    ensures
        ct@.len() < 16 ==> r is None,
        match aead_open_spec(key@, nonce@, ad@, ct@) {
            Some(p) => r is Some && r->Some_0@ == p,
            None => r is None,
        },
        r matches Some(p) ==> p@.len() == ct@.len() - 16,
{
    ChaCha20Poly1305::new(key.into()).decrypt(Nonce::from_slice(nonce), Payload { msg: ct, aad: ad }).ok()
}

/// Calls `rand_core::OsRng::fill_bytes` on 32 bytes: fresh randomness from
/// the operating system. Nothing is claimed of the bytes.
#[verifier::external_body]
pub(crate) fn random_32() -> (r: [u8; 32]) {
    let mut s = [0u8; 32];
    OsRng.fill_bytes(&mut s);
    s
}

} // verus!
