//! The node's key material: the decisions the key loader makes over what
//! it read. Files are read and written by the program; here, a present key
//! file of the wrong size is corruption (never a silent regeneration), a
//! stored public key must match the one derived from the secret, and a
//! certificate larger than `MAX_CERT` is refused.

use vstd::prelude::*;
use crate::codec::copy_into;
use crate::transport::noise::{public_of, KeyPair};
use crate::transport::resolver::{executor_fp, spec_executor_fp};

verus! {

pub const MAX_CAS: usize = 8;
pub const MAX_CERT: usize = 1024;
pub const KEY_LEN: usize = 32;
pub const MAX_PATH: usize = 256;

#[derive(Debug, Clone, Copy, PartialEq, Eq, Structural)]
pub enum KeysError {
    DataDirUnwritable,
    KeyFileCorrupt,
    PubMismatch,
    CertTooLarge,
    DiskError,
}

/// The hex fingerprint of a public key: the same value the resolver uses
/// for executor fingerprints.
pub fn fingerprint(pubkey: &[u8]) -> (fp: [u8; 16])
    ensures
        fp@ == spec_executor_fp(pubkey@),
{
    executor_fp(pubkey)
}

/// The key held in a key file's bytes; any other size than 32 is
/// corruption.
pub fn key_from_file(bytes: &[u8]) -> (r: Result<[u8; KEY_LEN], KeysError>)
    ensures
        bytes@.len() == KEY_LEN ==> r is Ok && r->Ok_0@ == bytes@,
        bytes@.len() != KEY_LEN ==> r == Err::<[u8; KEY_LEN], KeysError>(KeysError::KeyFileCorrupt),
{
    if bytes.len() != KEY_LEN {
        return Err(KeysError::KeyFileCorrupt);
    }
    Ok(copy_into(bytes))
}

/// The X25519 public key of the static secret.
pub fn derive_static_pub(secret: [u8; KEY_LEN]) -> (p: [u8; KEY_LEN])
    ensures
        p@ == public_of(secret@),
{
    KeyPair::from_secret(secret).public
}

/// The Ed25519 public key of the signing seed.
pub fn sig_pub(seed: &[u8; KEY_LEN]) -> (p: [u8; KEY_LEN])
    ensures
        p@ == crate::crypto::ed25519_public_spec(seed@),
{
    crate::crypto::ed25519_public(seed)
}

fn timing_safe_eq(a: &[u8], b: &[u8]) -> (eq: bool)
    ensures
        eq == (a@ == b@),
{
    if a.len() != b.len() {
        return false;
    }
    let mut diff: u8 = 0;
    let mut i: usize = 0;
    while i < a.len()
        invariant
            a@.len() == b@.len(),
            i <= a@.len(),
            (diff == 0) == (forall|k: int| 0 <= k < i ==> a@[k] == b@[k]),
        decreases a@.len() - i,
    {
        let x = a[i];
        let y = b[i];
        assert(((diff | (x ^ y)) == 0u8) == (diff == 0u8 && x == y)) by (bit_vector);
        diff = diff | (x ^ y);
        i = i + 1;
    }
    assert((diff == 0) ==> a@ =~= b@);
    diff == 0
}

/// A stored public key must be the one derived from the secret; a
/// tampered one is `PubMismatch`, distinct from a missing or corrupt file.
/// Compared without early exit.
pub fn check_stored_pub(stored: &[u8], derived: &[u8; KEY_LEN]) -> (r: Result<(), KeysError>)
    ensures
        stored@ == derived@ ==> r is Ok,
        stored@ != derived@ ==> r == Err::<(), KeysError>(KeysError::PubMismatch),
{
    if !timing_safe_eq(stored, derived.as_slice()) {
        return Err(KeysError::PubMismatch);
    }
    Ok(())
}

/// The certificate as read, verbatim up to `MAX_CERT` bytes; larger is
/// refused. An absent certificate is the empty one (unbound-accept mode).
pub fn check_cert(cert: Vec<u8>) -> (r: Result<Vec<u8>, KeysError>)
    ensures
        cert@.len() <= MAX_CERT ==> r is Ok && r->Ok_0@ == cert@,
        cert@.len() > MAX_CERT ==> r == Err::<Vec<u8>, KeysError>(KeysError::CertTooLarge),
{
    if cert.len() > MAX_CERT {
        return Err(KeysError::CertTooLarge);
    }
    Ok(cert)
}

} // verus!
