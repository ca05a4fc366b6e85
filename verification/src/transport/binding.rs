//! The identity chain and the session binding: a certificate is checked
//! against the trusted CA keys (roles, lifetime, every CA signature), and
//! an authenticated session is bound by an Ed25519 signature over the Noise
//! transcript hash, made with the certificate's signing key.

use vstd::prelude::*;
use crate::codec::{bytes_eq, spec_verify_signed, verify_signed, DOMAIN_CERT};
use crate::crypto;

verus! {

pub const DOMAIN_BINDING: u8 = 0x05;
pub const ROLE_AGENT: u8 = 2;
pub const ROLE_EXECUTOR: u8 = 4;
pub const ROLE_APPROVER: u8 = 8;
pub const MAX_PRIVILEGED_LIFETIME_MS: u64 = 2_592_000_000;
pub const APPROVER_QUORUM: u8 = 2;
pub const LEN_OVERLAY_ADDR: usize = 16;
pub const OVERLAY_PREFIX: u8 = 0xfd;
pub const LEN_CA_KEY: usize = 32;
pub const LEN_CA_SIG: usize = 64;

#[derive(Debug, Clone, Copy, PartialEq, Eq, Structural)]
pub enum BindingError {
    MalformedKey,
    BadCaSignature,
    UntrustedCa,
    CertExpired,
    CertTooLongLived,
    RoleAgentApprover,
    RoleAgentExecutor,
    RoleApproverExecutor,
    ApproverNoQuorum,
    BadBindingSig,
    KexPubkeyMismatch,
}

/// The structural failures, those found without a clock.
#[derive(Debug, Clone, Copy, PartialEq, Eq, Structural)]
pub enum CertChainError {
    MalformedKey,
    BadCaSignature,
    UntrustedCa,
    CertTooLongLived,
    RoleAgentApprover,
    RoleAgentExecutor,
    RoleApproverExecutor,
    ApproverNoQuorum,
}

/// A parsed certificate as validation reads it. `ca_sigs` packs
/// `ca_sig_count` pairs of a CA key (32 bytes) and its signature (64 bytes)
/// over `tbs`.
pub struct CertView<'a> {
    pub sig_pubkey: &'a [u8],
    pub kex_pubkey: &'a [u8],
    pub role_bits: u8,
    pub not_before: u64,
    pub not_after: u64,
    pub tbs: &'a [u8],
    pub ca_sigs: &'a [u8],
    pub ca_sig_count: usize,
}

pub open spec fn has_role(role_bits: u8, role: u8) -> bool {
    role_bits & role != 0
}

/// The forbidden role pairings, in the order they are checked.
pub open spec fn role_error(role_bits: u8) -> Option<CertChainError> {
    let agent = has_role(role_bits, ROLE_AGENT);
    let approver = has_role(role_bits, ROLE_APPROVER);
    let executor = has_role(role_bits, ROLE_EXECUTOR);
    if agent && approver {
        Some(CertChainError::RoleAgentApprover)
    } else if agent && executor {
        Some(CertChainError::RoleAgentExecutor)
    } else if approver && executor {
        Some(CertChainError::RoleApproverExecutor)
    } else {
        None
    }
}

/// No role may be held with one that checks it.
pub fn check_role_constraints(role_bits: u8) -> (r: Result<(), CertChainError>)
    ensures
        match role_error(role_bits) {
            Some(e) => r == Err::<(), CertChainError>(e),
            None => r is Ok,
        },
{
    let agent = (role_bits & ROLE_AGENT) != 0;
    let approver = (role_bits & ROLE_APPROVER) != 0;
    let executor = (role_bits & ROLE_EXECUTOR) != 0;
    if agent && approver {
        return Err(CertChainError::RoleAgentApprover);
    }
    if agent && executor {
        return Err(CertChainError::RoleAgentExecutor);
    }
    if approver && executor {
        return Err(CertChainError::RoleApproverExecutor);
    }
    Ok(())
}

/// The overlay address of a signing key: 0xfd, then the first fifteen
/// bytes of BLAKE2s-256 of the key.
pub open spec fn overlay_addr_spec(sig_pubkey: Seq<u8>) -> Seq<u8> {
    seq![OVERLAY_PREFIX] + crypto::blake2s256_spec(sig_pubkey).subrange(0, 15)
}

pub fn derive_overlay_addr(sig_pubkey: &[u8]) -> (addr: [u8; LEN_OVERLAY_ADDR])
    ensures
        addr@ == overlay_addr_spec(sig_pubkey@),
{
    let digest = crypto::blake2s256(sig_pubkey);
    let mut addr: [u8; LEN_OVERLAY_ADDR] = [0u8; 16];
    addr[0] = OVERLAY_PREFIX;
    let mut i: usize = 1;
    while i < LEN_OVERLAY_ADDR
        invariant
            1 <= i <= LEN_OVERLAY_ADDR,
            addr@.len() == LEN_OVERLAY_ADDR,
            digest@.len() == 32,
            addr@[0] == OVERLAY_PREFIX,
            forall|j: int| 1 <= j < i ==> addr@[j] == digest@[j - 1],
        decreases LEN_OVERLAY_ADDR - i,
    {
        addr[i] = digest[i - 1];
        i = i + 1;
    }
    assert(addr@ =~= overlay_addr_spec(sig_pubkey@));
    addr
}

/// The views of the trusted keys.
pub open spec fn key_views(trusted: Seq<&[u8]>) -> Seq<Seq<u8>> {
    Seq::new(trusted.len(), |i: int| trusted[i]@)
}

pub open spec fn trusted_key(ca_key: Seq<u8>, trusted: Seq<Seq<u8>>) -> bool {
    exists|i: int| 0 <= i < trusted.len() && trusted[i] == ca_key
}

fn in_trust_set(ca_key: &[u8], trusted: &[&[u8]]) -> (b: bool)
    ensures
        b == trusted_key(ca_key@, key_views(trusted@)),
{
    let mut i: usize = 0;
    while i < trusted.len()
        invariant
            i <= trusted@.len(),
            forall|j: int| 0 <= j < i ==> key_views(trusted@)[j] != ca_key@,
        decreases trusted@.len() - i,
    {
        if bytes_eq(trusted[i], ca_key) {
            assert(key_views(trusted@)[i as int] == ca_key@);
            return true;
        }
        i = i + 1;
    }
    false
}

/// The CA key of pair `i`.
pub open spec fn ca_key_at(ca_sigs: Seq<u8>, i: int) -> Seq<u8> {
    ca_sigs.subrange(i * 96, i * 96 + 32)
}

/// The CA signature of pair `i`.
pub open spec fn ca_sig_at(ca_sigs: Seq<u8>, i: int) -> Seq<u8> {
    ca_sigs.subrange(i * 96 + 32, i * 96 + 96)
}

/// The first failure among the CA pairs from `i` on: a pair that does not
/// fit, or whose signature does not verify, is `BadCaSignature`; a
/// verifying pair under a key outside the trust set is `UntrustedCa`.
pub open spec fn ca_pairs_error(
    tbs: Seq<u8>,
    ca_sigs: Seq<u8>,
    count: int,
    trusted: Seq<Seq<u8>>,
    i: int,
) -> Option<CertChainError>
    decreases count - i,
{
    if i >= count || i < 0 {
        None
    } else if i * 96 + 96 > ca_sigs.len() {
        Some(CertChainError::BadCaSignature)
    } else if !spec_verify_signed(DOMAIN_CERT, tbs, ca_sig_at(ca_sigs, i), ca_key_at(ca_sigs, i)) {
        Some(CertChainError::BadCaSignature)
    } else if !trusted_key(ca_key_at(ca_sigs, i), trusted) {
        Some(CertChainError::UntrustedCa)
    } else {
        ca_pairs_error(tbs, ca_sigs, count, trusted, i + 1)
    }
}

/// The first structural failure of a certificate, in the order checked:
/// roles, approver quorum, privileged lifetime, then the CA pairs.
pub open spec fn chain_error(cert: &CertView<'_>, trusted: Seq<Seq<u8>>) -> Option<CertChainError> {
    let privileged = has_role(cert.role_bits, ROLE_APPROVER) || has_role(cert.role_bits, ROLE_EXECUTOR);
    let lifetime = if cert.not_after >= cert.not_before { cert.not_after - cert.not_before } else { 0 };
    if role_error(cert.role_bits) is Some {
        role_error(cert.role_bits)
    } else if has_role(cert.role_bits, ROLE_APPROVER) && cert.ca_sig_count < APPROVER_QUORUM {
        Some(CertChainError::ApproverNoQuorum)
    } else if privileged && lifetime > MAX_PRIVILEGED_LIFETIME_MS {
        Some(CertChainError::CertTooLongLived)
    } else {
        ca_pairs_error(cert.tbs@, cert.ca_sigs@, cert.ca_sig_count as int, trusted, 0)
    }
}

/// Structural validation, no clock: roles, quorum, lifetime, and every CA
/// signature verifying under a trusted key.
pub fn validate_cert_chain(cert: &CertView<'_>, trusted_ca_keys: &[&[u8]]) -> (r: Result<(), CertChainError>)
    ensures
        match chain_error(cert, key_views(trusted_ca_keys@)) {
            Some(e) => r == Err::<(), CertChainError>(e),
            None => r is Ok,
        },
{
    check_role_constraints(cert.role_bits)?;
    let rb: u8 = cert.role_bits;
    if (cert.role_bits & ROLE_APPROVER) != 0 && cert.ca_sig_count < APPROVER_QUORUM as usize {
        return Err(CertChainError::ApproverNoQuorum);
    }
    if (cert.role_bits & (ROLE_APPROVER | ROLE_EXECUTOR)) != 0 && cert.not_after.saturating_sub(
        cert.not_before,
    ) > MAX_PRIVILEGED_LIFETIME_MS {
        assert((rb & (8u8 | 4u8)) != 0 ==> (rb & 8u8 != 0 || rb & 4u8 != 0)) by (bit_vector);
        return Err(CertChainError::CertTooLongLived);
    }
    assert((rb & (8u8 | 4u8)) == 0 ==> (rb & 8u8 == 0 && rb & 4u8 == 0)) by (bit_vector);
    let pair_len: usize = LEN_CA_KEY + LEN_CA_SIG;
    let ghost trusted = key_views(trusted_ca_keys@);
    let n: usize = cert.ca_sigs.len();
    assert(chain_error(cert, trusted) == ca_pairs_error(cert.tbs@, cert.ca_sigs@, cert.ca_sig_count as int, trusted, 0));
    let mut i: usize = 0;
    while i < cert.ca_sig_count
        invariant
            i <= cert.ca_sig_count,
            i * 96 <= cert.ca_sigs@.len(),
            n == cert.ca_sigs@.len(),
            pair_len == 96,
            trusted == key_views(trusted_ca_keys@),
            chain_error(cert, trusted) == ca_pairs_error(cert.tbs@, cert.ca_sigs@, cert.ca_sig_count as int, trusted, 0),
            ca_pairs_error(cert.tbs@, cert.ca_sigs@, cert.ca_sig_count as int, trusted, 0)
                == ca_pairs_error(cert.tbs@, cert.ca_sigs@, cert.ca_sig_count as int, trusted, i as int),
        decreases cert.ca_sig_count - i,
    {
        let off = i * 96;
        if cert.ca_sigs.len() < pair_len || off > cert.ca_sigs.len() - pair_len {
            return Err(CertChainError::BadCaSignature);
        }
        let ca_key = &cert.ca_sigs[off..off + LEN_CA_KEY];
        let ca_sig = &cert.ca_sigs[off + LEN_CA_KEY..off + pair_len];
        assert(ca_key@ == ca_key_at(cert.ca_sigs@, i as int));
        assert(ca_sig@ == ca_sig_at(cert.ca_sigs@, i as int));
        if !verify_signed(DOMAIN_CERT, cert.tbs, ca_sig, ca_key) {
            return Err(CertChainError::BadCaSignature);
        }
        if !in_trust_set(ca_key, trusted_ca_keys) {
            return Err(CertChainError::UntrustedCa);
        }
        i = i + 1;
    }
    Ok(())
}

/// The same validation, named for the callers that must not consult a
/// clock.
pub fn validate_cert_no_clock(cert: &CertView<'_>, trusted_ca_keys: &[&[u8]]) -> (r: Result<(), CertChainError>)
    ensures
        match chain_error(cert, key_views(trusted_ca_keys@)) {
            Some(e) => r == Err::<(), CertChainError>(e),
            None => r is Ok,
        },
{
    validate_cert_chain(cert, trusted_ca_keys)
}

pub open spec fn binding_error_of(e: CertChainError) -> BindingError {
    match e {
        CertChainError::MalformedKey => BindingError::MalformedKey,
        CertChainError::BadCaSignature => BindingError::BadCaSignature,
        CertChainError::UntrustedCa => BindingError::UntrustedCa,
        CertChainError::CertTooLongLived => BindingError::CertTooLongLived,
        CertChainError::RoleAgentApprover => BindingError::RoleAgentApprover,
        CertChainError::RoleAgentExecutor => BindingError::RoleAgentExecutor,
        CertChainError::RoleApproverExecutor => BindingError::RoleApproverExecutor,
        CertChainError::ApproverNoQuorum => BindingError::ApproverNoQuorum,
    }
}

/// The first failure of a certificate at `now_ms`: a structural one, or
/// `CertExpired` outside `[not_before, not_after)`.
pub open spec fn cert_error(cert: &CertView<'_>, trusted: Seq<Seq<u8>>, now_ms: u64) -> Option<BindingError> {
    match chain_error(cert, trusted) {
        Some(e) => Some(binding_error_of(e)),
        None => if now_ms < cert.not_before || now_ms >= cert.not_after {
            Some(BindingError::CertExpired)
        } else {
            None
        },
    }
}

/// Full validation with the clock.
pub fn validate_cert(cert: &CertView<'_>, trusted_ca_keys: &[&[u8]], now_ms: u64) -> (r: Result<(), BindingError>)
    ensures
        match cert_error(cert, key_views(trusted_ca_keys@), now_ms) {
            Some(e) => r == Err::<(), BindingError>(e),
            None => r is Ok,
        },
{
    match validate_cert_chain(cert, trusted_ca_keys) {
        Ok(()) => {},
        Err(e) => {
            let b = match e {
                CertChainError::MalformedKey => BindingError::MalformedKey,
                CertChainError::BadCaSignature => BindingError::BadCaSignature,
                CertChainError::UntrustedCa => BindingError::UntrustedCa,
                CertChainError::CertTooLongLived => BindingError::CertTooLongLived,
                CertChainError::RoleAgentApprover => BindingError::RoleAgentApprover,
                CertChainError::RoleAgentExecutor => BindingError::RoleAgentExecutor,
                CertChainError::RoleApproverExecutor => BindingError::RoleApproverExecutor,
                CertChainError::ApproverNoQuorum => BindingError::ApproverNoQuorum,
            };
            return Err(b);
        },
    }
    if now_ms < cert.not_before || now_ms >= cert.not_after {
        return Err(BindingError::CertExpired);
    }
    Ok(())
}

/// The first failure of a session binding: the certificate, then its
/// key-exchange key against the handshake's remote static key, then the
/// binding signature over the transcript hash.
pub open spec fn binding_error(
    cert: &CertView<'_>,
    binding_sig: Seq<u8>,
    handshake_hash: Seq<u8>,
    remote_kex_pubkey: Seq<u8>,
    trusted: Seq<Seq<u8>>,
    now_ms: u64,
) -> Option<BindingError> {
    if cert_error(cert, trusted, now_ms) is Some {
        cert_error(cert, trusted, now_ms)
    } else if cert.kex_pubkey@ != remote_kex_pubkey {
        Some(BindingError::KexPubkeyMismatch)
    } else if !spec_verify_signed(DOMAIN_BINDING, handshake_hash, binding_sig, cert.sig_pubkey@) {
        Some(BindingError::BadBindingSig)
    } else {
        None
    }
}

/// Binds an authenticated session to a certificate.
pub fn bind_session(
    cert: &CertView<'_>,
    binding_sig: &[u8],
    handshake_hash: &[u8],
    remote_kex_pubkey: &[u8],
    trusted_ca_keys: &[&[u8]],
    now_ms: u64,
) -> (r: Result<(), BindingError>)
    ensures
        match binding_error(cert, binding_sig@, handshake_hash@, remote_kex_pubkey@, key_views(trusted_ca_keys@), now_ms) {
            Some(e) => r == Err::<(), BindingError>(e),
            None => r is Ok,
        },
{
    validate_cert(cert, trusted_ca_keys, now_ms)?;
    if cert.kex_pubkey.len() != remote_kex_pubkey.len() || !bytes_eq(cert.kex_pubkey, remote_kex_pubkey) {
        return Err(BindingError::KexPubkeyMismatch);
    }
    if !verify_signed(DOMAIN_BINDING, handshake_hash, binding_sig, cert.sig_pubkey) {
        return Err(BindingError::BadBindingSig);
    }
    Ok(())
}

} // verus!
