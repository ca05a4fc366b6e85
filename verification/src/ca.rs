//! The offline CA: certificate issuance and revocation bodies. The program
//! keeps the key files, the clock and the issued directory; here is what
//! it computes from them.
//!
//! A certificate is always version 3 (empty scopes deny everything), and a
//! revocation body carries the subject's expiry, never the admin's.

use vstd::prelude::*;
use vstd::utf8::encode_utf8;
use crate::codec::{bytes_eq, hex_digit_of, hex_encode, push_bytes, push_u16be, push_u64be, u16_bytes, u64_bytes};
use crate::crypto;

verus! {

pub const DOMAIN_CERT: u8 = 0x01;
pub const KEY_LEN: usize = 32;
pub const MAX_PRIVILEGED_LIFETIME_MS: u64 = 2_592_000_000;
pub const CERT_VERSION: u8 = 3;

#[derive(Debug, Clone, Copy, PartialEq, Eq, Structural)]
pub enum CaError {
    BadRole,
    BadTtl,
    BadCount,
    NoCaKeys,
    TtlOverCap,
    CertUnreadable,
    DataDirUnwritable,
}

/// The serial of a certificate: the first 16 bytes of BLAKE2s-256 of its
/// signed part, in lowercase hex.
pub open spec fn serial_spec(tbs: Seq<u8>) -> Seq<u8> {
    hex_encode(crypto::blake2s256_spec(tbs).subrange(0, 16))
}

pub fn serial_of(tbs: &[u8]) -> (s: [u8; 32])
    ensures
        s@ == serial_spec(tbs@),
{
    let digest = crypto::blake2s256(tbs);
    let mut out: [u8; 32] = [0u8; 32];
    let mut i: usize = 0;
    while i < 16
        invariant
            i <= 16,
            digest@ == crypto::blake2s256_spec(tbs@),
            out@.len() == 32,
            forall|k: int| 0 <= k < 2 * i ==> out@[k] == hex_encode(digest@.subrange(0, 16))[k],
        decreases 16 - i,
    {
        let b = digest[i];
        out[2 * i] = hex_digit_of(b / 16);
        out[2 * i + 1] = hex_digit_of(b % 16);
        i = i + 1;
    }
    assert(out@ =~= serial_spec(tbs@));
    out
}

/// An issuance request.
pub struct IssueReq {
    pub role: String,
    pub subject: String,
    pub scopes: Vec<[u8; 8]>,
    pub ttl_ms: u64,
}

#[derive(Debug, PartialEq)]
pub struct IssueResult {
    pub serial_hex: [u8; 32],
}

pub open spec fn agent_name() -> Seq<u8> {
    seq![97u8, 103, 101, 110, 116]
}

pub open spec fn executor_name() -> Seq<u8> {
    seq![101u8, 120, 101, 99, 117, 116, 111, 114]
}

pub open spec fn approver_name() -> Seq<u8> {
    seq![97u8, 112, 112, 114, 111, 118, 101, 114]
}

/// The role byte of a role name: agent 1, executor 2, approver 3.
pub open spec fn role_byte_spec(role: Seq<u8>) -> Option<u8> {
    if role == agent_name() {
        Some(1u8)
    } else if role == executor_name() {
        Some(2u8)
    } else if role == approver_name() {
        Some(3u8)
    } else {
        None
    }
}

fn role_byte(role: &[u8]) -> (r: Option<u8>)
    ensures
        r == role_byte_spec(role@),
{
    let agent: Vec<u8> = vec![97u8, 103, 101, 110, 116];
    let executor: Vec<u8> = vec![101u8, 120, 101, 99, 117, 116, 111, 114];
    let approver: Vec<u8> = vec![97u8, 112, 112, 114, 111, 118, 101, 114];
    assert(agent@ =~= agent_name());
    assert(executor@ =~= executor_name());
    assert(approver@ =~= approver_name());
    if bytes_eq(role, agent.as_slice()) {
        Some(1)
    } else if bytes_eq(role, executor.as_slice()) {
        Some(2)
    } else if bytes_eq(role, approver.as_slice()) {
        Some(3)
    } else {
        None
    }
}

/// The scope ids, concatenated.
pub open spec fn scopes_bytes(scopes: Seq<[u8; 8]>) -> Seq<u8>
    decreases scopes.len(),
{
    if scopes.len() == 0 {
        Seq::empty()
    } else {
        scopes_bytes(scopes.drop_last()) + scopes.last()@
    }
}

/// The signed part of an issued certificate: version 3, the role, zeroed
/// signing and key-exchange keys, validity, the subject with a u16 length,
/// and the scopes with a u8 count (both lengths as the low bits).
pub open spec fn cert_tbs_spec(
    role_byte: u8,
    not_before: u64,
    not_after: u64,
    subject: Seq<u8>,
    scopes: Seq<[u8; 8]>,
) -> Seq<u8> {
    seq![CERT_VERSION, role_byte] + Seq::new(64, |i: int| 0u8) + u64_bytes(not_before) + u64_bytes(
        not_after,
    ) + u16_bytes(subject.len() as u16) + subject + seq![scopes.len() as u8] + scopes_bytes(scopes)
}

/// The signatures of each CA seed over the domain tag and the signed part,
/// in seed order.
pub open spec fn ca_signatures(seeds: Seq<[u8; 32]>, msg: Seq<u8>) -> Seq<u8>
    decreases seeds.len(),
{
    if seeds.len() == 0 {
        Seq::empty()
    } else {
        ca_signatures(seeds.drop_last(), msg) + crypto::ed25519_sign_spec(seeds.last()@, msg)
    }
}

/// The failure of an issuance, in the order checked: the role, the TTL
/// cap for privileged roles, then at least two CA keys.
pub open spec fn issue_error(role: Seq<u8>, ttl_ms: u64, ca_count: nat) -> Option<CaError> {
    match role_byte_spec(role) {
        None => Some(CaError::BadRole),
        Some(rb) => if (rb == 3 || rb == 2) && ttl_ms > MAX_PRIVILEGED_LIFETIME_MS {
            Some(CaError::TtlOverCap)
        } else if ca_count < 2 {
            Some(CaError::NoCaKeys)
        } else {
            None
        },
    }
}

/// Why a request would be refused with `ca_count` CA keys, if it would:
/// the role, the TTL cap for privileged roles, then at least two CA keys.
pub fn issue_refusal(req: &IssueReq, ca_count: usize) -> (r: Option<CaError>)
    ensures
        r == issue_error(encode_utf8(req.role@), req.ttl_ms, ca_count as nat),
{
    let role = req.role.as_str().as_bytes();
    assert(role@ == encode_utf8(req.role@));
    let rb = match role_byte(role) {
        Some(b) => b,
        None => return Some(CaError::BadRole),
    };
    if (rb == 3 || rb == 2) && req.ttl_ms > MAX_PRIVILEGED_LIFETIME_MS {
        return Some(CaError::TtlOverCap);
    }
    if ca_count < 2 {
        return Some(CaError::NoCaKeys);
    }
    None
}

/// Issues a certificate at `now_ms` under the CA secret seeds `ca_seeds`
/// (as loaded, in label order): the certificate bytes (the signed part
/// followed by each CA's signature) and its serial.
pub fn issue_cert(req: &IssueReq, ca_seeds: &[[u8; 32]], now_ms: u64) -> (r: Result<(Vec<u8>, IssueResult), CaError>)
    requires
        issue_error(encode_utf8(req.role@), req.ttl_ms, ca_seeds@.len()) is None ==> now_ms + req.ttl_ms
            <= u64::MAX,
    ensures
        match issue_error(encode_utf8(req.role@), req.ttl_ms, ca_seeds@.len()) {
            Some(e) => r == Err::<(Vec<u8>, IssueResult), CaError>(e),
            None => r is Ok && {
                let tbs = cert_tbs_spec(
                    role_byte_spec(encode_utf8(req.role@))->Some_0,
                    now_ms,
                    (now_ms + req.ttl_ms) as u64,
                    encode_utf8(req.subject@),
                    req.scopes@,
                );
                &&& r->Ok_0.1.serial_hex@ == serial_spec(tbs)
                &&& r->Ok_0.0@ == tbs + ca_signatures(ca_seeds@, seq![DOMAIN_CERT] + tbs)
                &&& forall|j: int|
                    0 <= j < ca_seeds@.len() ==> {
                        let sig = crypto::ed25519_sign_spec(#[trigger] ca_seeds@[j]@, seq![DOMAIN_CERT] + tbs);
                        &&& sig.len() == 64
                        &&& crypto::ed25519_verify_spec(crypto::ed25519_public_spec(ca_seeds@[j]@), seq![DOMAIN_CERT] + tbs, sig)
                    }
            },
        },
{
    if let Some(e) = issue_refusal(req, ca_seeds.len()) {
        return Err(e);
    }
    let role = req.role.as_str().as_bytes();
    assert(role@ == encode_utf8(req.role@));
    let rb = match role_byte(role) {
        Some(b) => b,
        None => return Err(CaError::BadRole),
    };
    let expiry_ms = now_ms + req.ttl_ms;
    let mut tbs: Vec<u8> = vec![CERT_VERSION, rb];
    let mut i: usize = 0;
    while i < 64
        invariant
            i <= 64,
            tbs@ == seq![CERT_VERSION, rb] + Seq::new(i as nat, |k: int| 0u8),
        decreases 64 - i,
    {
        tbs.push(0);
        i = i + 1;
        assert(tbs@ =~= seq![CERT_VERSION, rb] + Seq::new(i as nat, |k: int| 0u8));
    }
    push_u64be(&mut tbs, now_ms);
    push_u64be(&mut tbs, expiry_ms);
    let subject = req.subject.as_str().as_bytes();
    push_u16be(&mut tbs, subject.len() as u16);
    push_bytes(&mut tbs, subject);
    tbs.push(req.scopes.len() as u8);
    let ghost head = tbs@;
    let mut j: usize = 0;
    while j < req.scopes.len()
        invariant
            j <= req.scopes@.len(),
            tbs@ == head + scopes_bytes(req.scopes@.subrange(0, j as int)),
        decreases req.scopes@.len() - j,
    {
        push_bytes(&mut tbs, req.scopes[j].as_slice());
        j = j + 1;
        assert(req.scopes@.subrange(0, j as int).drop_last() =~= req.scopes@.subrange(0, j - 1));
    }
    assert(req.scopes@.subrange(0, req.scopes@.len() as int) =~= req.scopes@);
    assert(subject@ == encode_utf8(req.subject@));
    assert(tbs@ =~= cert_tbs_spec(rb, now_ms, expiry_ms, subject@, req.scopes@));
    let ghost tbs_spec = tbs@;
    let serial_hex = serial_of(tbs.as_slice());
    let mut sig_input: Vec<u8> = vec![DOMAIN_CERT];
    push_bytes(&mut sig_input, tbs.as_slice());
    assert(sig_input@ =~= seq![DOMAIN_CERT] + tbs_spec);
    let mut k: usize = 0;
    while k < ca_seeds.len()
        invariant
            k <= ca_seeds@.len(),
            sig_input@ == seq![DOMAIN_CERT] + tbs_spec,
            tbs@ == tbs_spec + ca_signatures(ca_seeds@.subrange(0, k as int), sig_input@),
            forall|j: int|
                0 <= j < k ==> {
                    let sig = crypto::ed25519_sign_spec(#[trigger] ca_seeds@[j]@, sig_input@);
                    &&& sig.len() == 64
                    &&& crypto::ed25519_verify_spec(crypto::ed25519_public_spec(ca_seeds@[j]@), sig_input@, sig)
                },
        decreases ca_seeds@.len() - k,
    {
        let sig = crypto::ed25519_sign(&ca_seeds[k], sig_input.as_slice());
        push_bytes(&mut tbs, sig.as_slice());
        k = k + 1;
        assert(ca_seeds@.subrange(0, k as int).drop_last() =~= ca_seeds@.subrange(0, k - 1));
    }
    assert(ca_seeds@.subrange(0, ca_seeds@.len() as int) =~= ca_seeds@);
    Ok((tbs, IssueResult { serial_hex }))
}

/// The revocation body for an issued certificate: type 7, action 2 (revoke),
/// the certificate's first 32 bytes as the subject, and the subject's expiry
/// when known.
pub fn ca_revoke(cert_bytes: &[u8], subject_expiry_ms: Option<u64>) -> (r: Result<Vec<u8>, CaError>)
    requires
        cert_bytes@.len() >= 32,
    ensures
        r is Ok,
        r->Ok_0@ == seq![7u8, 2u8] + cert_bytes@.subrange(0, 32) + match subject_expiry_ms {
            Some(e) => u64_bytes(e),
            None => Seq::empty(),
        },
{
    let mut envelope: Vec<u8> = vec![7u8, 2u8];
    push_bytes(&mut envelope, &cert_bytes[0..32]);
    if let Some(expiry) = subject_expiry_ms {
        push_u64be(&mut envelope, expiry);
    }
    Ok(envelope)
}

} // verus!
