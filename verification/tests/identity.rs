use bolina::ca::{ca_revoke, issue_cert, issue_refusal, serial_of, CaError, IssueReq};
use bolina::keys::{check_cert, check_stored_pub, derive_static_pub, fingerprint, key_from_file, sig_pub, KeysError, KEY_LEN, MAX_CERT};
use bolina::transport::binding::{
    bind_session, check_role_constraints, derive_overlay_addr, validate_cert, validate_cert_chain,
    BindingError, CertChainError, CertView, DOMAIN_BINDING, ROLE_AGENT, ROLE_APPROVER, ROLE_EXECUTOR,
};
use bolina::transport::dag::Dag;
use bolina::transport::historical::{historical_validity, AuditContext, HistoricalError};
use bolina::transport::render::{render_approval, RATIONALE_UNTRUSTED_LABEL};
use bolina::transport::token;
use blake2::{Blake2s256, Digest};
use ed25519_dalek::{Signer, SigningKey, Verifier, Signature, VerifyingKey};
use x25519_dalek::{x25519, X25519_BASEPOINT_BYTES};

#[test]
fn keys_fingerprint_matches_resolver_fp() {
    let pubkey = [7u8; KEY_LEN];
    let fp = fingerprint(&pubkey);
    assert_eq!(fp, bolina::transport::resolver::executor_fp(&pubkey));
    let hex = std::str::from_utf8(&fp).unwrap();
    assert_eq!(hex.len(), 16);
    assert!(hex.bytes().all(|b| b.is_ascii_lowercase() || b.is_ascii_digit()));
}

#[test]
fn key_file_size_and_pub_checks() {
    assert_eq!(key_from_file(b"short"), Err(KeysError::KeyFileCorrupt));
    assert_eq!(key_from_file(&[3u8; 32]), Ok([3u8; 32]));
    let p = derive_static_pub([9u8; 32]);
    assert_eq!(p, x25519([9u8; 32], X25519_BASEPOINT_BYTES));
    assert_eq!(check_stored_pub(&p, &p), Ok(()));
    let mut tampered = p;
    tampered[0] ^= 0xff;
    assert_eq!(check_stored_pub(&tampered, &p), Err(KeysError::PubMismatch));
    assert_eq!(check_stored_pub(&p[..31], &p), Err(KeysError::PubMismatch));
    let blob: Vec<u8> = (0..MAX_CERT).map(|i| (i % 251) as u8).collect();
    assert_eq!(check_cert(blob.clone()), Ok(blob));
    assert_eq!(check_cert(vec![0u8; MAX_CERT + 1]), Err(KeysError::CertTooLarge));
}

// --- binding ----------------------------------------------------------------------

fn signed(domain: u8, sk: &SigningKey, tbs: &[u8]) -> [u8; 64] {
    let mut m = vec![domain];
    m.extend_from_slice(tbs);
    sk.sign(&m).to_bytes()
}

#[test]
fn role_constraints_refuse_pairings() {
    assert_eq!(check_role_constraints(ROLE_AGENT | ROLE_APPROVER), Err(CertChainError::RoleAgentApprover));
    assert_eq!(check_role_constraints(ROLE_AGENT | ROLE_EXECUTOR), Err(CertChainError::RoleAgentExecutor));
    assert_eq!(check_role_constraints(ROLE_APPROVER | ROLE_EXECUTOR), Err(CertChainError::RoleApproverExecutor));
    assert_eq!(check_role_constraints(ROLE_AGENT), Ok(()));
}

#[test]
fn overlay_addr_is_prefixed_digest() {
    let a = derive_overlay_addr(&[1u8; 32]);
    let d = Blake2s256::digest([1u8; 32]);
    assert_eq!(a[0], 0xfd);
    assert_eq!(&a[1..], &d[..15]);
}

#[test]
fn cert_chain_and_binding() {
    let ca1 = SigningKey::from_bytes(&[11u8; 32]);
    let ca2 = SigningKey::from_bytes(&[12u8; 32]);
    let subject = SigningKey::from_bytes(&[13u8; 32]);
    let tbs = b"certificate body".to_vec();
    let mut pairs = Vec::new();
    for ca in [&ca1, &ca2] {
        pairs.extend_from_slice(&ca.verifying_key().to_bytes());
        pairs.extend_from_slice(&signed(0x01, ca, &tbs));
    }
    let sub_pk = subject.verifying_key().to_bytes();
    let kex = [5u8; 32];
    let view = CertView {
        sig_pubkey: &sub_pk,
        kex_pubkey: &kex,
        role_bits: ROLE_APPROVER,
        not_before: 100,
        not_after: 200,
        tbs: &tbs,
        ca_sigs: &pairs,
        ca_sig_count: 2,
    };
    let k1 = ca1.verifying_key().to_bytes();
    let k2 = ca2.verifying_key().to_bytes();
    let trusted: Vec<&[u8]> = vec![&k1, &k2];
    assert_eq!(validate_cert_chain(&view, &trusted), Ok(()));
    assert_eq!(validate_cert(&view, &trusted, 150), Ok(()));
    assert_eq!(validate_cert(&view, &trusted, 200), Err(BindingError::CertExpired));
    assert_eq!(validate_cert(&view, &trusted, 99), Err(BindingError::CertExpired));
    let only_one: Vec<&[u8]> = vec![&k1];
    assert_eq!(validate_cert_chain(&view, &only_one), Err(CertChainError::UntrustedCa));
    let short = CertView { ca_sig_count: 3, ..view };
    assert_eq!(validate_cert_chain(&short, &trusted), Err(CertChainError::BadCaSignature));
    let quorum = CertView { ca_sig_count: 1, ..view };
    assert_eq!(validate_cert_chain(&quorum, &trusted), Err(CertChainError::ApproverNoQuorum));
    let long = CertView { not_after: 100 + 2_592_000_001, ..view };
    assert_eq!(validate_cert_chain(&long, &trusted), Err(CertChainError::CertTooLongLived));

    let hh = [42u8; 32];
    let bsig = signed(DOMAIN_BINDING, &subject, &hh);
    assert_eq!(bind_session(&view, &bsig, &hh, &kex, &trusted, 150), Ok(()));
    assert_eq!(bind_session(&view, &bsig, &hh, &[6u8; 32], &trusted, 150), Err(BindingError::KexPubkeyMismatch));
    assert_eq!(bind_session(&view, &bsig, &[43u8; 32], &kex, &trusted, 150), Err(BindingError::BadBindingSig));
}

// --- token, render, historical --------------------------------------------------------

#[test]
fn token_hex_verify_and_decode() {
    let t = [0xabu8; 32];
    let h = token::hex(&t);
    assert_eq!(&h[..4], b"abab");
    assert!(token::verify(&h, &h));
    assert!(!token::verify(&h[..63], &h));
    let mut other = h;
    other[63] = b'0';
    assert!(!token::verify(&other, &h));
    assert_eq!(token::decode(&h), Some(t));
    let upper: Vec<u8> = h.iter().map(|b| b.to_ascii_uppercase()).collect();
    assert_eq!(token::decode(&upper), Some(t));
    assert_eq!(token::decode(&h[..10]), None);
    let mut bad = h;
    bad[5] = b'z';
    assert_eq!(token::decode(&bad), None);
    assert_ne!(token::generate(), token::generate());
}

#[test]
fn approval_view_digest_and_label() {
    let v = render_approval(b"res", b"act", Some(b"because"));
    let d = Blake2s256::digest(b"act");
    assert_eq!(v.action_digest, d[..8]);
    assert_eq!(v.resource_id, b"res");
    let r = v.rationale.unwrap();
    assert_eq!(r.text, b"because");
    assert_eq!(r.untrusted_label, RATIONALE_UNTRUSTED_LABEL);
    assert_eq!(RATIONALE_UNTRUSTED_LABEL, "untrusted, agent-authored");
    assert!(render_approval(b"res", b"act", None).rationale.is_none());
}

#[test]
fn historical_validity_follows_causality() {
    let mut dag = Dag::new();
    let anchor = [1u8; 32];
    let mid = [2u8; 32];
    let env = [3u8; 32];
    let revoke = [4u8; 32];
    dag.insert(&anchor, &mid).unwrap();
    dag.insert(&mid, &env).unwrap();
    dag.insert(&env, &revoke).unwrap();
    let get_anchor = |_s: &[u8; 32]| Some(anchor);
    let no_anchor = |_s: &[u8; 32]| None;
    let get_revoke = |_s: &[u8; 32]| Some(revoke);
    let ok_cert = |_c: &[u8]| Ok(());
    let bad_cert = |_c: &[u8]| Err(HistoricalError::UntrustedCa);
    let mut ctx = AuditContext { get_anchor: &get_anchor, get_revoke_hash: &get_revoke, validate_cert_no_clock: &ok_cert, dag: &mut dag };
    // Committed before the revocation: still valid.
    assert_eq!(historical_validity(&env, &[0u8; 32], b"cert", &mut ctx), Ok(()));
    // A descendant of the revocation is not.
    let later = [5u8; 32];
    ctx.dag.insert(&revoke, &later).unwrap();
    assert_eq!(historical_validity(&later, &[0u8; 32], b"cert", &mut ctx), Err(HistoricalError::DescendantOfRevocation));
    // Not a descendant of the anchor.
    assert_eq!(historical_validity(&anchor, &[0u8; 32], b"cert", &mut ctx), Err(HistoricalError::NotDescendantOfAnchor));
    let mut ctx2 = AuditContext { get_anchor: &no_anchor, get_revoke_hash: &get_revoke, validate_cert_no_clock: &ok_cert, dag: &mut dag };
    assert_eq!(historical_validity(&env, &[0u8; 32], b"cert", &mut ctx2), Err(HistoricalError::AnchorNotFound));
    let mut ctx3 = AuditContext { get_anchor: &get_anchor, get_revoke_hash: &get_revoke, validate_cert_no_clock: &bad_cert, dag: &mut dag };
    assert_eq!(historical_validity(&env, &[0u8; 32], b"cert", &mut ctx3), Err(HistoricalError::UntrustedCa));
}

// --- the CA ---------------------------------------------------------------------------

#[test]
fn ca_issue_builds_signed_v3_cert() {
    let req = IssueReq { role: "executor".to_string(), subject: "node-a".to_string(), scopes: vec![[7u8; 8]], ttl_ms: 1000 };
    let seeds = [[21u8; 32], [22u8; 32]];
    let (cert, res) = issue_cert(&req, &seeds, 5000).unwrap();
    let tbs_len = 2 + 64 + 8 + 8 + 2 + 6 + 1 + 8;
    assert_eq!(cert.len(), tbs_len + 128);
    assert_eq!(cert[0], 3);
    assert_eq!(cert[1], 2);
    assert_eq!(&cert[66..74], &5000u64.to_be_bytes());
    assert_eq!(&cert[74..82], &6000u64.to_be_bytes());
    assert_eq!(&cert[84..90], b"node-a");
    assert_eq!(res.serial_hex, serial_of(&cert[..tbs_len]));
    let mut msg = vec![0x01u8];
    msg.extend_from_slice(&cert[..tbs_len]);
    let vk = VerifyingKey::from_bytes(&SigningKey::from_bytes(&[21u8; 32]).verifying_key().to_bytes()).unwrap();
    let sig = Signature::from_slice(&cert[tbs_len..tbs_len + 64]).unwrap();
    assert!(vk.verify(&msg, &sig).is_ok());
}

#[test]
fn sig_pub_is_the_verifying_key_and_signatures_verify() {
    let seed = [33u8; 32];
    let pk = sig_pub(&seed);
    assert_eq!(pk, SigningKey::from_bytes(&seed).verifying_key().to_bytes());
    assert_ne!(pk, seed);
    let req = IssueReq { role: "agent".to_string(), subject: "n".to_string(), scopes: vec![], ttl_ms: 10 };
    let seeds = [seed, [34u8; 32]];
    let (cert, _) = issue_cert(&req, &seeds, 1).unwrap();
    let tbs_len = cert.len() - 128;
    let mut msg = vec![0x01u8];
    msg.extend_from_slice(&cert[..tbs_len]);
    for (k, s) in seeds.iter().enumerate() {
        let vk = VerifyingKey::from_bytes(&sig_pub(s)).unwrap();
        let sig = Signature::from_slice(&cert[tbs_len + 64 * k..tbs_len + 64 * (k + 1)]).unwrap();
        assert!(vk.verify(&msg, &sig).is_ok());
    }
}

#[test]
fn ca_issue_refusals() {
    let seeds = [[21u8; 32], [22u8; 32]];
    let bad = IssueReq { role: "root".to_string(), subject: String::new(), scopes: vec![], ttl_ms: 1 };
    assert_eq!(issue_cert(&bad, &seeds, 0).err(), Some(CaError::BadRole));
    let long = IssueReq { role: "approver".to_string(), subject: String::new(), scopes: vec![], ttl_ms: 2_592_000_001 };
    assert_eq!(issue_cert(&long, &seeds, 0).err(), Some(CaError::TtlOverCap));
    let agent_long = IssueReq { role: "agent".to_string(), subject: String::new(), scopes: vec![], ttl_ms: 2_592_000_001 };
    assert!(issue_cert(&agent_long, &seeds, 0).is_ok());
    let one = IssueReq { role: "agent".to_string(), subject: String::new(), scopes: vec![], ttl_ms: 1 };
    assert_eq!(issue_cert(&one, &seeds[..1], 0).err(), Some(CaError::NoCaKeys));
    assert_eq!(issue_refusal(&one, 1), Some(CaError::NoCaKeys));
    assert_eq!(issue_refusal(&one, 2), None);
    // a refused request needs no room for its expiry
    assert_eq!(issue_cert(&bad, &seeds, u64::MAX).err(), Some(CaError::BadRole));
}

#[test]
fn ca_revoke_body_carries_subject_expiry() {
    let cert = [9u8; 40];
    let body = ca_revoke(&cert, Some(77)).unwrap();
    assert_eq!(&body[..2], &[7, 2]);
    assert_eq!(&body[2..34], &[9u8; 32]);
    assert_eq!(&body[34..], &77u64.to_be_bytes());
    assert_eq!(ca_revoke(&cert, None).unwrap().len(), 34);
}
