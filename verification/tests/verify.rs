use ed25519_dalek::{Signer, SigningKey};
use bolina::codec::{Cert, Envelope, Refusal, BODY_REFUSAL, DOMAIN_GRANT, DOMAIN_REFUSAL, ROLE_APPROVER};
use bolina::state::intent::{Table, MAX_RESOURCE};
use bolina::transport::verify::{check_expiry, verify_refusal_then, verify_signed_err, RefusalContext, VerifyError};
use std::cell::Cell;

#[test]
fn be_grant_05_expiry_denied_at_instant_of_expiry() {
    assert_eq!(check_expiry(1000, 1000, 0, 3600, 3600), Err(VerifyError::Expired));
    assert_eq!(check_expiry(1000, 999, 0, 3600, 3600), Ok(()));
}

#[test]
fn be_grant_05_receipt_window_denied_at_instant() {
    let not_after = 1_000_000;
    let first = 0;
    let t_recv_s = 10;
    assert_eq!(check_expiry(not_after, 10_000, first, 3600, t_recv_s), Ok(()));
    assert_eq!(check_expiry(not_after, 10_001, first, 3600, t_recv_s), Err(VerifyError::Expired));
}

#[test]
fn verify_signed_pubkey_length_is_a_guard_not_a_flip() {
    let sk = SigningKey::from_bytes(&[9u8; 32]);
    let msg = b"dispatch me";
    let mut sig_input = vec![DOMAIN_GRANT];
    sig_input.extend_from_slice(msg);
    let sig = sk.sign(&sig_input).to_bytes().to_vec();
    let pub_ok = sk.verifying_key().to_bytes();
    assert!(matches!(
        verify_signed_err(DOMAIN_GRANT, msg, &sig, &pub_ok[..31]),
        Err(VerifyError::MalformedKey)
    ));
    assert!(verify_signed_err(DOMAIN_GRANT, msg, &sig, &pub_ok).is_ok());
}

#[test]
fn expiry_beyond_t_max_is_refused() {
    // not_after more than t_max beyond first receipt
    assert_eq!(check_expiry(3_600_001, 0, 0, 3600, 3600), Err(VerifyError::Expired));
    assert_eq!(check_expiry(3_600_000, 0, 0, 3600, 3600), Ok(()));
}

#[test]
fn wrong_signature_is_bad_signature() {
    let sk = SigningKey::from_bytes(&[9u8; 32]);
    let mut sig_input = vec![DOMAIN_GRANT];
    sig_input.extend_from_slice(b"one");
    let sig = sk.sign(&sig_input).to_bytes().to_vec();
    let pk = sk.verifying_key().to_bytes();
    assert_eq!(verify_signed_err(DOMAIN_GRANT, b"two", &sig, &pk), Err(VerifyError::BadSignature));
    assert_eq!(verify_signed_err(DOMAIN_GRANT, b"one", &sig[..63], &pk), Err(VerifyError::BadSignature));
}

#[test]
fn verified_refusal_rejects_pending_intent_and_fires_hook_once() {
    let sk = SigningKey::from_bytes(&[41u8; 32]);
    let pk = sk.verifying_key().to_bytes();
    let id = [5u8; 16];
    let tbs = b"refusal tbs".to_vec();
    let mut msg = vec![DOMAIN_REFUSAL];
    msg.extend_from_slice(&tbs);
    let sig = sk.sign(&msg).to_bytes();
    let env = Envelope {
        version: 1,
        channel_id: &[0u8; 32],
        sender: &pk,
        seq: 1,
        parent_count: 0,
        parents: &[],
        ts: 0,
        body_type: BODY_REFUSAL,
        body: &[],
        tbs: &[],
        sig: &[],
    };
    let refusal = Refusal { intent_id: &id, note: &[], tbs: &tbs, sig: &sig };
    let cert = Cert {
        version: 3,
        role_bits: ROLE_APPROVER,
        sig_pubkey: &pk,
        kex_pubkey: &[0u8; 32],
        not_before: 0,
        not_after: 10,
        name: &[],
        scope_count: 0,
        scope_ids: &[],
        ca_sig_count: 0,
        ca_sigs: &[],
        tbs: &[],
    };
    let mut table = Table::new();
    let mut res = [0u8; MAX_RESOURCE];
    res[0] = 7;
    table.try_admit(&id, &res, 1, 0).unwrap();
    let calls = Cell::new(0u32);
    {
        let mut ctx = RefusalContext { trusted_ca_keys: &[], approver_cert: cert, now_ms: 0, intent_table: &mut table };
        let hook = |got: &[u8]| {
            assert_eq!(got, &id);
            calls.set(calls.get() + 1);
        };
        assert_eq!(verify_refusal_then(&env, &refusal, &mut ctx, hook), Ok(()));
    }
    assert_eq!(calls.get(), 1);
    assert_eq!(table.entries.len(), 0);
    // Nothing pending any more: a second refusal is accepted and fires nothing.
    {
        let mut ctx = RefusalContext { trusted_ca_keys: &[], approver_cert: cert, now_ms: 0, intent_table: &mut table };
        let hook = |_got: &[u8]| calls.set(calls.get() + 1);
        assert_eq!(verify_refusal_then(&env, &refusal, &mut ctx, hook), Ok(()));
    }
    assert_eq!(calls.get(), 1);
}
