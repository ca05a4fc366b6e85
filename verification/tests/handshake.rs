use bolina::transport::handshake::{process_datagram, HandshakeError, Session, Table, MAX_SESSIONS};
use bolina::transport::mac1::{compute_mac1, verify_mac1};
use bolina::transport::noise::{
    transport_nonce, Initiator, KeyPair, Responder, SymmetricState, MSG1_SIZE, MSG2_SIZE,
};
use bolina::transport::session::{
    CipherState, RecvState, ReplayWindow, Session as TransportSession, SessionTable, TransportError,
};
use rand_core::{OsRng, RngCore};
use x25519_dalek::{x25519, X25519_BASEPOINT_BYTES};

fn ok_send(_: &[u8]) -> Result<(), ()> {
    Ok(())
}
fn fail_send(_: &[u8]) -> Result<(), ()> {
    Err(())
}

#[test]
fn se_02_not_initiation_distinct() {
    let mut t = Table::new();
    assert_eq!(
        process_datagram(&mut t, &[2u8; MSG1_SIZE], [1; 32], &[2; 32], ok_send, 0),
        Err(HandshakeError::NotInitiation)
    );
    assert_eq!(
        process_datagram(&mut t, &[1u8; 10], [1; 32], &[2; 32], ok_send, 0),
        Err(HandshakeError::NotInitiation)
    );
    assert!(t.slots.iter().all(|s| s.is_none()));
}

#[test]
fn se_02_table_full_before_crypto() {
    let mut t = Table::new();
    for s in t.slots.iter_mut() {
        *s = Some(Session {
            send_key: [0; 32],
            recv_key: [0; 32],
            handshake_hash: [0; 32],
            peer_static: [0; 32],
            created_ms: 0,
        });
    }
    assert_eq!(
        process_datagram(&mut t, &[1u8; MSG1_SIZE], [1; 32], &[2; 32], ok_send, 0),
        Err(HandshakeError::TableFull)
    );
}

#[test]
fn se_02_send_failed_no_half_session() {
    let mut isec = [0u8; 32];
    OsRng.fill_bytes(&mut isec);
    let rsec = [7u8; 32];
    let rpub = x25519(rsec, X25519_BASEPOINT_BYTES);
    let mut init = Initiator::new(
        KeyPair {
            secret: isec,
            public: x25519(isec, X25519_BASEPOINT_BYTES),
        },
        rpub,
    );
    let mut msg1 = [0u8; MSG1_SIZE];
    init.write_initiation(&mut msg1, 1, 12345, &[2; 32], &[0u8; 16]).unwrap();

    let mut t = Table::new();
    assert_eq!(
        process_datagram(&mut t, &msg1, rsec, &[2; 32], fail_send, 0),
        Err(HandshakeError::SendFailed)
    );
    assert!(t.slots.iter().all(|s| s.is_none()));
}

#[test]
fn se_02_happy_path_commits_once() {
    let mut isec = [0u8; 32];
    OsRng.fill_bytes(&mut isec);
    let rsec = [9u8; 32];
    let rpub = x25519(rsec, X25519_BASEPOINT_BYTES);
    let mut init = Initiator::new(
        KeyPair {
            secret: isec,
            public: x25519(isec, X25519_BASEPOINT_BYTES),
        },
        rpub,
    );
    let mut msg1 = [0u8; MSG1_SIZE];
    init.write_initiation(&mut msg1, 3, 77, &[4; 32], &[0u8; 16]).unwrap();

    let mut t = Table::new();
    let slot = process_datagram(&mut t, &msg1, rsec, &[4; 32], ok_send, 0).unwrap();
    assert_eq!(slot, 0);
    let s = t.slots[0].unwrap();
    assert_eq!(s.peer_static, x25519(isec, X25519_BASEPOINT_BYTES));
    assert_ne!(s.send_key, [0u8; 32]);
    assert_ne!(s.recv_key, [0u8; 32]);
    assert_ne!(s.handshake_hash, [0u8; 32]);
}

#[test]
fn se_02_release_slot_frees_and_zeroizes() {
    let mut t = Table::new();
    t.slots[0] = Some(Session {
        send_key: [1; 32],
        recv_key: [2; 32],
        handshake_hash: [3; 32],
        peer_static: [4; 32],
        created_ms: 1000,
    });
    assert!(t.slots[0].is_some());
    t.release_slot(0);
    assert!(t.slots[0].is_none());
    t.release_slot(0);
    assert!(t.slots[0].is_none());
    t.release_slot(MAX_SESSIONS + 1);
}

#[test]
fn se_02_release_stale_frees_old_slots() {
    let mut t = Table::new();
    t.slots[0] = Some(Session {
        send_key: [1; 32],
        recv_key: [2; 32],
        handshake_hash: [3; 32],
        peer_static: [4; 32],
        created_ms: 1000,
    });
    t.slots[1] = Some(Session {
        send_key: [5; 32],
        recv_key: [6; 32],
        handshake_hash: [7; 32],
        peer_static: [8; 32],
        created_ms: 5000,
    });
    assert!(t.slots[2].is_none());

    let released = t.release_stale(6000, 2000);
    assert_eq!(released, 1);
    assert!(t.slots[0].is_none());
    assert!(t.slots[1].is_some());
    assert!(t.slots[2].is_none());

    let released = t.release_stale(8000, 2000);
    assert_eq!(released, 1);
    assert!(t.slots[1].is_none());
}

#[test]
fn se_02_release_stale_zero_timeout_releases_nothing() {
    let mut t = Table::new();
    t.slots[0] = Some(Session {
        send_key: [1; 32],
        recv_key: [2; 32],
        handshake_hash: [3; 32],
        peer_static: [4; 32],
        created_ms: 1000,
    });
    let released = t.release_stale(1000, 0);
    assert_eq!(released, 0);
    assert!(t.slots[0].is_some());
}

// --- the handshake end to end ---------------------------------------------------

fn pair(secret: [u8; 32]) -> KeyPair {
    KeyPair::from_secret(secret)
}

#[test]
fn key_pair_public_is_x25519_of_basepoint() {
    let kp = pair([5u8; 32]);
    assert_eq!(kp.public, x25519([5u8; 32], X25519_BASEPOINT_BYTES));
    assert_eq!(kp.secret, [5u8; 32]);
}

#[test]
fn initiator_and_responder_agree_on_keys() {
    let s_i = pair([11u8; 32]);
    let s_r = pair([22u8; 32]);
    let sig = [4u8; 32];
    let mut init = Initiator::new(s_i, s_r.public);
    let mut resp = Responder::new(s_r);
    let mut msg1 = [0u8; MSG1_SIZE];
    init.write_initiation_with([33u8; 32], &mut msg1, 7, 123456, &sig, &[0u8; 16]).unwrap();
    assert_eq!(msg1[0], 1);
    assert_eq!(&msg1[4..8], &7u32.to_be_bytes());
    assert_eq!(&msg1[8..40], &x25519([33u8; 32], X25519_BASEPOINT_BYTES));
    let info = resp.read_initiation(&msg1, &sig).unwrap();
    assert_eq!(info.sender_index, 7);
    assert_eq!(info.timestamp_ms, 123456);
    assert_eq!(info.initiator_static_pub, s_i.public);
    let mut msg2 = [0u8; MSG2_SIZE];
    resp.write_response_with([44u8; 32], &mut msg2, 5, info.sender_index, &sig, &[9u8; 16]).unwrap();
    assert_eq!(msg2[0], 2);
    assert_eq!(&msg2[4..8], &5u32.to_be_bytes());
    assert_eq!(&msg2[8..12], &7u32.to_be_bytes());
    assert_eq!(&msg2[76..92], &[9u8; 16]);
    init.read_response(&msg2, &sig).unwrap();
    let a = init.finalize();
    let b = resp.finalize();
    assert_eq!(a.send_key, b.recv_key);
    assert_eq!(a.recv_key, b.send_key);
    assert_eq!(a.handshake_hash, b.handshake_hash);
    assert_ne!(a.send_key, a.recv_key);
}

#[test]
fn mac1_is_checked_before_anything_else() {
    let s_i = pair([11u8; 32]);
    let s_r = pair([22u8; 32]);
    let mut init = Initiator::new(s_i, s_r.public);
    let mut msg1 = [0u8; MSG1_SIZE];
    init.write_initiation(&mut msg1, 1, 1, &[4u8; 32], &[0u8; 16]).unwrap();
    let mut resp = Responder::new(s_r);
    // Checked against another signing key: refused as mac1.
    assert_eq!(resp.read_initiation(&msg1, &[5u8; 32]), Err(bolina::transport::noise::Error::Mac1Failed));
    // A flipped ciphertext byte with its mac1 recomputed: refused as decrypt.
    msg1[50] ^= 1;
    let m1 = compute_mac1(&[4u8; 32], &msg1[..112]);
    msg1[112..128].copy_from_slice(&m1);
    assert_eq!(resp.read_initiation(&msg1, &[4u8; 32]), Err(bolina::transport::noise::Error::DecryptFailed));
}

#[test]
fn mac1_verify_matches_compute() {
    let key = [3u8; 32];
    let m = compute_mac1(&key, b"header bytes");
    assert!(verify_mac1(&key, b"header bytes", &m));
    assert!(!verify_mac1(&key, b"header bytez", &m));
    assert!(!verify_mac1(&[4u8; 32], b"header bytes", &m));
}

#[test]
fn transport_nonce_layout() {
    assert_eq!(transport_nonce(0x0102030405060708), [0, 0, 0, 0, 1, 2, 3, 4, 5, 6, 7, 8]);
    assert_eq!(transport_nonce(0), [0u8; 12]);
}

#[test]
fn symmetric_state_split_depends_on_mixed_key() {
    let mut a = SymmetricState::init();
    let b = SymmetricState::init();
    assert_eq!(a.h, b.h);
    assert_eq!(a.ck, a.h);
    a.mix_key(&[1u8; 32]);
    assert_ne!(a.ck, b.ck);
    assert_ne!(a.split(), b.split());
    let mut c = SymmetricState::init();
    c.mix_hash(b"x");
    assert_ne!(c.h, b.h);
}

#[test]
fn symmetric_state_encrypt_then_decrypt() {
    let mut a = SymmetricState::init();
    let mut b = SymmetricState::init();
    a.mix_key(&[7u8; 32]);
    b.mix_key(&[7u8; 32]);
    let mut ct = [0u8; 21];
    a.encrypt_and_hash(&mut ct, b"hello");
    let mut pt = [0u8; 5];
    b.decrypt_and_hash(&mut pt, &ct).unwrap();
    assert_eq!(&pt, b"hello");
    assert_eq!(a.h, b.h);
    ct[0] ^= 1;
    let mut pt2 = [0u8; 5];
    assert_eq!(b.decrypt_and_hash(&mut pt2, &ct), Err(bolina::transport::noise::Error::DecryptFailed));
    assert_eq!(pt2, [0u8; 5]);
}

// --- transport sessions ---------------------------------------------------------

#[test]
fn replay_window_refuses_repeats_and_old() {
    let mut w = ReplayWindow::new();
    assert!(w.check(5));
    assert!(!w.check(5));
    assert!(w.check(3));
    assert!(!w.check(3));
    assert!(w.check(100));
    assert!(!w.check(36));
    assert!(w.check(37));
    assert!(!w.check(37));
    w.zero();
    assert!(w.check(1));
}

#[test]
fn replay_window_counter_zero_is_fresh_once() {
    let mut w = ReplayWindow::new();
    assert!(w.check(0));
    assert!(!w.check(0));
    assert!(w.check(1));
    assert!(!w.check(0));
}

#[test]
fn session_seal_then_open() {
    let mut tx = TransportSession::new();
    let mut rx = TransportSession::new();
    tx.rotate([1u8; 32], [2u8; 32], [3u8; 32], 10);
    rx.rotate([2u8; 32], [1u8; 32], [3u8; 32], 10);
    tx.peer_index = 9;
    let mut pkt = [0u8; 64];
    let n = tx.seal(&mut pkt, b"payload").unwrap();
    assert_eq!(n, 16 + 7 + 16);
    assert_eq!(pkt[0], 4);
    assert_eq!(&pkt[4..8], &9u32.to_be_bytes());
    assert_eq!(&pkt[8..16], &0u64.to_be_bytes());
    assert_eq!(tx.send.counter, 1);
    let mut out = [0u8; 32];
    let m = rx.open(&pkt[..n], 0, &mut out).unwrap();
    assert_eq!(&out[..m], b"payload");
    // The same counter again is a replay, counter zero included.
    assert_eq!(rx.open(&pkt[..n], 0, &mut out), Err(TransportError::Replay));
    let mut pkt2 = [0u8; 64];
    let n2 = tx.seal(&mut pkt2, b"second!").unwrap();
    assert_eq!(&pkt2[8..16], &1u64.to_be_bytes());
    assert_eq!(rx.open(&pkt2[..n2], 1, &mut out), Ok(7));
    assert_eq!(&out[..7], b"second!");
    assert_eq!(rx.open(&pkt2[..n2], 1, &mut out), Err(TransportError::Replay));
    // Too short to hold a header.
    assert_eq!(rx.open(&pkt[..10], 0, &mut out), Err(TransportError::OutOfRange));
    // A tampered packet does not authenticate.
    let mut bad = pkt;
    bad[20] ^= 1;
    assert_eq!(rx.open(&bad[..n], 0, &mut out), Err(TransportError::DecryptFailed));
    // Output too small for the packet.
    let mut small = [0u8; 8];
    assert_eq!(tx.seal(&mut small, b"payload"), Err(TransportError::OutOfRange));
}

#[test]
fn cipher_state_rekey_bound() {
    let mut c = CipherState::new();
    c.counter = 1 << 48;
    let mut out = [0u8; 32];
    assert_eq!(c.seal(&mut out, b"x", b""), Err(TransportError::RekeyRequired));
    c.zero();
    assert_eq!(c.counter, 0);
    assert!(c.seal(&mut out, b"x", b"").is_ok());
    assert_eq!(c.counter, 1);
    let mut r = RecvState::new();
    assert_eq!(r.open(&mut out, b"", &[0u8; 3], 0), Err(TransportError::DecryptFailed));
}

#[test]
fn due_for_rekey_by_time_and_count() {
    let mut s = TransportSession::new();
    s.key_epoch_ms = 1000;
    assert!(!s.due_for_rekey(1000 + 119_999));
    assert!(s.due_for_rekey(1000 + 120_000));
    s.send.counter = 1 << 48;
    assert!(s.due_for_rekey(0));
}

#[test]
fn session_table_admit_lookup_release() {
    let mut t = SessionTable::new();
    assert!(t.lookup(3).is_none());
    assert_eq!(t.try_admit(600, 1, [1; 32], [2; 32], [3; 32], 5), Err(TransportError::OutOfRange));
    t.try_admit(3, 8, [1; 32], [2; 32], [3; 32], 5).unwrap();
    assert_eq!(t.try_admit(3, 8, [1; 32], [2; 32], [3; 32], 5), Err(TransportError::SlotFull));
    {
        let s = t.lookup(3).unwrap();
        assert_eq!(s.peer_index, 8);
        s.bound = true;
    }
    assert!(t.lookup_immut(3).unwrap().bound);
    t.release(3);
    assert!(t.lookup_immut(3).is_none());
    t.release(9999);
}
