use bolina::control::{read_step, response_head, state_after_headers, status_text, ConnState, ReadStep};
use bolina::control_api::{ApiError, EventTag, IntentOutcome};
use bolina::daemon::{
    auth_gate, bearer_ok, envelope_hash, post_reply, state_reply, extract_since, outcome_tag, parents_of, route_of, split_binding,
    transport_header, AuthVerdict, Route,
};
use bolina::http_parse::Method;
use bolina::relay_serve::{classify_datagram, classify_route, EndpointMap, ServeResult};
use bolina::state::ledger::{GrantState, LedgerError, MAX_LIVE, TAG_COMMIT};
use bolina::transport::dispatch::Outcome;
use bolina::transport::grant_trace::{fingerprint as fnv, Tag, TraceRing, CAP};
use bolina::transport::listener::{EndpointRegistry, ListenError};
use std::cell::RefCell;

// --- the grant ledger -----------------------------------------------------------------

fn commit_rec(id: u8, expiry: u64) -> Vec<u8> {
    let mut r = vec![TAG_COMMIT];
    r.extend_from_slice(&[id; 16]);
    r.extend_from_slice(&expiry.to_be_bytes());
    r
}

#[test]
fn ledger_replay_and_orphans() {
    let mut log = Vec::new();
    log.extend(commit_rec(1, 100));
    log.extend(commit_rec(2, 200));
    log.push(2);
    log.extend_from_slice(&[1u8; 16]);
    let st = GrantState::replay(&log).unwrap();
    assert!(!st.is_consumed(&[1u8; 16]));
    assert!(st.is_published(&[1u8; 16]));
    assert!(st.is_consumed(&[2u8; 16]));
    let rec = st.recovery();
    assert_eq!(rec.orphans, vec![[2u8; 16]]);
    assert_eq!(rec.consumed_count, 1);
    assert_eq!(rec.revoked_count, 0);
    // A torn trailing record is ignored.
    let mut torn = log.clone();
    torn.extend_from_slice(&commit_rec(3, 1)[..10]);
    let st2 = GrantState::replay(&torn).unwrap();
    assert!(!st2.is_consumed(&[3u8; 16]));
    assert_eq!(st2.recovery().orphans, vec![[2u8; 16]]);
    // An unknown tag is a bad log.
    let mut bad = log.clone();
    bad.push(9);
    assert_eq!(GrantState::replay(&bad).err(), Some(LedgerError::BadLog));
    // The records before the bad tag are kept by the partial replay.
    let (partial, stopped) = GrantState::replay_records(&bad);
    assert!(stopped);
    assert!(partial.is_consumed(&[2u8; 16]));
    let (whole, stopped2) = GrantState::replay_records(&log);
    assert!(!stopped2);
    assert_eq!(whole.recovery().orphans, st.recovery().orphans);
}

#[test]
fn ledger_mutations_append_then_apply() {
    let log = RefCell::new(Vec::<u8>::new());
    let append = |b: &[u8]| {
        log.borrow_mut().extend_from_slice(b);
        Ok(())
    };
    let rewrite = |b: &[u8]| {
        *log.borrow_mut() = b.to_vec();
        Ok(())
    };
    let fail = |_b: &[u8]| Err(LedgerError::DiskError);
    let mut st = GrantState::new();
    st.commit_consumed(&[1u8; 16], 50, 0, true, &append, &rewrite).unwrap();
    st.commit_consumed(&[1u8; 16], 50, 0, true, &append, &rewrite).unwrap();
    assert_eq!(log.borrow().len(), 25);
    st.record_first_receipt(&[1u8; 16], 7, true, &append).unwrap();
    st.record_first_receipt(&[1u8; 16], 8, true, &append).unwrap();
    assert_eq!(st.get_first_receipt(&[1u8; 16]), Some(7));
    st.commit_revocation(&[4u8; 32], 900, true, &append).unwrap();
    assert!(st.is_revoked(&[4u8; 32]));
    st.mark_published(&[1u8; 16], true, &append).unwrap();
    assert!(!st.is_consumed(&[1u8; 16]));
    // The log replays to the same state.
    let again = GrantState::replay(&log.borrow()).unwrap();
    assert!(again.is_published(&[1u8; 16]));
    assert!(again.is_revoked(&[4u8; 32]));
    assert_eq!(again.get_first_receipt(&[1u8; 16]), Some(7));
    // Re-committing a tombstoned grant is a no-op.
    st.commit_consumed(&[1u8; 16], 50, 0, true, &append, &rewrite).unwrap();
    assert!(!st.is_consumed(&[1u8; 16]));
    // Read-only handles refuse, a failed append changes nothing.
    assert_eq!(st.mark_published(&[2u8; 16], false, &append), Err(LedgerError::DiskError));
    assert_eq!(st.commit_consumed(&[3u8; 16], 50, 0, true, &fail, &rewrite), Err(LedgerError::DiskError));
    assert!(!st.is_consumed(&[3u8; 16]));
}

#[test]
fn ledger_prune_keeps_revocations() {
    let log = RefCell::new(Vec::<u8>::new());
    let append = |b: &[u8]| {
        log.borrow_mut().extend_from_slice(b);
        Ok(())
    };
    let rewrite = |b: &[u8]| {
        *log.borrow_mut() = b.to_vec();
        Ok(())
    };
    let mut st = GrantState::new();
    st.commit_consumed(&[1u8; 16], 10, 0, true, &append, &rewrite).unwrap();
    st.commit_consumed(&[2u8; 16], 1000, 0, true, &append, &rewrite).unwrap();
    st.commit_revocation(&[4u8; 32], 5, true, &append).unwrap();
    assert_eq!(st.prune_expired(100, false, &rewrite), Err(LedgerError::DiskError));
    st.prune_expired(100, true, &rewrite).unwrap();
    assert!(!st.is_consumed(&[1u8; 16]));
    assert!(st.is_consumed(&[2u8; 16]));
    assert!(st.is_revoked(&[4u8; 32]));
    let again = GrantState::replay(&log.borrow()).unwrap();
    assert!(again.is_consumed(&[2u8; 16]));
    assert!(!again.is_consumed(&[1u8; 16]));
    assert!(again.is_revoked(&[4u8; 32]));
    assert_eq!(again.recovery().orphans, vec![[2u8; 16]]);
}

#[test]
fn ledger_live_cap_prunes_first() {
    let append = |_b: &[u8]| Ok(());
    let rewrite = |_b: &[u8]| Ok(());
    let mut st = GrantState::new();
    for i in 0..MAX_LIVE {
        let mut id = [0u8; 16];
        id[..8].copy_from_slice(&(i as u64).to_be_bytes());
        st.commit_consumed(&id, 100, 0, true, &append, &rewrite).unwrap();
    }
    assert_eq!(st.consumed_len(), MAX_LIVE);
    assert_eq!(st.commit_consumed(&[0xffu8; 16], 100, 50, true, &append, &rewrite), Err(LedgerError::ResourceExhausted));
    st.commit_consumed(&[0xffu8; 16], 100, 100, true, &append, &rewrite).unwrap();
    assert_eq!(st.consumed_len(), 1);
}

// --- the trace ring -----------------------------------------------------------------

#[test]
fn trace_ring_numbers_and_overflows_once() {
    assert_eq!(fnv(b""), 0xcbf29ce484222325);
    assert_eq!(fnv(b"a"), 0xaf63dc4c8601ec8c);
    let mut t = TraceRing::new();
    t.emit(Tag::ReceiveIntent, 1, b"id", 10);
    t.emit2(Tag::EffectStart, 2, b"id", b"", 11);
    let s = t.snapshot();
    assert_eq!(s.len(), 2);
    assert_eq!(s[0].seq, 0);
    assert_eq!(s[1].seq, 1);
    assert_eq!(s[0].id, fnv(b"id"));
    assert_eq!(s[1].id2, 0);
    for _ in 2..CAP {
        t.emit(Tag::VerifyCheck, 0, b"x", 0);
    }
    assert_eq!(t.len(), CAP);
    t.emit(Tag::VerifyCheck, 0, b"x", 99);
    t.emit(Tag::VerifyCheck, 0, b"x", 100);
    assert_eq!(t.overflow(), 2);
    let last = t.snapshot()[CAP - 1];
    assert_eq!(last.tag, Tag::TraceOverflow);
    assert_eq!(last.seq, CAP as u32);
    assert_eq!(last.now_ms, 99);
    assert_eq!(Tag::TraceOverflow.id(), 255);
    assert_eq!(Tag::ExpirePending.id(), 18);
    t.reset();
    assert!(t.is_empty());
}

// --- registries -----------------------------------------------------------------------

#[test]
fn endpoint_registry_one_per_address_and_port() {
    let mut r = EndpointRegistry::new();
    r.claim(&[127, 0, 0, 1], 9000).unwrap();
    assert_eq!(r.claim(&[127, 0, 0, 1], 9000), Err(ListenError::EndpointBusy));
    r.claim(&[127, 0, 0, 1], 9001).unwrap();
    assert!(r.owns(&[127, 0, 0, 1], 9000));
    assert_eq!(r.count(), 2);
    r.release(&[127, 0, 0, 1], 9000);
    assert!(!r.owns(&[127, 0, 0, 1], 9000));
    assert!(r.owns(&[127, 0, 0, 1], 9001));
    r.release(&[10, 0, 0, 1], 1);
    assert_eq!(r.count(), 1);
    for p in 0..7u16 {
        r.claim(&[1, 1, 1, 1], p).unwrap();
    }
    assert_eq!(r.claim(&[2, 2, 2, 2], 1), Err(ListenError::EndpointBusy));
}

#[test]
fn relay_classifier_and_endpoints() {
    assert_eq!(classify_datagram(&[]), ServeResult::Dropped);
    assert_eq!(classify_datagram(&[1]), ServeResult::ToHandshake);
    assert_eq!(classify_datagram(&[3, 9]), ServeResult::ToHandshake);
    assert_eq!(classify_datagram(&[0x10]), ServeResult::Forwarded);
    assert_eq!(classify_datagram(&[0x11]), ServeResult::Registered);
    assert_eq!(classify_datagram(&[4]), ServeResult::Dropped);
    let mut m = EndpointMap::new();
    assert!(!m.put(128, &[1, 2], 2));
    assert!(!m.put(1, &[0u8; 40], 29));
    assert!(m.put(5, &[1, 2, 3], 3));
    assert_eq!(m.get(5).unwrap().addr[..3], [1, 2, 3]);
    assert_eq!(classify_route(&[], &m, 5), ServeResult::Forwarded);
    assert_eq!(classify_route(&[], &m, 6), ServeResult::Stored);
    assert!(m.remove(5));
    assert!(!m.remove(5));
    assert_eq!(classify_route(&[], &m, 5), ServeResult::Stored);
}

// --- the control plane and the node ---------------------------------------------------

#[test]
fn control_read_steps() {
    assert_eq!(read_step(ConnState::ReadingHeaders, b"GET / HTTP/1.1\r\n"), ReadStep::Wait);
    assert_eq!(read_step(ConnState::ReadingHeaders, b"GET / HTTP/1.1\r\n\r\nxy"), ReadStep::HeadersEnd(18));
    assert_eq!(read_step(ConnState::ReadingHeaders, &[b'a'; 1024]), ReadStep::Slowloris);
    assert_eq!(read_step(ConnState::ReadingBody, &[b'a'; 1024]), ReadStep::Wait);
    assert_eq!(state_after_headers(20, 18, Some(5)), ConnState::ReadingBody);
    assert_eq!(state_after_headers(23, 18, Some(5)), ConnState::Writing);
    assert_eq!(state_after_headers(18, 18, None), ConnState::Writing);
    assert_eq!(status_text(404), "Not Found");
    assert_eq!(status_text(418), "Unknown");
    assert_eq!(response_head(200, 3), "HTTP/1.1 200 OK\r\nContent-Length: 3\r\nConnection: close\r\n\r\n");
}

#[test]
fn node_frames() {
    let mut pkt = vec![4u8, 0, 0, 0, 0, 0, 0, 7];
    pkt.extend_from_slice(&9u64.to_be_bytes());
    assert_eq!(transport_header(&pkt), None);
    pkt.extend_from_slice(&[0u8; 16]);
    assert_eq!(transport_header(&pkt), Some((7, 9)));
    let mut frame = vec![0u8, 3, 1, 2, 3];
    frame.extend_from_slice(&[8u8; 64]);
    let (c, s) = split_binding(&frame).unwrap();
    assert_eq!(c, &[1, 2, 3]);
    assert_eq!(s, &[8u8; 64][..]);
    assert_eq!(split_binding(&frame[..60]), None);
    frame[1] = 9;
    assert_eq!(split_binding(&frame), None);
    let ps = [[1u8; 32], [2u8; 32]].concat();
    assert_eq!(parents_of(&ps, 2), Some(vec![[1u8; 32], [2u8; 32]]));
    assert_eq!(parents_of(&ps, 1), None);
    assert_eq!(envelope_hash(b"wire"), bolina::transport::verify::action_digest(b"wire"));
    assert_eq!(outcome_tag(Outcome::Control), Some(EventTag::ControlApplied));
    assert_eq!(outcome_tag(Outcome::Effect), None);
}

#[test]
fn node_routes_and_bearer() {
    assert_eq!(route_of(Method::Get, b"/healthz"), Route::Healthz);
    assert_eq!(route_of(Method::Post, b"/v1/intents"), Route::PostIntent);
    assert_eq!(route_of(Method::Get, b"/v1/intents/abcd"), Route::GetIntent);
    assert_eq!(route_of(Method::Get, b"/v1/events"), Route::Events);
    assert_eq!(route_of(Method::Get, b"/metrics"), Route::Metrics);
    assert_eq!(route_of(Method::Post, b"/healthz"), Route::NotFound);
    let tok = [b'a'; 64];
    let mut req = b"GET /x HTTP/1.1\r\nAuthorization: Bearer ".to_vec();
    req.extend_from_slice(&tok);
    req.extend_from_slice(b"\r\n\r\n");
    assert!(bearer_ok(&req, &tok));
    assert!(!bearer_ok(b"GET /x HTTP/1.1\r\n\r\n", &tok));
    assert_eq!(auth_gate(Some(&tok), &req, false), AuthVerdict::Allowed);
    assert_eq!(auth_gate(Some(&[b'b'; 64]), &req, true), AuthVerdict::Allowed);
    assert_eq!(auth_gate(Some(&[b'b'; 64]), &req, false), AuthVerdict::Refused { counted: true });
    assert_eq!(auth_gate(None, &req, true), AuthVerdict::Allowed);
    assert_eq!(auth_gate(None, &req, false), AuthVerdict::Refused { counted: false });
    let q = b"GET /v1/events?42 HTTP/1.1\r\n\r\n";
    assert_eq!(extract_since(q, Some(14)), Some(42));
    assert_eq!(extract_since(b"GET /v1/events?x HTTP/1.1", Some(14)), None);
    assert_eq!(extract_since(q, None), None);
}

#[test]
fn http_replies_for_intents() {
    assert_eq!(post_reply(Ok(IntentOutcome::Accepted)), (202, b"accepted\n".to_vec()));
    assert_eq!(post_reply(Ok(IntentOutcome::AcceptedIdempotent)), (202, b"idempotent\n".to_vec()));
    assert_eq!(post_reply(Err(ApiError::BadRequest)), (400, b"error\n".to_vec()));
    assert_eq!(state_reply(Ok("PENDING")), (200, b"PENDING\n".to_vec()));
    assert_eq!(state_reply(Err(ApiError::NotFound)), (404, b"error\n".to_vec()));
}
