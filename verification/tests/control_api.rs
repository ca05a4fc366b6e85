use bolina::control_api::{
    events_sse_body, get_intent_state, metrics_body, parse_id_hex, parse_since, post_intent, ApiError,
    EventRing, EventTag, IntentOutcome, Metrics, RING_CAP,
};
use bolina::state::intent::{IntentError, Table};
use bolina::transport::resolver::{executor_fp, ResolveError, Resolver};

#[test]
fn ring_off_by_one_seq8() {
    let mut ring = EventRing::new();
    for _ in 0..(RING_CAP + 7) {
        ring.publish(EventTag::IntentAdmitted);
    }
    assert_eq!(ring.events.len(), RING_CAP);
    assert_eq!(ring.events[0].0, 8);
    assert_eq!(ring.events.last().unwrap().0, 263);
}

#[test]
fn parse_since_rejects_non_digits() {
    assert!(parse_since("0").is_ok());
    assert!(parse_since("42").is_ok());
    assert!(parse_since("").is_err());
    assert!(parse_since("4x2").is_err());
    assert!(parse_since("-1").is_err());
    assert!(parse_since("+1").is_err());
}

#[test]
fn parse_since_values_and_overflow() {
    assert_eq!(parse_since("42"), Ok(42));
    assert_eq!(parse_since("18446744073709551615"), Ok(u64::MAX));
    assert_eq!(parse_since("18446744073709551616"), Err(ApiError::BadRequest));
}

#[test]
fn parse_id_hex_set() {
    let hex = "ab".repeat(32);
    let bytes = parse_id_hex(&hex).unwrap();
    assert_eq!(bytes[0], 0xab);
    assert_eq!(bytes[31], 0xab);
    assert_eq!(parse_id_hex("ab"), Err(ApiError::BadRequest));
    let bad = format!("{}zz", "a".repeat(62));
    assert_eq!(parse_id_hex(&bad), Err(ApiError::BadRequest));
}

#[test]
fn parse_id_hex_mixed_case() {
    let hex = format!("0F{}", "a1".repeat(31));
    let bytes = parse_id_hex(&hex).unwrap();
    assert_eq!(bytes[0], 0x0f);
    assert_eq!(bytes[1], 0xa1);
}

#[test]
fn subject_required_f16() {
    let mut r = Resolver::new(&[7u8; 32]);
    let mut t = Table::new();
    let mut m = Metrics { admitted_total: 0 };
    let mut ring = EventRing::new();

    let no_subj = format!(
        "{{\"id\":\"{}\",\"resource\":\"bol:dev/x\",\"action\":\"read\",\"rationale\":\"r\"}}",
        "ab".repeat(32)
    );
    assert_eq!(
        post_intent(&no_subj, &mut r, &mut t, &mut m, &mut ring, 0),
        Err(ApiError::BadRequest)
    );
    assert_eq!(m.admitted_total, 0);
}

fn canonical_for(key: &[u8; 32]) -> String {
    let fp = executor_fp(key);
    format!("bol:{}/dev/x", std::str::from_utf8(&fp).unwrap())
}

#[test]
fn post_intent_admits_then_idempotent() {
    let key = [7u8; 32];
    let mut r = Resolver::new(&key);
    let canon = canonical_for(&key);
    r.add(canon.as_bytes()).unwrap();
    let mut t = Table::new();
    let mut m = Metrics { admitted_total: 0 };
    let mut ring = EventRing::new();
    let body = format!(
        "{{\"id\": \"{}\", \"resource\" :\u{a0}\"{}\",\"action\":\"read\",\"rationale\":\"r\",\"subject\":\"{}\"}}",
        "ab".repeat(32),
        canon,
        "cd".repeat(32)
    );
    assert_eq!(post_intent(&body, &mut r, &mut t, &mut m, &mut ring, 5), Ok(IntentOutcome::Accepted));
    assert_eq!(m.admitted_total, 1);
    assert_eq!(t.entries.len(), 1);
    assert_eq!(ring.events.len(), 1);
    assert_eq!(
        post_intent(&body, &mut r, &mut t, &mut m, &mut ring, 6),
        Ok(IntentOutcome::AcceptedIdempotent)
    );
    assert_eq!(m.admitted_total, 1);
    let id = parse_id_hex(&"ab".repeat(32)).unwrap();
    assert_eq!(get_intent_state(&id, &t), Ok("pending"));
    assert_eq!(get_intent_state(&[0u8; 32], &t), Err(ApiError::NotFound));
}

#[test]
fn post_intent_unknown_resource_is_unprocessable() {
    let mut r = Resolver::new(&[7u8; 32]);
    let mut t = Table::new();
    let mut m = Metrics { admitted_total: 0 };
    let mut ring = EventRing::new();
    let body = format!(
        "{{\"id\":\"{}\",\"resource\":\"bol:dev/x\",\"action\":\"read\",\"rationale\":\"r\",\"subject\":\"{}\"}}",
        "ab".repeat(32),
        "cd".repeat(32)
    );
    let e = post_intent(&body, &mut r, &mut t, &mut m, &mut ring, 0).unwrap_err();
    assert_eq!(e, ApiError::Resolve(ResolveError::UnknownResource));
    assert_eq!(e.status(), 422);
    assert_eq!(ApiError::from(ResolveError::Intent(IntentError::ResourceHeld)).status(), 409);
    assert_eq!(ApiError::Intent(IntentError::TableFull).status(), 503);
    assert_eq!(ApiError::Intent(IntentError::DuplicateIntentId).status(), 202);
}

#[test]
fn metrics_body_verbatim() {
    let body = metrics_body(3, 10, 1, 2);
    assert_eq!(
        body,
        "bolina_intents_admitted_total 3\n\
         bolina_ctl_requests_total 10\n\
         bolina_ctl_auth_refused_total 1\n\
         bolina_ctl_timeouts_total 2\n"
    );
}

#[test]
fn sse_lines_end_double_newline() {
    let mut ring = EventRing::new();
    ring.publish(EventTag::IntentAdmitted);
    ring.publish(EventTag::GrantExecuted);
    let body = events_sse_body(&ring, 0);
    assert_eq!(
        body,
        "event: intent_admitted\ndata: 1\n\nevent: grant_executed\ndata: 2\n\n"
    );
    assert_eq!(events_sse_body(&ring, 1), "event: grant_executed\ndata: 2\n\n");
    assert_eq!(events_sse_body(&ring, 99), "");
}
