use bolina::ledger_envelope::{AdmitError, Admission, EnvelopeEntry, Ledger, LedgerError as EnvLedgerError};
use bolina::state::intent::{IntentError, RefusalOutcome, Table, MAX_RESOURCE};
use bolina::transport::dag::{Dag, DagError};
use bolina::transport::evidence::{class_of, effective_confidence, is_volatile, EvidenceClass};
use bolina::transport::reassembly::{PeerEvent, PeerReassembler};
use bolina::transport::relay::{forward_packet, RelayEntry, RelayError, RelayRoute, RelayTable};
use bolina::transport::relay_store::{Store, StoreError};
use bolina::transport::replay::ReplayWindow;

#[test]
fn wide_replay_window_accepts_once() {
    let mut w = ReplayWindow::new();
    assert!(w.check(10));
    assert!(!w.check(10));
    assert!(w.check(5));
    assert!(!w.check(5));
    assert!(w.check(2000));
    // More than the window behind the highest: refused.
    assert!(!w.check(900));
    assert!(w.check(1999));
    assert!(!w.check(1999));
}

#[test]
fn relay_route_encode_then_parse() {
    let r = RelayRoute { sender_index: 7, recipient_index: 9, timestamp: 1234 };
    let mut buf = [0u8; 20];
    r.encode(&mut buf);
    let back = RelayRoute::parse(&buf).unwrap();
    assert_eq!(back.sender_index, 7);
    assert_eq!(back.recipient_index, 9);
    assert_eq!(back.timestamp, 1234);
    assert!(RelayRoute::parse(&buf[..10]).is_err());
}

#[test]
fn relay_forward_checks_time_and_recipient() {
    let mut t = RelayTable::new();
    assert!(t.insert(RelayEntry { overlay_addr: [1u8; 16], relay_index: 1, client_index: 9, expiry: 5000 }));
    assert_eq!(t.count(), 1);
    let r = RelayRoute { sender_index: 7, recipient_index: 9, timestamp: 1000 };
    assert_eq!(forward_packet(&t, &r, b"pkt", 1000), Ok(&b"pkt"[..]));
    assert_eq!(forward_packet(&t, &r, b"pkt", 2000), Err(RelayError::StaleRoute));
    let r2 = RelayRoute { sender_index: 7, recipient_index: 8, timestamp: 1000 };
    assert_eq!(forward_packet(&t, &r2, b"pkt", 1000), Err(RelayError::UnknownRecipient));
    t.prune(6000);
    assert_eq!(t.count(), 0);
}

#[test]
fn reassembly_completes_and_counts_duplicates() {
    let mut p: PeerReassembler<8, 64> = PeerReassembler::new();
    assert_eq!(p.ingest(0, 1, 0, 3, 100), PeerEvent::Partial);
    assert_eq!(p.ingest(0, 1, 0, 3, 100), PeerEvent::Duplicate);
    assert_eq!(p.active_contexts(), 1);
    assert_eq!(p.bytes_in_use(), 100);
    assert_eq!(p.ingest(0, 1, 1, 3, 100), PeerEvent::Partial);
    assert_eq!(p.ingest(0, 1, 2, 3, 100), PeerEvent::Complete);
    assert_eq!(p.active_contexts(), 0);
    assert_eq!(p.bytes_in_use(), 0);
}

#[test]
fn relay_store_holds_then_drains_in_order() {
    let mut s = Store::new();
    let addr = [3u8; 16];
    s.store(addr, 1, b"first", 0).unwrap();
    s.store(addr, 2, b"second", 0).unwrap();
    assert_eq!(s.store(addr, 3, &[0u8; 4096], 0), Err(StoreError::BodyTooLarge));
    let a = s.drain_next(&addr, 10).unwrap();
    assert_eq!(a.sender_index, 1);
    assert_eq!(a.body, b"first");
    let b = s.drain_next(&addr, 10).unwrap();
    assert_eq!(b.sender_index, 2);
    assert!(s.drain_next(&addr, 10).is_none());
}

#[test]
fn evidence_ceilings() {
    assert_eq!(class_of(3), EvidenceClass::DirectObservation);
    assert_eq!(class_of(6), EvidenceClass::Documentation);
    assert_eq!(class_of(7), EvidenceClass::ExpertTestimony);
    assert_eq!(class_of(99), EvidenceClass::Inference);
    assert_eq!(effective_confidence(250, 242), 242);
    assert_eq!(effective_confidence(100, 242), 100);
    assert!(is_volatile(0));
    assert!(!is_volatile(2));
}

#[test]
fn intent_table_refuses_duplicates_and_held_resources() {
    let mut t = Table::new();
    let mut res = [0u8; MAX_RESOURCE];
    res[..3].copy_from_slice(b"r/1");
    t.try_admit(&[1u8; 16], &res, 3, 0).unwrap();
    assert_eq!(t.try_admit(&[1u8; 16], &res, 3, 0), Err(IntentError::DuplicateIntentId));
    assert_eq!(t.try_admit(&[2u8; 16], &res, 3, 0), Err(IntentError::ResourceHeld));
    assert_eq!(t.len(), 1);
    assert_eq!(t.apply_refusal(&[1u8; 16]), RefusalOutcome::Rejected);
    assert_eq!(t.apply_refusal(&[9u8; 16]), RefusalOutcome::NoMatch);
}

#[test]
fn dag_ancestry_is_transitive_and_acyclic() {
    let mut d = Dag::new();
    let (a, b, c) = ([1u8; 32], [2u8; 32], [3u8; 32]);
    d.insert(&a, &b).unwrap();
    d.insert(&b, &c).unwrap();
    assert!(d.is_ancestor(&a, &c));
    assert!(!d.is_ancestor(&c, &a));
    assert_eq!(d.insert(&c, &a), Err(DagError::Cyclic));
    assert_eq!(d.insert(&a, &a), Err(DagError::Cyclic));
    assert!(d.supersedes(&a, &b, &c));
}

#[test]
fn dag_insert_is_idempotent_and_bounded() {
    let mut d = Dag::new();
    let child = [200u8; 32];
    d.insert(&[0u8; 32], &child).unwrap();
    assert_eq!(d.insert(&[0u8; 32], &child), Ok(()));
    for i in 1..8u8 {
        d.insert(&[i; 32], &child).unwrap();
    }
    // the ninth distinct parent of one child is refused
    assert_eq!(d.insert(&[8u8; 32], &child), Err(DagError::Overflow));
    // a repeat of a present edge is still accepted
    assert_eq!(d.insert(&[3u8; 32], &child), Ok(()));
    // the node table holds 128 nodes
    let mut full = Dag::new();
    for i in 0..64u8 {
        full.insert(&[i; 32], &[i + 100; 32]).unwrap();
    }
    assert_eq!(full.insert(&[250u8; 32], &[251u8; 32]), Err(DagError::Overflow));
}

#[test]
fn envelope_admission_order_and_duplicates() {
    let mut l = Ledger::new();
    let (s, c) = ([2u8; 32], [3u8; 32]);
    assert_eq!(l.admit_envelope(&[1u8; 32], &s, &c, 1, &[]), Ok(Admission::Admitted));
    assert_eq!(l.admit_envelope(&[1u8; 32], &s, &c, 1, &[]), Ok(Admission::Duplicate));
    assert_eq!(
        l.admit_envelope(&[9u8; 32], &s, &c, 1, &[]),
        Err(AdmitError::Ledger(EnvLedgerError::Divergence))
    );
    // a missing parent is refused and consumes no sequence number
    assert_eq!(l.admit_envelope(&[5u8; 32], &s, &c, 2, &[[7u8; 32]]), Err(AdmitError::MissingParent));
    assert_eq!(l.admit_envelope(&[5u8; 32], &s, &c, 2, &[[1u8; 32]]), Ok(Admission::Admitted));
    assert_eq!(l.envelope_count(), 2);
    assert_eq!(l.find_envelope(&s, &c, 2), Some([5u8; 32]));
    assert_eq!(l.find_envelope(&s, &c, 3), None);
}

#[test]
fn envelope_ledger_store_and_sequence() {
    let mut l = Ledger::new();
    let e = EnvelopeEntry { hash: [1u8; 32], sender: [2u8; 32], channel: [3u8; 32], seq: 1 };
    l.insert_envelope(e.clone()).unwrap();
    assert_eq!(l.envelope_count(), 1);
    assert!(l.all_parents_present(&[[1u8; 32]]));
    assert!(!l.all_parents_present(&[[9u8; 32]]));
    l.check_seq(&[2u8; 32], &[3u8; 32], 5).unwrap();
    assert_eq!(l.check_seq(&[2u8; 32], &[3u8; 32], 5), Err(EnvLedgerError::WindowStale));
    let diverging = EnvelopeEntry { hash: [7u8; 32], ..e };
    assert_eq!(l.insert_envelope(diverging), Err(EnvLedgerError::Divergence));
}
