use bolina::transport::dispatch::{init_durable_ledger, tombstone_orphan, EventSink, NullEventSink};

#[test]
fn init_durable_ledger_returns_zero_orphans_on_clean_start() {
    let mut orphans = Vec::new();
    let count = init_durable_ledger("/tmp/nonexistent", &mut orphans).unwrap();
    assert_eq!(count, 0);
}

#[test]
fn tombstone_orphan_succeeds() {
    let grant_id = [0xCC_u8; 16];
    assert!(tombstone_orphan(&grant_id).is_ok());
}

#[test]
fn null_event_sink_accepts_publishes() {
    let mut sink = NullEventSink;
    sink.publish(0, 1);
    sink.publish(1, 2);
}
