use bolina::transport::sync::{
    build_response, RateTable, RateWindow, ServeItem, WalkQueue, MAX_RESPONSE_BYTES, RATE_WINDOW_MS,
    SERVE_BUDGET, WALK_MAX_DEPTH, WALK_MAX_TOTAL,
};

#[test]
fn be_sync_03_walk_stops_at_depth_128() {
    let mut w = WalkQueue::new([1u8; 32]);
    for i in 0..199u8 {
        w.push([i; 32]).unwrap();
    }
    let mut pops = 0;
    while w.next().is_some() {
        pops += 1;
    }
    assert_eq!(pops, WALK_MAX_DEPTH);
    assert_eq!(w.depth(), WALK_MAX_DEPTH);
}

#[test]
fn be_sync_03_walk_stops_at_total_4096() {
    let mut w = WalkQueue::new([0u8; 32]);
    let mut refused = false;
    for i in 0..WALK_MAX_TOTAL + 10 {
        let mut h = [0u8; 32];
        h[..8].copy_from_slice(&(i as u64).to_be_bytes());
        if w.push(h).is_err() {
            refused = true;
            break;
        }
    }
    assert!(refused, "walk must refuse past total bound (fail closed)");
    assert!(w.total() <= WALK_MAX_TOTAL);
}

#[test]
fn be_sync_03_unresolved_surfaced_never_retried() {
    let mut w = WalkQueue::new([9u8; 32]);
    w.next();
    w.record([9u8; 32], false);
    assert_eq!(w.unresolved(), &[[9u8; 32]]);
    w.push([9u8; 32]).unwrap();
    assert_eq!(w.unresolved().len(), 1);
    assert_eq!(w.queued(), 0);
}

#[test]
fn rate_window_admits_budget_then_refuses() {
    let mut w = RateWindow::new(2);
    assert!(w.try_admit(RATE_WINDOW_MS, 1000));
    assert!(w.try_admit(RATE_WINDOW_MS, 1001));
    assert!(!w.try_admit(RATE_WINDOW_MS, 1002));
    // the window slides: both stamps are older than the window
    assert!(w.try_admit(RATE_WINDOW_MS, 1000 + RATE_WINDOW_MS + 1));
}

#[test]
fn rate_table_full_refuses_new_peer() {
    let mut t = RateTable::new(SERVE_BUDGET);
    for i in 0..64u8 {
        assert!(t.try_admit([i; 32], RATE_WINDOW_MS, 5));
    }
    assert_eq!(t.used(), 64);
    assert!(!t.try_admit([200u8; 32], RATE_WINDOW_MS, 5));
    assert!(t.try_admit([3u8; 32], RATE_WINDOW_MS, 6));
}

#[test]
fn build_response_skips_known_and_counts() {
    let mut out = vec![0xeeu8; MAX_RESPONSE_BYTES];
    let items = vec![
        ServeItem { hash: [1u8; 32], wire: vec![1, 2, 3] },
        ServeItem { hash: [2u8; 32], wire: vec![4, 5] },
    ];
    let r = build_response(&mut out, [7u8; 32], &items, &[[1u8; 32]]);
    assert_eq!(r.count, 1);
    assert!(!r.truncated);
    assert_eq!(r.bytes_written, 36);
    assert_eq!(out[0], 1);
    assert_eq!(&out[1..33], &[7u8; 32]);
    assert_eq!(out[33], 1);
    assert_eq!(&out[34..36], &[4, 5]);
    assert_eq!(out[36], 0xee);
}

#[test]
fn build_response_short_buffer_gets_nothing() {
    let mut out = vec![0u8; 10];
    let r = build_response(&mut out, [7u8; 32], &[], &[]);
    assert_eq!((r.count, r.truncated, r.bytes_written), (0, false, 0));
}

#[test]
fn build_response_truncates_at_byte_bound() {
    let mut out = vec![0u8; MAX_RESPONSE_BYTES];
    let items = vec![ServeItem { hash: [1u8; 32], wire: vec![9u8; MAX_RESPONSE_BYTES] }];
    let r = build_response(&mut out, [7u8; 32], &items, &[]);
    assert_eq!(r.count, 0);
    assert!(r.truncated);
    assert_eq!(r.bytes_written, 34);
}

#[test]
fn build_response_fits_exact_buffer() {
    let mut out = vec![0u8; 39];
    let items = vec![
        ServeItem { hash: [1u8; 32], wire: vec![1, 2, 3] },
        ServeItem { hash: [2u8; 32], wire: vec![4, 5] },
    ];
    let r = build_response(&mut out, [7u8; 32], &items, &[]);
    assert_eq!((r.count, r.truncated, r.bytes_written), (2, false, 39));
    assert_eq!(&out[34..39], &[1, 2, 3, 4, 5]);
}
