use greenrock::fixed::SCALE;
use greenrock::timeseries::{Candle, CandleRing};

fn bar(ts: u64, close: u64) -> Candle {
    Candle::new(close, close, close, close, 0, ts)
}

#[test]
fn ring_eviction_capacity_three() {
    let mut ring = CandleRing::new(3);
    for ts in 1..=4u64 {
        ring.upsert(bar(ts, ts * SCALE));
    }
    let snap = ring.snapshot();
    assert_eq!(snap.len(), 3);
    assert_eq!(snap[0].timestamp, 2);
    assert_eq!(snap[1].timestamp, 3);
    assert_eq!(snap[2].timestamp, 4);
}

#[test]
fn ring_upsert_updates_in_place() {
    let mut ring = CandleRing::new(3);
    ring.upsert(bar(1, 10 * SCALE));
    ring.upsert(bar(2, 20 * SCALE));
    ring.upsert(bar(1, 11 * SCALE));
    let snap = ring.snapshot();
    assert_eq!(snap.len(), 2);
    assert_eq!(snap[0].timestamp, 1);
    assert_eq!(snap[0].close, 11 * SCALE);
    assert_eq!(snap[1].timestamp, 2);
    assert_eq!(snap[1].close, 20 * SCALE);
    let last = ring.last().unwrap();
    assert_eq!(last.timestamp, 2);
    assert_eq!(last.close, 20 * SCALE);
}

#[test]
fn ring_capacity_one_last_upsert_wins() {
    let mut ring = CandleRing::new(1);
    ring.upsert(bar(1, SCALE));
    ring.upsert(bar(2, 2 * SCALE));
    ring.upsert(bar(2, 3 * SCALE));
    assert_eq!(ring.len(), 1);
    let snap = ring.snapshot();
    assert_eq!(snap.len(), 1);
    assert_eq!(snap[0].timestamp, 2);
    assert_eq!(snap[0].close, 3 * SCALE);
}

#[test]
fn ring_upsert_twice_is_once() {
    let mut once = CandleRing::new(3);
    let mut twice = CandleRing::new(3);
    for ts in 1..=3u64 {
        once.upsert(bar(ts, ts * SCALE));
        twice.upsert(bar(ts, ts * SCALE));
    }
    let c = bar(2, 7 * SCALE);
    once.upsert(c);
    twice.upsert(c);
    twice.upsert(c);
    let a = once.snapshot();
    let b = twice.snapshot();
    assert_eq!(a.len(), b.len());
    for i in 0..a.len() {
        assert_eq!(a[i].timestamp, b[i].timestamp);
        assert_eq!(a[i].close, b[i].close);
    }
}

#[test]
fn ring_get_returns_latest_upsert() {
    let mut ring = CandleRing::new(3);
    ring.upsert(bar(5, SCALE));
    ring.upsert(bar(5, 9 * SCALE));
    let got = ring.get(5).unwrap();
    assert_eq!(got.close, 9 * SCALE);
    assert!(ring.get(6).is_none());
}

#[test]
fn ring_snapshot_is_detached_copy() {
    let mut ring = CandleRing::new(3);
    ring.upsert(bar(1, SCALE));
    let snap = ring.snapshot();
    ring.upsert(bar(1, 5 * SCALE));
    ring.upsert(bar(2, 6 * SCALE));
    assert_eq!(snap.len(), 1);
    assert_eq!(snap[0].close, SCALE);
}

#[test]
fn ring_backfill_then_live_matches_merged_feed() {
    // Backfill of three bars, then the live stream republishes the last
    // backfill bar with a fresher close.
    let backfill = [bar(1, SCALE), bar(2, 2 * SCALE), bar(3, 3 * SCALE)];
    let republished = bar(3, 33 * SCALE);

    let mut split = CandleRing::new(2);
    for c in backfill.iter() {
        split.upsert(*c);
    }
    split.upsert(republished);

    // The merged feed: duplicates removed, latest value wins in place.
    let merged = [bar(1, SCALE), bar(2, 2 * SCALE), republished];
    let mut direct = CandleRing::new(2);
    for c in merged.iter() {
        direct.upsert(*c);
    }

    let a = split.snapshot();
    let b = direct.snapshot();
    assert_eq!(a.len(), b.len());
    for i in 0..a.len() {
        assert_eq!(a[i].timestamp, b[i].timestamp);
        assert_eq!(a[i].close, b[i].close);
    }
}

#[test]
fn ring_iter_is_chronological() {
    let mut ring = CandleRing::new(5);
    for ts in [7u64, 9, 11] {
        ring.upsert(bar(ts, ts * SCALE));
    }
    let items = ring.iter();
    assert_eq!(items.len(), 3);
    assert_eq!(items[0].timestamp, 7);
    assert_eq!(items[1].timestamp, 9);
    assert_eq!(items[2].timestamp, 11);
    assert!(!ring.is_empty());
    assert_eq!(ring.len(), 3);
}
