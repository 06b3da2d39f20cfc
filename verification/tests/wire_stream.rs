use greenrock::fixed::{parse_fixed, parse_fixed_or_zero, PRICE_MAX, SCALE};
use greenrock::stream::{handle_kline_frame, Backoff, KlineFrameAction, WsFrame};
use greenrock::wire::{parse_kline, parse_order_book};

#[test]
fn parse_fixed_reads_plain_decimals() {
    assert_eq!(parse_fixed(b"103.25"), Some(103 * SCALE + SCALE / 4));
    assert_eq!(parse_fixed(b"0"), Some(0));
    assert_eq!(parse_fixed(b"42"), Some(42 * SCALE));
    assert_eq!(parse_fixed(b"0.00000001"), Some(1));
    assert_eq!(parse_fixed(b".5"), Some(SCALE / 2));
    assert_eq!(parse_fixed(b"7."), Some(7 * SCALE));
    // The ninth fraction digit lies below the scale and is truncated.
    assert_eq!(parse_fixed(b"1.000000019"), Some(SCALE + 1));
}

#[test]
fn parse_fixed_rejects_junk_and_overflow() {
    assert_eq!(parse_fixed(b""), None);
    assert_eq!(parse_fixed(b"."), None);
    assert_eq!(parse_fixed(b"1.2.3"), None);
    assert_eq!(parse_fixed(b"12a"), None);
    assert_eq!(parse_fixed(b"-1"), None);
    assert_eq!(parse_fixed(b"1e5"), None);
    assert_eq!(parse_fixed(b"10000001"), None);
    assert_eq!(parse_fixed(b"10000000"), Some(PRICE_MAX));
    assert_eq!(parse_fixed(b"99999999999999999999999"), None);
    assert_eq!(parse_fixed_or_zero("junk"), 0);
}

const KLINE_INLINE: &str = r#"{"e":"kline","E":1700000000123,"s":"BTCUSDT","k":{"t":1699999940000,"T":1700000000000,"s":"BTCUSDT","i":"1m","o":"100.5","h":"101.25","l":"99.75","c":"100.0","v":"12.5"}}"#;

const KLINE_ENVELOPE: &str = r#"{"stream":"btcusdt@kline_1m","data":{"k":{"T":1700000000000,"o":"100.5","h":"101.25","l":"99.75","c":"100.0","v":"12.5"}}}"#;

#[test]
fn parse_kline_reads_inline_frame() {
    let c = parse_kline(KLINE_INLINE).expect("kline frame should decode");
    assert_eq!(c.timestamp, 1_700_000_000_000);
    assert_eq!(c.open, 100 * SCALE + SCALE / 2);
    assert_eq!(c.high, 101 * SCALE + SCALE / 4);
    assert_eq!(c.low, 99 * SCALE + 3 * SCALE / 4);
    assert_eq!(c.close, 100 * SCALE);
    assert_eq!(c.volume, 12 * SCALE + SCALE / 2);
}

#[test]
fn parse_kline_reads_enveloped_frame() {
    let c = parse_kline(KLINE_ENVELOPE).expect("enveloped frame should decode");
    assert_eq!(c.timestamp, 1_700_000_000_000);
    assert_eq!(c.close, 100 * SCALE);
}

#[test]
fn parse_kline_drops_bad_frames() {
    assert!(parse_kline("not json").is_none());
    assert!(parse_kline(r#"{"e":"trade"}"#).is_none());
    // A frame whose prices invert the candle invariant is dropped.
    let inverted = r#"{"k":{"T":1,"o":"100","h":"90","l":"110","c":"100","v":"1"}}"#;
    assert!(parse_kline(inverted).is_none());
}

const DEPTH_FRAME: &str = r#"{"e":"depthUpdate","E":1700000000123,"s":"BTCUSDT","U":157,"u":160,"b":[["100.50","3.5"],["100.25","1.0"]],"a":[["100.75","2.25"]]}"#;

#[test]
fn parse_order_book_reads_depth_update() {
    let book = parse_order_book(DEPTH_FRAME).expect("depth frame should decode");
    assert_eq!(book.last_update_id, 160);
    assert_eq!(book.bids.len(), 2);
    assert_eq!(book.bids[0].price, 100 * SCALE + SCALE / 2);
    assert_eq!(book.bids[0].qty, 3 * SCALE + SCALE / 2);
    assert_eq!(book.bids[1].price, 100 * SCALE + SCALE / 4);
    assert_eq!(book.asks.len(), 1);
    assert_eq!(book.asks[0].price, 100 * SCALE + 3 * SCALE / 4);
    assert_eq!(book.asks[0].qty, 2 * SCALE + SCALE / 4);
}

#[test]
fn parse_order_book_requires_depth_event() {
    assert!(parse_order_book(r#"{"e":"kline","u":1,"b":[],"a":[]}"#).is_none());
    assert!(parse_order_book("not json").is_none());
}

#[test]
fn parse_order_book_level_shapes() {
    // A pair-short entry is skipped; the frame survives.
    let short = r#"{"e":"depthUpdate","u":5,"b":[["1.0"],["2.0","3.0"]],"a":[]}"#;
    let book = parse_order_book(short).expect("short entries are skipped, not fatal");
    assert_eq!(book.bids.len(), 1);
    assert_eq!(book.bids[0].price, 2 * SCALE);
    // A non-string element anywhere in a side drops the whole frame.
    let bad = r#"{"e":"depthUpdate","u":5,"b":[["1.0",2.0]],"a":[]}"#;
    assert!(parse_order_book(bad).is_none());
    // A side that is not an array drops the frame; a missing or null
    // side is empty.
    assert!(parse_order_book(r#"{"e":"depthUpdate","u":5,"b":7,"a":[]}"#).is_none());
    let no_sides = parse_order_book(r#"{"e":"depthUpdate","u":5,"b":null}"#).unwrap();
    assert!(no_sides.bids.is_empty());
    assert!(no_sides.asks.is_empty());
}

#[test]
fn parse_kline_null_envelope_falls_back() {
    // A null `data` member falls back to the top-level `k` object.
    let frame = r#"{"data":null,"k":{"T":7,"o":"1","h":"2","l":"0.5","c":"1.5","v":"3"}}"#;
    let c = parse_kline(frame).expect("null envelope should fall back");
    assert_eq!(c.timestamp, 7);
    assert_eq!(c.open, SCALE);
    assert_eq!(c.high, 2 * SCALE);
    assert_eq!(c.low, SCALE / 2);
    assert_eq!(c.close, SCALE + SCALE / 2);
    assert_eq!(c.volume, 3 * SCALE);
}

#[test]
fn backoff_doubles_and_caps() {
    let mut b = Backoff::new();
    let mut observed = Vec::new();
    for _ in 0..8 {
        observed.push(b.on_disconnect());
    }
    assert_eq!(observed, vec![1, 2, 4, 8, 16, 32, 60, 60]);
    b.on_connect();
    assert_eq!(b.on_disconnect(), 1);
}

#[test]
fn reconnect_delivers_after_backoff() {
    // A socket that closes after one text frame: the frame is
    // delivered, the loop breaks, and after a reconnect the next frame
    // is delivered again.
    let mut backoff = Backoff::new();
    backoff.on_connect();
    let first = handle_kline_frame(WsFrame::Text(KLINE_INLINE.to_string()));
    match first {
        KlineFrameAction::Publish(c) => assert_eq!(c.timestamp, 1_700_000_000_000),
        _ => panic!("the text frame should publish a candle"),
    }
    assert!(matches!(
        handle_kline_frame(WsFrame::Close),
        KlineFrameAction::Break
    ));
    let sleep = backoff.on_disconnect();
    assert_eq!(sleep, 1);
    // Reconnect succeeds: backoff resets, and the stream flows again.
    backoff.on_connect();
    assert_eq!(backoff.on_disconnect(), 1);
    backoff.on_connect();
    let next = handle_kline_frame(WsFrame::Text(KLINE_ENVELOPE.to_string()));
    assert!(matches!(next, KlineFrameAction::Publish(_)));
}

#[test]
fn frame_policy_for_control_frames() {
    let pong = handle_kline_frame(WsFrame::Ping(vec![1, 2, 3]));
    match pong {
        KlineFrameAction::ReplyPong(p) => assert_eq!(p, vec![1, 2, 3]),
        _ => panic!("a ping should be answered with its payload"),
    }
    assert!(matches!(
        handle_kline_frame(WsFrame::Binary(vec![0])),
        KlineFrameAction::Ignore
    ));
    assert!(matches!(
        handle_kline_frame(WsFrame::Pong(vec![])),
        KlineFrameAction::Ignore
    ));
    assert!(matches!(
        handle_kline_frame(WsFrame::Error),
        KlineFrameAction::Break
    ));
    assert!(matches!(
        handle_kline_frame(WsFrame::Text("garbage".to_string())),
        KlineFrameAction::Ignore
    ));
}
