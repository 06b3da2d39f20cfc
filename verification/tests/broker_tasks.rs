use greenrock::agents::{MarketAnalysis, MarketSearchArgs};
use greenrock::broker::{balance_from_entries, candles_from_rows, BinanceBroker, KlineRow};
use greenrock::fixed::SCALE;
use greenrock::stream::{handle_depth_frame, DepthFrameAction, WsFrame};
use greenrock::tasks::{
    BinanceOperationsTask, BinanceReportingTask, EntryInteractionTask, PortfolioAggregationTask,
    PortfolioReportingTask, PortfolioSelectionTask, RegimenAggregationTask, RegimenEvaluationTask,
    RegimenReportingTask, RegimenSelectionTask, RegimenSwitchingTask, ReplyGenerationTask,
};

#[test]
fn balance_keeps_positive_assets_only() {
    let entries = vec![
        ("BTC".to_string(), "0.5".to_string()),
        ("ETH".to_string(), "0".to_string()),
        ("SOL".to_string(), "12.25".to_string()),
        ("DOGE".to_string(), "garbage".to_string()),
    ];
    let balances = balance_from_entries(entries);
    assert_eq!(balances.len(), 2);
    assert_eq!(balances[0].0, "BTC");
    assert_eq!(balances[0].1, SCALE / 2);
    assert_eq!(balances[1].0, "SOL");
    assert_eq!(balances[1].1, 12 * SCALE + SCALE / 4);
}

#[test]
fn balance_deduplicates_assets_last_positive_wins() {
    let entries = vec![
        ("BTC".to_string(), "1".to_string()),
        ("ETH".to_string(), "5".to_string()),
        ("BTC".to_string(), "2".to_string()),
        // A later zero row does not erase the last positive quote.
        ("ETH".to_string(), "0".to_string()),
    ];
    let balances = balance_from_entries(entries);
    assert_eq!(balances.len(), 2);
    assert_eq!(balances[0].0, "ETH");
    assert_eq!(balances[0].1, 5 * SCALE);
    assert_eq!(balances[1].0, "BTC");
    assert_eq!(balances[1].1, 2 * SCALE);
}

#[test]
fn candles_from_rows_decodes_and_filters() {
    let rows = vec![
        KlineRow {
            close_time: 1_700_000_000_000,
            open: "100.5".to_string(),
            high: "101.0".to_string(),
            low: "99.5".to_string(),
            close: "100.75".to_string(),
            volume: "3.5".to_string(),
        },
        // An inverted row breaks the candle invariant and is dropped.
        KlineRow {
            close_time: 1_700_000_060_000,
            open: "100.0".to_string(),
            high: "90.0".to_string(),
            low: "110.0".to_string(),
            close: "100.0".to_string(),
            volume: "1.0".to_string(),
        },
    ];
    let candles = candles_from_rows(rows);
    assert_eq!(candles.len(), 1);
    assert_eq!(candles[0].timestamp, 1_700_000_000_000);
    assert_eq!(candles[0].open, 100 * SCALE + SCALE / 2);
    assert_eq!(candles[0].high, 101 * SCALE);
    assert_eq!(candles[0].low, 99 * SCALE + SCALE / 2);
    assert_eq!(candles[0].close, 100 * SCALE + 3 * SCALE / 4);
    assert_eq!(candles[0].volume, 3 * SCALE + SCALE / 2);
}

#[test]
fn depth_frame_policy_publishes_books() {
    let frame = r#"{"e":"depthUpdate","u":7,"b":[["1.5","2.0"]],"a":[]}"#;
    let action = handle_depth_frame(WsFrame::Text(frame.to_string()));
    match action {
        DepthFrameAction::Publish(book) => {
            assert_eq!(book.last_update_id, 7);
            assert_eq!(book.bids.len(), 1);
            assert_eq!(book.bids[0].price, SCALE + SCALE / 2);
            assert_eq!(book.bids[0].qty, 2 * SCALE);
            assert!(book.asks.is_empty());
        }
        _ => panic!("a depth update should publish"),
    }
    assert!(matches!(
        handle_depth_frame(WsFrame::Close),
        DepthFrameAction::Break
    ));
    match handle_depth_frame(WsFrame::Ping(vec![9])) {
        DepthFrameAction::ReplyPong(p) => assert_eq!(p, vec![9]),
        _ => panic!("a ping should be answered"),
    }
}

#[test]
fn broker_handle_constructs() {
    let _a = BinanceBroker::new();
    let _b = BinanceBroker::default();
}

#[test]
fn workflow_task_handles_construct() {
    let _ = BinanceReportingTask::new();
    let _ = BinanceReportingTask::default();
    let _ = PortfolioAggregationTask::new();
    let _ = PortfolioSelectionTask::new();
    let _ = RegimenSwitchingTask::new();
    let _ = BinanceOperationsTask::new();
    let _ = PortfolioReportingTask::new();
    let _ = RegimenAggregationTask::new();
    let _ = RegimenEvaluationTask::new();
    let _ = RegimenReportingTask::new();
    let _ = RegimenSelectionTask::new();
    let _ = ReplyGenerationTask::new();
    let entry = EntryInteractionTask::new("assist the trader".to_string());
    assert_eq!(entry.system_prompt, "assist the trader");
}

#[test]
fn market_analysis_tool_name() {
    let tool = MarketAnalysis;
    assert_eq!(tool.name(), "search_price");
    let args = MarketSearchArgs {
        crypto: "BTC".to_string(),
    };
    assert_eq!(args.crypto, "BTC");
}
