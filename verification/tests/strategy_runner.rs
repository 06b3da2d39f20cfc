use greenrock::fixed::SCALE;
use greenrock::runner::Runner;
use greenrock::strategy::{
    MinimalState, MinimalStrategy, Strategy, StrategyAction, StrategyContext,
};
use greenrock::timeseries::Candle;

fn flat(close: u64, ts: u64) -> Candle {
    Candle::new(close, close, close, close, 0, ts)
}

#[test]
fn minimal_strategy_emits_then_passes() {
    let strategy = MinimalStrategy::new();
    let mut ctx = StrategyContext::new();
    let mut state = MinimalState {
        macd: 0,
        ema: 0,
        st: 0,
        last_timestamp: 0,
        last_trend: -1,
    };
    // Ten flat bars: zero true range makes both SuperTrend bands sit on
    // the close, so the trend reads bullish.
    let mut snapshot = Vec::new();
    for i in 0..10u64 {
        snapshot.push(flat(100 * SCALE, (i + 1) * 60_000));
    }
    let bar = snapshot[9];
    let at_ms = bar.timestamp;
    let action = strategy.tick(
        &mut ctx,
        at_ms,
        &mut state,
        "BTCUSDT".to_string(),
        &snapshot,
        bar,
    );
    match action {
        StrategyAction::Emitted(a) => {
            assert_eq!(a.id, "sell");
            assert_eq!(a.amount, SCALE / 100);
            assert_eq!(a.symbol, "BTCUSDT");
            assert_eq!(a.timestamp, at_ms);
        }
        StrategyAction::Pass => panic!("expected an emission on the first bullish tick"),
    }
    assert_eq!(state.st, 1);
    assert_eq!(state.last_trend, 1);
    assert_eq!(state.last_timestamp, at_ms / 1000);

    // The same bar again: same second, same trend, no emission.
    let again = strategy.tick(
        &mut ctx,
        at_ms,
        &mut state,
        "BTCUSDT".to_string(),
        &snapshot,
        bar,
    );
    assert!(matches!(again, StrategyAction::Pass));
}

#[test]
fn minimal_strategy_initial_state() {
    let strategy = MinimalStrategy::new();
    let s = strategy.initial_state();
    assert_eq!(s.macd, 0);
    assert_eq!(s.ema, 0);
    assert_eq!(s.st, 0);
    assert_eq!(s.last_timestamp, 0);
    assert_eq!(s.last_trend, -1);
}

#[test]
fn minimal_strategy_portfolio_weights() {
    let strategy = MinimalStrategy::new();
    let p = strategy.portfolio();
    assert_eq!(p.len(), 3);
    assert_eq!(p[0].0, "BTCUSDT");
    assert_eq!(p[0].1, SCALE / 2);
    assert_eq!(p[1].0, "ETHUSDT");
    assert_eq!(p[1].1, 3 * SCALE / 10);
    assert_eq!(p[2].0, "SOLUSDT");
    assert_eq!(p[2].1, SCALE / 5);
}

#[test]
fn runner_seeds_backfill_and_ticks() {
    let strategy = MinimalStrategy::new();
    let state = strategy.initial_state();
    let (ctx, state) = strategy.init(StrategyContext::new(), state);
    let mut session = Runner::new(strategy, ctx, state);

    let mut backfill = Vec::new();
    for i in 0..10u64 {
        backfill.push(flat(100 * SCALE, (i + 1) * 60_000));
    }
    session.seed(&backfill);
    assert_eq!(session.snapshot().len(), 10);

    // A live bar republishing the last backfill bar updates in place.
    let refreshed = flat(101 * SCALE, 10 * 60_000);
    let action = session.on_bar("BTCUSDT".to_string(), refreshed);
    let snap = session.snapshot();
    assert_eq!(snap.len(), 10);
    assert_eq!(snap[9].close, 101 * SCALE);
    assert!(matches!(action, StrategyAction::Emitted(_)));

    // A fresh bar appends.
    let fresh = flat(102 * SCALE, 11 * 60_000);
    let _ = session.on_bar("BTCUSDT".to_string(), fresh);
    assert_eq!(session.snapshot().len(), 11);

    let (final_ctx, _final_state) = session.finish();
    assert_eq!(final_ctx.trades.len(), 0);
}
