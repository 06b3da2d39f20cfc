use greenrock::analysis::{supertrend_bands, ClusterSelect, TechnicalAnalysis};
use greenrock::fixed::SCALE;
use greenrock::timeseries::Candle;

fn flat(close: u64, ts: u64) -> Candle {
    Candle::new(close, close, close, close, 0, ts)
}

fn ohlc(high: u64, low: u64, close: u64, ts: u64) -> Candle {
    Candle::new(close, high, low, close, 0, ts)
}

fn closes(values: &[u64]) -> Vec<Candle> {
    values
        .iter()
        .enumerate()
        .map(|(i, v)| flat(*v, i as u64 + 1))
        .collect()
}

#[test]
fn ema_exact_value() {
    let v = closes(&[100 * SCALE, 101 * SCALE, 102 * SCALE, 103 * SCALE]);
    assert_eq!(v.ema(3), 10_212_500_000);
}

#[test]
fn ema_empty_is_zero() {
    let v: Vec<Candle> = Vec::new();
    assert_eq!(v.ema(20), 0);
}

#[test]
fn rsi_empty_is_zero() {
    let v: Vec<Candle> = Vec::new();
    assert_eq!(v.rsi(14), 0);
}

#[test]
fn rsi_rising_window_is_full_scale() {
    let v = closes(&[100 * SCALE, 101 * SCALE, 102 * SCALE, 103 * SCALE]);
    assert_eq!(v.rsi(14), 100 * SCALE);
}

#[test]
fn rsi_flat_window_is_neutral() {
    let v = closes(&[100 * SCALE, 100 * SCALE, 100 * SCALE]);
    assert_eq!(v.rsi(14), 50 * SCALE);
}

#[test]
fn macd_empty_is_zero() {
    let v: Vec<Candle> = Vec::new();
    let m = v.macd(12, 26, 9);
    assert_eq!(m.macd, 0);
    assert_eq!(m.signal, 0);
    assert_eq!(m.histogram, 0);
}

#[test]
fn macd_exact_value() {
    let v = closes(&[
        SCALE,
        2 * SCALE,
        3 * SCALE,
        4 * SCALE,
        5 * SCALE,
        6 * SCALE,
        7 * SCALE,
        8 * SCALE,
        9 * SCALE,
        10 * SCALE,
    ]);
    let m = v.macd(2, 4, 2);
    assert_eq!(m.macd, 98_490_886);
    assert_eq!(m.signal, 97_754_110);
    assert_eq!(m.histogram, 736_776);
}

#[test]
fn macd_two_runs_agree() {
    let v = closes(&[
        SCALE,
        2 * SCALE,
        3 * SCALE,
        4 * SCALE,
        5 * SCALE,
        6 * SCALE,
        7 * SCALE,
        8 * SCALE,
        9 * SCALE,
        10 * SCALE,
    ]);
    let a = v.macd(2, 4, 2);
    let b = v.macd(2, 4, 2);
    assert_eq!(a.macd, b.macd);
    assert_eq!(a.signal, b.signal);
    assert_eq!(a.histogram, b.histogram);
}

#[test]
fn atr_short_window_is_zero() {
    let v: Vec<Candle> = Vec::new();
    assert_eq!(v.atr(14), 0);
    let v1 = closes(&[100 * SCALE]);
    assert_eq!(v1.atr(14), 0);
}

#[test]
fn atr_exact_value() {
    let v = vec![
        ohlc(110 * SCALE, 90 * SCALE, 100 * SCALE, 1),
        ohlc(112 * SCALE, 95 * SCALE, 105 * SCALE, 2),
        ohlc(111 * SCALE, 98 * SCALE, 103 * SCALE, 3),
    ];
    assert_eq!(v.atr(3), 17 * SCALE);
}

#[test]
fn hl2_of_last_bar() {
    let v = vec![
        ohlc(110 * SCALE, 90 * SCALE, 100 * SCALE, 1),
        ohlc(120 * SCALE, 100 * SCALE, 101 * SCALE, 2),
    ];
    assert_eq!(v.hl2(), 110 * SCALE);
    let empty: Vec<Candle> = Vec::new();
    assert_eq!(empty.hl2(), 0);
}

#[test]
fn supertrend_band_formula() {
    let st = supertrend_bands(100 * SCALE, 5 * SCALE, 100 * SCALE, 2 * SCALE);
    assert_eq!(st.upper, (110 * SCALE) as i64);
    assert_eq!(st.lower, (90 * SCALE) as i64);
    assert_eq!(st.trend, 1);
    assert_eq!(st.value, (90 * SCALE) as i64);
}

#[test]
fn supertrend_short_window_is_flat() {
    let v = closes(&[100 * SCALE]);
    let st = v.supertrend(10, 3 * SCALE);
    assert_eq!(st.trend, 0);
    assert_eq!(st.upper, 0);
    assert_eq!(st.lower, 0);
    assert_eq!(st.value, 0);
}

#[test]
fn supertrend_factor_widens_band() {
    let mut v = Vec::new();
    for i in 0..10u64 {
        v.push(ohlc(105 * SCALE, 95 * SCALE, 100 * SCALE, i + 1));
    }
    let narrow = v.supertrend(10, SCALE);
    let wide = v.supertrend(10, 3 * SCALE);
    assert!(wide.upper - wide.lower >= narrow.upper - narrow.lower);
}

#[test]
fn performance_index_exact_value() {
    let v = closes(&[100 * SCALE, 101 * SCALE, 102 * SCALE, 103 * SCALE]);
    // Net move of three whole units against an average absolute move of
    // one: the scaled ratio is three.
    assert_eq!(v.performance_index(3), 3 * SCALE);
}

#[test]
fn performance_index_short_window_is_zero() {
    let v = closes(&[100 * SCALE]);
    assert_eq!(v.performance_index(3), 0);
}

#[test]
fn avg_abs_price_change_exact_value() {
    let v = closes(&[100 * SCALE, 101 * SCALE, 102 * SCALE, 103 * SCALE]);
    assert_eq!(v.avg_abs_price_change(3), SCALE);
}

#[test]
fn price_change_sign_cases() {
    let up = closes(&[100 * SCALE, 101 * SCALE]);
    assert_eq!(up.price_change_sign(), 1);
    let down = closes(&[101 * SCALE, 100 * SCALE]);
    assert_eq!(down.price_change_sign(), -1);
    let flat_v = closes(&[100 * SCALE, 100 * SCALE]);
    assert_eq!(flat_v.price_change_sign(), 0);
    let one = closes(&[100 * SCALE]);
    assert_eq!(one.price_change_sign(), 0);
}

#[test]
fn adaptive_ma_moves_toward_stop() {
    let v: Vec<Candle> = Vec::new();
    // Half weight: halfway from 100 to 110.
    let r = v.adaptive_ma((110 * SCALE) as i64, SCALE / 2, (100 * SCALE) as i64);
    assert_eq!(r, (105 * SCALE) as i64);
    // Zero weight: unmoved.
    let r0 = v.adaptive_ma((110 * SCALE) as i64, 0, (100 * SCALE) as i64);
    assert_eq!(r0, (100 * SCALE) as i64);
    // A weight above one overshoots the stop.
    let r2 = v.adaptive_ma((110 * SCALE) as i64, 2 * SCALE, (100 * SCALE) as i64);
    assert_eq!(r2, (120 * SCALE) as i64);
    // An extreme weight clamps instead of wrapping.
    let rmax = v.adaptive_ma((110 * SCALE) as i64, u64::MAX, (100 * SCALE) as i64);
    assert_eq!(rmax, i64::MAX);
}

#[test]
fn kmeans_partitions_sweep_into_three() {
    let mut v = Vec::new();
    for i in 0..10u64 {
        v.push(ohlc(105 * SCALE, 95 * SCALE, 100 * SCALE, i + 1));
    }
    // Factors 1.0, 1.5, ..., 5.0: nine entries.
    let clusters = v.kmeans_cluster_supertrend(10, SCALE, 5 * SCALE, SCALE / 2, 3, 1000);
    assert_eq!(clusters.len(), 3);
    assert_eq!(clusters[0].cluster_id, 0);
    assert_eq!(clusters[1].cluster_id, 1);
    assert_eq!(clusters[2].cluster_id, 2);
    let total: usize = clusters.iter().map(|c| c.outputs.len()).sum();
    assert_eq!(total, 9);
    assert_eq!(clusters[0].outputs.len(), 3);
    assert_eq!(clusters[1].outputs.len(), 3);
    assert_eq!(clusters[2].outputs.len(), 3);
    // Each entry appears exactly once, in sweep order across buckets.
    let mut factor = SCALE;
    for cl in clusters.iter() {
        for (i, o) in cl.outputs.iter().enumerate() {
            assert_eq!(o.factor, factor);
            assert_eq!(cl.factors[i], o.factor);
            factor += SCALE / 2;
        }
    }
}

#[test]
fn kmeans_short_sweep_still_three_clusters() {
    let mut v = Vec::new();
    for i in 0..10u64 {
        v.push(ohlc(105 * SCALE, 95 * SCALE, 100 * SCALE, i + 1));
    }
    // Two factors only: the first two clusters are empty.
    let clusters = v.kmeans_cluster_supertrend(10, SCALE, 2 * SCALE, SCALE, 3, 1000);
    assert_eq!(clusters.len(), 3);
    assert_eq!(clusters[0].outputs.len(), 0);
    assert_eq!(clusters[1].outputs.len(), 0);
    assert_eq!(clusters[2].outputs.len(), 2);
}

#[test]
fn best_supertrend_picks_cluster_head() {
    let mut v = Vec::new();
    for i in 0..10u64 {
        v.push(ohlc(105 * SCALE, 95 * SCALE, 100 * SCALE, i + 1));
    }
    let best = v.best_supertrend_from_cluster(10, SCALE, 5 * SCALE, SCALE / 2, 3, ClusterSelect::Best);
    // All scores tie, so the later bucket wins the "keep the later of
    // equals" maximum scan; its head carries the seventh factor, 4.0.
    assert_eq!(best.factor, 4 * SCALE);
    let worst =
        v.best_supertrend_from_cluster(10, SCALE, 5 * SCALE, SCALE / 2, 3, ClusterSelect::Worst);
    // The earliest bucket wins the minimum scan; its head is factor 1.0.
    assert_eq!(worst.factor, SCALE);
}

#[test]
fn best_supertrend_falls_back_on_empty_cluster() {
    let mut v = Vec::new();
    for i in 0..10u64 {
        v.push(ohlc(105 * SCALE, 95 * SCALE, 100 * SCALE, i + 1));
    }
    // Two entries: clusters 0 and 1 are empty, and the minimum scan
    // keeps the first (empty) bucket, so the mid-range factor steps in.
    let st = v.best_supertrend_from_cluster(10, SCALE, 2 * SCALE, SCALE, 3, ClusterSelect::Worst);
    assert_eq!(st.factor, SCALE + SCALE / 2);
}
