//! The indicator bank: pure functions over an ordered candle sequence.
//!
//! Every indicator is a function of its input sequence alone; feeding the
//! same snapshot twice yields the same value.  Values are scaled
//! fixed-point integers (see [`crate::fixed`]).  Malformed or short inputs
//! yield `0` sentinels rather than errors.

use vstd::prelude::*;

use vstd::arithmetic::div_mod::{
    lemma_div_by_multiple, lemma_div_is_ordered, lemma_div_pos_is_pos,
};

use crate::fixed::{FACTOR_MAX, PERIOD_MAX, PRICE_MAX, SCALE};
use crate::timeseries::{all_bounded, Candle};

verus! {

/// Closes of a candle sequence, widened for specification arithmetic.
pub open spec fn closes(s: Seq<Candle>) -> Seq<int> {
    s.map_values(|c: Candle| c.close as int)
}

/// Division rounding toward zero, as machine signed division does.
pub open spec fn div_trunc(a: int, b: int) -> int {
    if a >= 0 {
        a / b
    } else {
        -((-a) / b)
    }
}

/// One-pole smoothing, seeded with the first sample; each later sample `x`
/// moves the running value `v` to `(wn*x + wo*v) / den`.
pub open spec fn smooth_seq(s: Seq<int>, wn: int, wo: int, den: int) -> int
    decreases s.len(),
{
    if s.len() == 0 {
        0
    } else if s.len() == 1 {
        s[0]
    } else {
        div_trunc(wn * s.last() + wo * smooth_seq(s.drop_last(), wn, wo, den), den)
    }
}

/// Exponential moving average with smoothing factor `2 / (period + 1)`.
pub open spec fn spec_ema_of(s: Seq<int>, period: int) -> int {
    smooth_seq(s, 2, period - 1, period + 1)
}

/// Wilder smoothing with factor `1 / period`.
pub open spec fn spec_wilder_of(s: Seq<int>, period: int) -> int {
    smooth_seq(s, 1, period - 1, period)
}

/// EMA of the closes of `s`.
pub open spec fn spec_ema(s: Seq<Candle>, period: int) -> int {
    spec_ema_of(closes(s), period)
}

/// HL2 of the last candle: the midpoint of its high and low.
pub open spec fn spec_hl2(s: Seq<Candle>) -> int {
    if s.len() == 0 {
        0
    } else {
        (s.last().high + s.last().low) / 2
    }
}

pub open spec fn in_range(s: Seq<int>, lo: int, hi: int) -> bool {
    forall|i: int| 0 <= i < s.len() ==> lo <= #[trigger] s[i] <= hi
}

pub open spec fn abs_of(x: int) -> int {
    if x >= 0 {
        x
    } else {
        -x
    }
}

/// Differences of successive values.
pub open spec fn diffs(s: Seq<int>) -> Seq<int> {
    if s.len() == 0 {
        Seq::empty()
    } else {
        Seq::new((s.len() - 1) as nat, |i: int| s[i + 1] - s[i])
    }
}

/// Upward moves of successive values; zero elsewhere.
pub open spec fn gains(s: Seq<int>) -> Seq<int> {
    diffs(s).map_values(|d: int| if d > 0 { d } else { 0 })
}

/// Downward moves of successive values, as magnitudes; zero elsewhere.
pub open spec fn losses(s: Seq<int>) -> Seq<int> {
    diffs(s).map_values(|d: int| if d < 0 { -d } else { 0 })
}

/// Magnitudes of successive moves.
pub open spec fn abs_diffs(s: Seq<int>) -> Seq<int> {
    diffs(s).map_values(|d: int| abs_of(d))
}

/// Wilder's RSI of the closes, scaled: `100 * SCALE * ag / (ag + al)` over
/// the Wilder-smoothed average gain and loss.  A single bar is neutral
/// (`50 * SCALE`), as is a flat window; the empty sequence yields `0`.
pub open spec fn spec_rsi(s: Seq<Candle>, period: int) -> int {
    let c = closes(s);
    if s.len() == 0 {
        0
    } else if s.len() == 1 {
        50 * SCALE
    } else {
        let ag = spec_wilder_of(gains(c), period);
        let al = spec_wilder_of(losses(c), period);
        if ag + al == 0 {
            50 * SCALE
        } else {
            (100 * SCALE * ag) / (ag + al)
        }
    }
}

/// True range of a candle against the previous close.
pub open spec fn spec_true_range(prev: Candle, cur: Candle) -> int {
    let hl = cur.high - cur.low;
    let hc = abs_of(cur.high - prev.close);
    let lc = abs_of(cur.low - prev.close);
    if hl >= hc && hl >= lc {
        hl
    } else if hc >= lc {
        hc
    } else {
        lc
    }
}

/// True ranges of a candle sequence; the first bar ranges over itself.
pub open spec fn tr_seq(s: Seq<Candle>) -> Seq<int> {
    Seq::new(
        s.len(),
        |i: int|
            if i == 0 {
                s[0].high - s[0].low
            } else {
                spec_true_range(s[i - 1], s[i])
            },
    )
}

/// Wilder's ATR: Wilder-smoothed true range; `0` under two bars.
pub open spec fn spec_atr(s: Seq<Candle>, period: int) -> int {
    if s.len() < 2 {
        0
    } else {
        spec_wilder_of(tr_seq(s), period)
    }
}

/// The MACD line: fast EMA minus slow EMA of the closes.
pub open spec fn spec_macd_line(s: Seq<Candle>, fast: int, slow: int) -> int {
    spec_ema(s, fast) - spec_ema(s, slow)
}

/// The MACD line evaluated at every prefix of the closes.
pub open spec fn macd_series(c: Seq<int>, fast: int, slow: int) -> Seq<int> {
    Seq::new(
        c.len(),
        |i: int| spec_ema_of(c.take(i + 1), fast) - spec_ema_of(c.take(i + 1), slow),
    )
}

/// The signal line: EMA of the evolving MACD line.
pub open spec fn spec_macd_signal(s: Seq<Candle>, fast: int, slow: int, signal: int) -> int {
    spec_ema_of(macd_series(closes(s), fast, slow), signal)
}

pub open spec fn spec_macd(s: Seq<Candle>, fast: int, slow: int, signal: int) -> MacdOutput {
    let m = spec_macd_line(s, fast, slow);
    let sg = spec_macd_signal(s, fast, slow, signal);
    MacdOutput { macd: m as i64, signal: sg as i64, histogram: (m - sg) as i64 }
}

/// Sign of the last close move: `1`, `-1`, or `0`; `0` under two bars.
pub open spec fn spec_price_change_sign(s: Seq<Candle>) -> int {
    if s.len() < 2 {
        0
    } else {
        let d = s[s.len() - 1].close - s[s.len() - 2].close;
        if d > 0 {
            1
        } else if d < 0 {
            -1
        } else {
            0
        }
    }
}

/// EMA of the magnitudes of successive close moves; `0` under two bars.
pub open spec fn spec_avg_abs_price_change(s: Seq<Candle>, period: int) -> int {
    if s.len() < 2 {
        0
    } else {
        spec_ema_of(abs_diffs(closes(s)), period)
    }
}

/// Performance index: summed close change (which telescopes to last minus
/// first), floored at zero, scaled and divided by the EMA of absolute
/// changes; `0` under two bars or on a zero denominator, saturating at
/// `u64::MAX`.
pub open spec fn spec_performance_index(s: Seq<Candle>, alpha: int) -> int {
    if s.len() < 2 {
        0
    } else {
        let c = closes(s);
        let den = spec_ema_of(abs_diffs(c), alpha);
        let num = if c.last() >= c.first() {
            c.last() - c.first()
        } else {
            0
        };
        if den == 0 {
            0
        } else {
            let q = (num * SCALE) / den;
            if q > u64::MAX {
                u64::MAX as int
            } else {
                q
            }
        }
    }
}

/// One adaptive-moving-average step: `prev + w * (t - prev) / SCALE`,
/// rounding toward zero, the result clamped to the i64 range.
pub open spec fn spec_adaptive_ma(t: int, w: int, prev: int) -> int {
    let raw = prev + div_trunc(w * (t - prev), SCALE as int);
    if raw > i64::MAX {
        i64::MAX as int
    } else if raw < i64::MIN {
        i64::MIN as int
    } else {
        raw
    }
}

/// Which bucket of the factor sweep to pick a SuperTrend from.
#[derive(Clone, Copy, Debug, PartialEq, Eq, Structural)]
pub enum ClusterSelect {
    Best,
    Average,
    Worst,
}

/// A single-bar SuperTrend evaluation from midpoint, ATR, close and
/// factor: bands at `mid +- atr * factor / SCALE`, bullish unless the
/// close sits below the lower band, value at the band that backs the
/// trend.
pub open spec fn spec_supertrend_bands(mid: int, atr: int, close: int, factor: int)
    -> SuperTrendOutput {
    let band = (atr * factor) / (SCALE as int);
    let upper = mid + band;
    let lower = mid - band;
    let trend: int = if close > upper {
        1
    } else if close < lower {
        0
    } else {
        1
    };
    let value = if trend == 1 {
        lower
    } else {
        upper
    };
    SuperTrendOutput {
        upper: upper as i64,
        lower: lower as i64,
        value: value as i64,
        trend: trend as i32,
        factor: factor as u64,
    }
}

/// SuperTrend of a candle sequence: zero output with flat trend when the
/// window is shorter than the ATR period, the band evaluation otherwise.
pub open spec fn spec_supertrend(s: Seq<Candle>, atr_period: int, factor: int)
    -> SuperTrendOutput {
    if s.len() < atr_period {
        SuperTrendOutput { upper: 0, lower: 0, value: 0, trend: 0, factor: factor as u64 }
    } else {
        spec_supertrend_bands(spec_hl2(s), spec_atr(s, atr_period), s.last().close as int, factor)
    }
}

/// Number of factors swept from `min_factor` to `max_factor` by `step`.
pub open spec fn spec_num_factors(min_factor: int, max_factor: int, step: int) -> int {
    if min_factor > max_factor {
        0
    } else {
        (max_factor - min_factor) / step + 1
    }
}

/// The factor sweep: SuperTrend at each factor, in factor order.
pub open spec fn spec_sweep(
    s: Seq<Candle>,
    atr_period: int,
    min_factor: int,
    max_factor: int,
    step: int,
) -> Seq<SuperTrendOutput> {
    Seq::new(
        spec_num_factors(min_factor, max_factor, step) as nat,
        |i: int| spec_supertrend(s, atr_period, min_factor + i * step),
    )
}

/// Index that a running "keep the later of equals" maximum scan selects.
pub open spec fn max_last_idx(p: Seq<int>) -> int
    decreases p.len(),
{
    if p.len() <= 1 {
        0
    } else {
        let r = max_last_idx(p.drop_last());
        if p.last() >= p[r] {
            p.len() - 1
        } else {
            r
        }
    }
}

/// Index that a running "keep the earlier of equals" minimum scan selects.
pub open spec fn min_first_idx(p: Seq<int>) -> int
    decreases p.len(),
{
    if p.len() <= 1 {
        0
    } else {
        let r = min_first_idx(p.drop_last());
        if p.last() < p[r] {
            p.len() - 1
        } else {
            r
        }
    }
}

/// Middle index of three scores under a stable ascending sort.
pub open spec fn middle_idx3(p0: int, p1: int, p2: int) -> int {
    let lo: int = if p1 < p0 {
        1
    } else {
        0
    };
    let hi: int = if p1 < p0 {
        0
    } else {
        1
    };
    let lo_v = if p1 < p0 {
        p1
    } else {
        p0
    };
    let hi_v = if p1 < p0 {
        p0
    } else {
        p1
    };
    if p2 < lo_v {
        lo
    } else if p2 < hi_v {
        2
    } else {
        hi
    }
}

/// The SuperTrend that [`TechnicalAnalysis::best_supertrend_from_cluster`]
/// picks: the first member of the cluster the selector chooses, or the
/// mid-range factor's SuperTrend when that cluster is empty.
pub open spec fn spec_best_supertrend(
    s: Seq<Candle>,
    atr_period: int,
    min_factor: int,
    max_factor: int,
    step: int,
    alpha: int,
    sel: ClusterSelect,
) -> SuperTrendOutput {
    let outs = spec_sweep(s, atr_period, min_factor, max_factor, step);
    let n = outs.len() as int;
    let k = n / 3;
    let perf = spec_performance_index(s, alpha);
    let p0 = if k > 0 {
        perf
    } else {
        0
    };
    let p1 = if k > 0 {
        perf
    } else {
        0
    };
    let p2 = if n - 2 * k > 0 {
        perf
    } else {
        0
    };
    let perfs = seq![p0, p1, p2];
    let ci = match sel {
        ClusterSelect::Best => max_last_idx(perfs),
        ClusterSelect::Worst => min_first_idx(perfs),
        ClusterSelect::Average => middle_idx3(p0, p1, p2),
    };
    let lo = if ci == 0 {
        0int
    } else if ci == 1 {
        k
    } else {
        2 * k
    };
    let hi = if ci == 0 {
        k
    } else if ci == 1 {
        2 * k
    } else {
        n
    };
    if hi > lo {
        outs[lo]
    } else {
        spec_supertrend(s, atr_period, (min_factor + max_factor) / 2)
    }
}

/// Division toward zero keeps a value whose numerator is within `den * b`
/// inside `[-b, b]`.
pub proof fn lemma_div_trunc_bound(num: int, den: int, b: int)
    requires
        den >= 1,
        b >= 0,
        -(den * b) <= num <= den * b,
    ensures
        -b <= div_trunc(num, den) <= b,
{
    if num >= 0 {
        lemma_div_pos_is_pos(num, den);
        lemma_div_is_ordered(num, den * b, den);
        lemma_div_by_multiple(b, den);
        assert(den * b == b * den) by (nonlinear_arith);
    } else {
        lemma_div_pos_is_pos(-num, den);
        lemma_div_is_ordered(-num, den * b, den);
        lemma_div_by_multiple(b, den);
        assert(den * b == b * den) by (nonlinear_arith);
    }
}

/// Smoothing a sequence of values in `[-b, b]` stays in `[-b, b]`.
pub proof fn lemma_smooth_bound(s: Seq<int>, wn: int, wo: int, den: int, b: int)
    requires
        wn >= 1,
        wo >= 0,
        den == wn + wo,
        b >= 0,
        in_range(s, -b, b),
    ensures
        -b <= smooth_seq(s, wn, wo, den) <= b,
    decreases s.len(),
{
    if s.len() <= 1 {
    } else {
        let d = s.drop_last();
        assert(in_range(d, -b, b)) by {
            assert(forall|i: int| 0 <= i < d.len() ==> d[i] == s[i]);
        }
        lemma_smooth_bound(d, wn, wo, den, b);
        let v = smooth_seq(d, wn, wo, den);
        let x = s.last();
        assert(-(wn * b) <= wn * x <= wn * b) by (nonlinear_arith)
            requires
                wn >= 1,
                -b <= x <= b,
        ;
        assert(-(wo * b) <= wo * v <= wo * b) by (nonlinear_arith)
            requires
                wo >= 0,
                -b <= v <= b,
        ;
        assert(wn * b + wo * b == den * b) by (nonlinear_arith)
            requires
                den == wn + wo,
        ;
        lemma_div_trunc_bound(wn * x + wo * v, den, b);
    }
}

/// `smooth_seq` over a one-longer sequence unfolds to one smoothing step.
pub proof fn lemma_smooth_push(s: Seq<int>, x: int, wn: int, wo: int, den: int)
    requires
        s.len() >= 1,
    ensures
        smooth_seq(s.push(x), wn, wo, den) == div_trunc(
            wn * x + wo * smooth_seq(s, wn, wo, den),
            den,
        ),
{
    assert(s.push(x).drop_last() =~= s);
    assert(s.push(x).last() == x);
}

/// One signed smoothing step on machine integers:
/// `(wn*x + wo*v) / den`, rounding toward zero.
fn smooth_step(v: i64, x: i64, wn: u64, wo: u64, den: u64) -> (r: i64)
    requires
        1 <= wn <= 2,
        wn + wo == den,
        den <= 2 * PERIOD_MAX + 1,
        -(PRICE_MAX as int) <= v <= PRICE_MAX,
        -(PRICE_MAX as int) <= x <= PRICE_MAX,
    ensures
        r == div_trunc(wn * x + wo * v, den as int),
        -(PRICE_MAX as int) <= r <= PRICE_MAX,
{
    proof {
        assert(-(wn * PRICE_MAX) <= wn * x <= wn * PRICE_MAX) by (nonlinear_arith)
            requires
                wn >= 1,
                -(PRICE_MAX as int) <= x <= PRICE_MAX,
        ;
        assert(-(wo * PRICE_MAX) <= wo * v <= wo * PRICE_MAX) by (nonlinear_arith)
            requires
                wo >= 0,
                -(PRICE_MAX as int) <= v <= PRICE_MAX,
        ;
        assert(wn * PRICE_MAX + wo * PRICE_MAX == den * PRICE_MAX) by (nonlinear_arith)
            requires
                wn + wo == den,
        ;
        assert(den * PRICE_MAX <= 2001 * PRICE_MAX) by (nonlinear_arith)
            requires
                den <= 2001,
        ;
        lemma_div_trunc_bound(wn * x + wo * v, den as int, PRICE_MAX as int);
    }
    let num: i64 = (wn as i64) * x + (wo as i64) * v;
    num / (den as i64)
}

/// Standard MACD output: the MACD line, its signal EMA, and their
/// difference.
#[derive(Clone, Copy, Debug)]
pub struct MacdOutput {
    pub macd: i64,
    pub signal: i64,
    pub histogram: i64,
}

/// A single-bar SuperTrend evaluation.
///
/// `trend` is `1` (bullish) when the close sits above the upper band or
/// inside the bands, `0` (bearish) below the lower band.
#[derive(Clone, Copy, Debug)]
pub struct SuperTrendOutput {
    pub upper: i64,
    pub lower: i64,
    pub value: i64,
    pub trend: i32,
    pub factor: u64,
}

/// One bucket of the SuperTrend factor sweep.
#[derive(Clone, Debug)]
pub struct SuperTrendCluster {
    pub factors: Vec<u64>,
    pub outputs: Vec<SuperTrendOutput>,
    pub performance: u64,
    pub cluster_id: usize,
}

/// An adaptive moving-average step and the weight it was taken with.
#[derive(Clone, Copy, Debug)]
pub struct AdaptiveMAOutput {
    pub value: i64,
    pub performance_index: u64,
}

/// Indicators over an ordered candle sequence, oldest first.
///
/// Each method is a pure function of [`TechnicalAnalysis::bars`]: the
/// contracts pin every result to a specification function of the input
/// sequence alone.
pub trait TechnicalAnalysis {
    /// The candle sequence the indicators read.
    spec fn bars(&self) -> Seq<Candle>;

    /// EMA of the closes; `0` on an empty sequence.
    fn ema(&self, period: usize) -> (r: u64)
        requires
            1 <= period <= PERIOD_MAX,
            all_bounded(self.bars()),
        ensures
            r == spec_ema(self.bars(), period as int),
            r <= PRICE_MAX,
            self.bars().len() == 0 ==> r == 0,
    ;

    /// Midpoint of the last candle's high and low; `0` on an empty
    /// sequence.
    fn hl2(&self) -> (r: u64)
        requires
            all_bounded(self.bars()),
        ensures
            r == spec_hl2(self.bars()),
            r <= PRICE_MAX,
    ;

    /// Wilder's RSI of the closes, scaled by `SCALE`; `0` on an empty
    /// sequence.
    fn rsi(&self, period: usize) -> (r: u64)
        requires
            1 <= period <= PERIOD_MAX,
            all_bounded(self.bars()),
        ensures
            r == spec_rsi(self.bars(), period as int),
            r <= 100 * SCALE,
            self.bars().len() == 0 ==> r == 0,
    ;

    /// Standard MACD over the closes: line, signal and histogram; all `0`
    /// on an empty sequence.
    fn macd(&self, fast_period: usize, slow_period: usize, signal_period: usize) -> (r: MacdOutput)
        requires
            1 <= fast_period <= PERIOD_MAX,
            1 <= slow_period <= PERIOD_MAX,
            1 <= signal_period <= PERIOD_MAX,
            all_bounded(self.bars()),
        ensures
            r == spec_macd(
                self.bars(),
                fast_period as int,
                slow_period as int,
                signal_period as int,
            ),
            -(PRICE_MAX as int) <= r.macd <= PRICE_MAX,
            -(PRICE_MAX as int) <= r.signal <= PRICE_MAX,
            self.bars().len() == 0 ==> r == (MacdOutput { macd: 0, signal: 0, histogram: 0 }),
    ;

    /// Wilder's ATR over high, low and close; `0` under two bars.
    fn atr(&self, period: usize) -> (r: u64)
        requires
            1 <= period <= PERIOD_MAX,
            crate::timeseries::all_wf(self.bars()),
        ensures
            r == spec_atr(self.bars(), period as int),
            r <= PRICE_MAX,
            self.bars().len() < 2 ==> r == 0,
    ;

    /// Sign of the last close move; `0` under two bars.
    fn price_change_sign(&self) -> (r: i32)
        ensures
            r as int == spec_price_change_sign(self.bars()),
    ;

    /// EMA of the magnitudes of successive close moves; `0` under two
    /// bars.
    fn avg_abs_price_change(&self, period: usize) -> (r: u64)
        requires
            1 <= period <= PERIOD_MAX,
            all_bounded(self.bars()),
        ensures
            r == spec_avg_abs_price_change(self.bars(), period as int),
            r <= PRICE_MAX,
    ;

    /// Ratio of summed positive return to the EMA of absolute returns.
    fn performance_index(&self, alpha: usize) -> (r: u64)
        requires
            1 <= alpha <= PERIOD_MAX,
            all_bounded(self.bars()),
        ensures
            r == spec_performance_index(self.bars(), alpha as int),
    ;

    /// Single-factor SuperTrend: the band evaluation over the current
    /// window when it spans the ATR period, a zero output with flat trend
    /// otherwise.
    fn supertrend(&self, atr_period: usize, factor: u64) -> (r: SuperTrendOutput)
        requires
            1 <= atr_period <= PERIOD_MAX,
            factor <= FACTOR_MAX,
            crate::timeseries::all_wf(self.bars()),
        ensures
            r == spec_supertrend(self.bars(), atr_period as int, factor as int),
    ;

    /// SuperTrend at each factor from `min_factor` to `max_factor` by
    /// `step`, in factor order.
    fn supertrend_cluster(
        &self,
        atr_period: usize,
        min_factor: u64,
        max_factor: u64,
        step: u64,
        performance_alpha: usize,
    ) -> (r: Vec<SuperTrendOutput>)
        requires
            1 <= atr_period <= PERIOD_MAX,
            min_factor <= FACTOR_MAX,
            max_factor <= FACTOR_MAX,
            1 <= step <= FACTOR_MAX,
            crate::timeseries::all_wf(self.bars()),
        ensures
            r@ == spec_sweep(
                self.bars(),
                atr_period as int,
                min_factor as int,
                max_factor as int,
                step as int,
            ),
    ;

    /// One adaptive-moving-average step: moves `prev_ama` toward (or,
    /// with a weight above one, past) `trailing_stop` by the scaled
    /// weight `performance_index`.
    fn adaptive_ma(&self, trailing_stop: i64, performance_index: u64, prev_ama: i64) -> (r: i64)
        requires
            -(PRICE_MAX as int) <= trailing_stop <= PRICE_MAX,
            -(PRICE_MAX as int) <= prev_ama <= PRICE_MAX,
        ensures
            r == spec_adaptive_ma(
                trailing_stop as int,
                performance_index as int,
                prev_ama as int,
            ),
    ;

    /// Buckets the factor sweep into three contiguous clusters by
    /// performance rank.  Every entry carries the same global performance
    /// index, so the ranking keeps the sweep order; the last bucket
    /// absorbs the remainder.
    fn kmeans_cluster_supertrend(
        &self,
        atr_period: usize,
        min_factor: u64,
        max_factor: u64,
        step: u64,
        performance_alpha: usize,
        max_iterations: usize,
    ) -> (r: Vec<SuperTrendCluster>)
        requires
            1 <= atr_period <= PERIOD_MAX,
            min_factor <= FACTOR_MAX,
            max_factor <= FACTOR_MAX,
            1 <= step <= FACTOR_MAX,
            1 <= performance_alpha <= PERIOD_MAX,
            crate::timeseries::all_wf(self.bars()),
        ensures
            ({
                let outs = spec_sweep(
                    self.bars(),
                    atr_period as int,
                    min_factor as int,
                    max_factor as int,
                    step as int,
                );
                let n = outs.len() as int;
                let k = n / 3;
                let perf = spec_performance_index(self.bars(), performance_alpha as int);
                &&& r@.len() == 3
                &&& (forall|c: int| 0 <= c < 3 ==> (#[trigger] r@[c]).cluster_id == c)
                &&& r@[0].outputs@ == outs.subrange(0, k)
                &&& r@[1].outputs@ == outs.subrange(k, 2 * k)
                &&& r@[2].outputs@ == outs.subrange(2 * k, n)
                &&& (forall|c: int|
                    0 <= c < 3 ==> (#[trigger] r@[c]).factors@ == r@[c].outputs@.map_values(
                        |o: SuperTrendOutput| o.factor,
                    ))
                &&& (forall|c: int|
                    0 <= c < 3 ==> (#[trigger] r@[c]).performance == if r@[c].outputs@.len() > 0 {
                        perf
                    } else {
                        0int
                    })
            }),
    ;

    /// Picks the SuperTrend that leads the chosen cluster, falling back
    /// to the mid-range factor when that cluster is empty.
    fn best_supertrend_from_cluster(
        &self,
        atr_period: usize,
        min_factor: u64,
        max_factor: u64,
        step: u64,
        performance_alpha: usize,
        cluster_type: ClusterSelect,
    ) -> (r: SuperTrendOutput)
        requires
            1 <= atr_period <= PERIOD_MAX,
            min_factor <= FACTOR_MAX,
            max_factor <= FACTOR_MAX,
            1 <= step <= FACTOR_MAX,
            1 <= performance_alpha <= PERIOD_MAX,
            crate::timeseries::all_wf(self.bars()),
        ensures
            r == spec_best_supertrend(
                self.bars(),
                atr_period as int,
                min_factor as int,
                max_factor as int,
                step as int,
                performance_alpha as int,
                cluster_type,
            ),
    ;
}

impl TechnicalAnalysis for Vec<Candle> {
    open spec fn bars(&self) -> Seq<Candle> {
        self@
    }

    fn ema(&self, period: usize) -> (r: u64) {
        let n = self.len();
        let p = period as u64;
        let mut e: u64 = 0;
        let mut i: usize = 0;
        while i < n
            invariant
                0 <= i <= n == self@.len(),
                1 <= p <= PERIOD_MAX,
                all_bounded(self@),
                e == if i == 0 {
                    0int
                } else {
                    spec_ema_of(closes(self@).take(i as int), p as int)
                },
                e <= PRICE_MAX,
            decreases n - i,
        {
            let c = self[i].close;
            proof {
                assert(closes(self@).take(i as int).push(c as int) =~= closes(self@).take(i + 1));
                assert(self@[i as int].bounded());
            }
            if i == 0 {
                e = c;
            } else {
                proof {
                    lemma_smooth_push(closes(self@).take(i as int), c as int, 2, p - 1, p + 1);
                }
                let r = smooth_step(e as i64, c as i64, 2, p - 1, p + 1);
                // The smoothed value of non-negative closes stays
                // non-negative, so the machine value fits back into u64.
                proof {
                    let s = closes(self@).take(i as int);
                    let v = smooth_seq(s, 2, p - 1, p + 1);
                    assert((p - 1) * v == (p - 1) * e);
                    assert((p - 1) * e >= 0) by (nonlinear_arith)
                        requires
                            p >= 1,
                            e >= 0,
                    ;
                    lemma_div_pos_is_pos(2 * c + (p - 1) * v, p + 1);
                }
                e = r as u64;
            }
            i = i + 1;
        }
        proof {
            assert(closes(self@).take(n as int) =~= closes(self@));
        }
        e
    }

    fn rsi(&self, period: usize) -> (r: u64) {
        let n = self.len();
        if n == 0 {
            return 0;
        }
        if n == 1 {
            return 50 * SCALE;
        }
        let p = period as u64;
        let mut ag: u64 = 0;
        let mut al: u64 = 0;
        let mut i: usize = 1;
        while i < n
            invariant
                1 <= i <= n == self@.len(),
                2 <= n,
                1 <= p <= PERIOD_MAX,
                all_bounded(self@),
                ag == if i == 1 {
                    0int
                } else {
                    spec_wilder_of(gains(closes(self@)).take(i - 1), p as int)
                },
                al == if i == 1 {
                    0int
                } else {
                    spec_wilder_of(losses(closes(self@)).take(i - 1), p as int)
                },
                ag <= PRICE_MAX,
                al <= PRICE_MAX,
            decreases n - i,
        {
            let prev = self[i - 1].close;
            let cur = self[i].close;
            let g: u64 = if cur > prev {
                cur - prev
            } else {
                0
            };
            let l: u64 = if prev > cur {
                prev - cur
            } else {
                0
            };
            proof {
                assert(self@[i as int].bounded());
                assert(self@[i - 1].bounded());
                let c = closes(self@);
                assert(diffs(c)[i - 1] == c[i as int] - c[i - 1]);
                assert(gains(c)[i - 1] == g);
                assert(losses(c)[i - 1] == l);
                assert(gains(c).take(i - 1).push(g as int) =~= gains(c).take(i as int));
                assert(losses(c).take(i - 1).push(l as int) =~= losses(c).take(i as int));
            }
            if i == 1 {
                ag = g;
                al = l;
            } else {
                proof {
                    lemma_smooth_push(gains(closes(self@)).take(i - 1), g as int, 1, p - 1, p as int);
                    lemma_smooth_push(losses(closes(self@)).take(i - 1), l as int, 1, p - 1, p as int);
                }
                let rg = smooth_step(ag as i64, g as i64, 1, p - 1, p);
                let rl = smooth_step(al as i64, l as i64, 1, p - 1, p);
                proof {
                    assert((p - 1) * ag >= 0 && (p - 1) * al >= 0) by (nonlinear_arith)
                        requires
                            p >= 1,
                            ag >= 0,
                            al >= 0,
                    ;
                    lemma_div_pos_is_pos(1 * g + (p - 1) * ag, p as int);
                    lemma_div_pos_is_pos(1 * l + (p - 1) * al, p as int);
                }
                ag = rg as u64;
                al = rl as u64;
            }
            i = i + 1;
        }
        proof {
            assert(gains(closes(self@)).take(n - 1) =~= gains(closes(self@)));
            assert(losses(closes(self@)).take(n - 1) =~= losses(closes(self@)));
        }
        let den = ag + al;
        if den == 0 {
            return 50 * SCALE;
        }
        let num: u128 = 10_000_000_000u128 * (ag as u128);
        let q = num / (den as u128);
        proof {
            assert(num == 100 * SCALE * ag);
            assert(100 * SCALE * ag <= 100 * SCALE * (ag + al)) by (nonlinear_arith)
                requires
                    al >= 0,
                    ag >= 0,
            ;
            lemma_div_is_ordered(100 * SCALE * ag, 100 * SCALE * (den as int), den as int);
            lemma_div_by_multiple(100 * SCALE, den as int);
            assert(100 * SCALE * (den as int) == (100 * SCALE) * (den as int)) by (nonlinear_arith);
            lemma_div_pos_is_pos(100 * SCALE * ag, den as int);
        }
        q as u64
    }

    fn macd(&self, fast_period: usize, slow_period: usize, signal_period: usize) -> (r:
        MacdOutput) {
        let n = self.len();
        let f = fast_period as u64;
        let sl = slow_period as u64;
        let sg = signal_period as u64;
        let mut ef: u64 = 0;
        let mut es: u64 = 0;
        let mut m: i64 = 0;
        let mut sig: i64 = 0;
        let mut i: usize = 0;
        while i < n
            invariant
                0 <= i <= n == self@.len(),
                1 <= f <= PERIOD_MAX,
                1 <= sl <= PERIOD_MAX,
                1 <= sg <= PERIOD_MAX,
                all_bounded(self@),
                ef == if i == 0 {
                    0int
                } else {
                    spec_ema_of(closes(self@).take(i as int), f as int)
                },
                es == if i == 0 {
                    0int
                } else {
                    spec_ema_of(closes(self@).take(i as int), sl as int)
                },
                ef <= PRICE_MAX,
                es <= PRICE_MAX,
                m == ef - es,
                sig == if i == 0 {
                    0int
                } else {
                    spec_ema_of(
                        macd_series(closes(self@), f as int, sl as int).take(i as int),
                        sg as int,
                    )
                },
                -(PRICE_MAX as int) <= sig <= PRICE_MAX,
            decreases n - i,
        {
            let c = self[i].close;
            proof {
                assert(self@[i as int].bounded());
                assert(closes(self@).take(i as int).push(c as int) =~= closes(self@).take(i + 1));
            }
            if i == 0 {
                ef = c;
                es = c;
                m = 0;
                sig = 0;
                proof {
                    let series = macd_series(closes(self@), f as int, sl as int);
                    assert(closes(self@).take(1)[0] == c as int);
                    assert(series[0] == 0);
                    assert(series.take(1).len() == 1 && series.take(1)[0] == 0);
                }
            } else {
                proof {
                    lemma_smooth_push(closes(self@).take(i as int), c as int, 2, f - 1, f + 1);
                    lemma_smooth_push(closes(self@).take(i as int), c as int, 2, sl - 1, sl + 1);
                }
                let rf = smooth_step(ef as i64, c as i64, 2, f - 1, f + 1);
                let rs = smooth_step(es as i64, c as i64, 2, sl - 1, sl + 1);
                proof {
                    assert((f - 1) * ef >= 0 && (sl - 1) * es >= 0) by (nonlinear_arith)
                        requires
                            f >= 1,
                            sl >= 1,
                            ef >= 0,
                            es >= 0,
                    ;
                    lemma_div_pos_is_pos(2 * c + (f - 1) * ef, f + 1);
                    lemma_div_pos_is_pos(2 * c + (sl - 1) * es, sl + 1);
                }
                ef = rf as u64;
                es = rs as u64;
                let m2: i64 = (ef as i64) - (es as i64);
                proof {
                    let series = macd_series(closes(self@), f as int, sl as int);
                    assert(series[i as int] == spec_ema_of(closes(self@).take(i + 1), f as int)
                        - spec_ema_of(closes(self@).take(i + 1), sl as int));
                    assert(series.take(i as int).push(series[i as int]) =~= series.take(i + 1));
                    lemma_smooth_push(series.take(i as int), m2 as int, 2, sg - 1, sg + 1);
                }
                let s2 = smooth_step(sig, m2, 2, sg - 1, sg + 1);
                m = m2;
                sig = s2;
            }
            i = i + 1;
        }
        proof {
            let series = macd_series(closes(self@), f as int, sl as int);
            if n > 0 {
                assert(closes(self@).take(n as int) =~= closes(self@));
                assert(series.take(n as int) =~= series);
            } else {
                assert(closes(self@).len() == 0);
                assert(series.len() == 0);
            }
        }
        MacdOutput { macd: m, signal: sig, histogram: m - sig }
    }

    fn atr(&self, period: usize) -> (r: u64) {
        let n = self.len();
        if n < 2 {
            return 0;
        }
        let p = period as u64;
        proof {
            assert(self@[0].wf());
        }
        let mut a: u64 = self[0].high - self[0].low;
        let mut i: usize = 1;
        proof {
            assert(tr_seq(self@)[0] == a as int);
        }
        while i < n
            invariant
                1 <= i <= n == self@.len(),
                1 <= p <= PERIOD_MAX,
                crate::timeseries::all_wf(self@),
                a == spec_wilder_of(tr_seq(self@).take(i as int), p as int),
                a <= PRICE_MAX,
            decreases n - i,
        {
            proof {
                assert(self@[i as int].wf());
                assert(self@[i - 1].wf());
            }
            let hi = self[i].high;
            let lo = self[i].low;
            let pc = self[i - 1].close;
            let hl = hi - lo;
            let hc = if hi >= pc {
                hi - pc
            } else {
                pc - hi
            };
            let lc = if lo >= pc {
                lo - pc
            } else {
                pc - lo
            };
            let tr = if hl >= hc && hl >= lc {
                hl
            } else if hc >= lc {
                hc
            } else {
                lc
            };
            proof {
                assert(tr as int == tr_seq(self@)[i as int]);
                assert(tr_seq(self@).take(i as int).push(tr as int) =~= tr_seq(self@).take(i + 1));
                lemma_smooth_push(tr_seq(self@).take(i as int), tr as int, 1, p - 1, p as int);
            }
            let ra = smooth_step(a as i64, tr as i64, 1, p - 1, p);
            proof {
                assert((p - 1) * a >= 0) by (nonlinear_arith)
                    requires
                        p >= 1,
                        a >= 0,
                ;
                lemma_div_pos_is_pos(1 * tr + (p - 1) * a, p as int);
            }
            a = ra as u64;
            i = i + 1;
        }
        proof {
            assert(tr_seq(self@).take(n as int) =~= tr_seq(self@));
        }
        a
    }

    fn price_change_sign(&self) -> (r: i32) {
        let n = self.len();
        if n < 2 {
            return 0;
        }
        let a = self[n - 2].close;
        let b = self[n - 1].close;
        if b > a {
            1
        } else if b < a {
            -1
        } else {
            0
        }
    }

    fn avg_abs_price_change(&self, period: usize) -> (r: u64) {
        let n = self.len();
        if n < 2 {
            return 0;
        }
        let p = period as u64;
        let mut a: u64 = 0;
        let mut i: usize = 1;
        while i < n
            invariant
                1 <= i <= n == self@.len(),
                2 <= n,
                1 <= p <= PERIOD_MAX,
                all_bounded(self@),
                a == if i == 1 {
                    0int
                } else {
                    spec_ema_of(abs_diffs(closes(self@)).take(i - 1), p as int)
                },
                a <= PRICE_MAX,
            decreases n - i,
        {
            let prev = self[i - 1].close;
            let cur = self[i].close;
            let d: u64 = if cur >= prev {
                cur - prev
            } else {
                prev - cur
            };
            proof {
                assert(self@[i as int].bounded());
                assert(self@[i - 1].bounded());
                let c = closes(self@);
                assert(diffs(c)[i - 1] == c[i as int] - c[i - 1]);
                assert(abs_diffs(c)[i - 1] == d);
                assert(abs_diffs(c).take(i - 1).push(d as int) =~= abs_diffs(c).take(i as int));
            }
            if i == 1 {
                a = d;
            } else {
                proof {
                    lemma_smooth_push(abs_diffs(closes(self@)).take(i - 1), d as int, 2, p - 1, p + 1);
                }
                let ra = smooth_step(a as i64, d as i64, 2, p - 1, p + 1);
                proof {
                    assert((p - 1) * a >= 0) by (nonlinear_arith)
                        requires
                            p >= 1,
                            a >= 0,
                    ;
                    lemma_div_pos_is_pos(2 * d + (p - 1) * a, p + 1);
                }
                a = ra as u64;
            }
            i = i + 1;
        }
        proof {
            assert(abs_diffs(closes(self@)).take(n - 1) =~= abs_diffs(closes(self@)));
        }
        a
    }

    fn performance_index(&self, alpha: usize) -> (r: u64) {
        let n = self.len();
        if n < 2 {
            return 0;
        }
        let den = self.avg_abs_price_change(alpha);
        if den == 0 {
            return 0;
        }
        let first = self[0].close;
        let latest = self[n - 1].close;
        let num: u64 = if latest >= first {
            latest - first
        } else {
            0
        };
        proof {
            let c = closes(self@);
            assert(c.last() == self@[n - 1].close as int);
            assert(c.first() == self@[0].close as int);
        }
        let q: u128 = (num as u128 * SCALE as u128) / (den as u128);
        if q > u64::MAX as u128 {
            u64::MAX
        } else {
            q as u64
        }
    }

    fn supertrend(&self, atr_period: usize, factor: u64) -> (r: SuperTrendOutput) {
        let n = self.len();
        if n < atr_period {
            return SuperTrendOutput { upper: 0, lower: 0, value: 0, trend: 0, factor };
        }
        proof {
            assert forall|i: int| 0 <= i < self@.len() implies (#[trigger] self@[i]).bounded() by {
                assert(self@[i].wf());
            }
        }
        let atr_v = self.atr(atr_period);
        let mid = self.hl2();
        let close = self[n - 1].close;
        proof {
            assert(self@.last() == self@[n - 1]);
            assert(self@[n - 1].wf());
        }
        supertrend_bands(mid, atr_v, close, factor)
    }

    fn supertrend_cluster(
        &self,
        atr_period: usize,
        min_factor: u64,
        max_factor: u64,
        step: u64,
        performance_alpha: usize,
    ) -> (r: Vec<SuperTrendOutput>) {
        let ghost sweep = spec_sweep(
            self@,
            atr_period as int,
            min_factor as int,
            max_factor as int,
            step as int,
        );
        let mut out: Vec<SuperTrendOutput> = Vec::new();
        if min_factor > max_factor {
            proof {
                assert(out@ =~= sweep);
            }
            return out;
        }
        let mut current: u64 = min_factor;
        let ghost mut i: int = 0;
        while current <= max_factor
            invariant
                1 <= atr_period <= PERIOD_MAX,
                min_factor <= FACTOR_MAX,
                max_factor <= FACTOR_MAX,
                1 <= step <= FACTOR_MAX,
                crate::timeseries::all_wf(self@),
                min_factor <= max_factor,
                0 <= i,
                current == min_factor + i * step,
                i >= 1 ==> min_factor + (i - 1) * step <= max_factor,
                out@.len() == i,
                forall|j: int|
                    0 <= j < i ==> out@[j] == spec_supertrend(
                        self@,
                        atr_period as int,
                        min_factor + j * step,
                    ),
            decreases max_factor + step - current,
        {
            let st = self.supertrend(atr_period, current);
            out.push(st);
            proof {
                i = i + 1;
                assert((i - 1) * step + step == i * step) by (nonlinear_arith);
            }
            current = current + step;
        }
        proof {
            assert(i >= 1);
            let x = max_factor - min_factor;
            let q = i - 1;
            assert(q * step <= x) by {
                assert(min_factor + q * step <= max_factor);
            }
            assert(x < (q + 1) * step) by {
                assert((q + 1) * step == i * step);
            }
            let rem = x - q * step;
            assert(0 <= rem < step) by (nonlinear_arith)
                requires
                    q * step <= x,
                    x < (q + 1) * step,
                    rem == x - q * step,
            ;
            vstd::arithmetic::div_mod::lemma_fundamental_div_mod_converse(
                x,
                step as int,
                q,
                rem,
            );
            assert(spec_num_factors(min_factor as int, max_factor as int, step as int) == i);
            assert(out@ =~= sweep);
        }
        out
    }

    fn adaptive_ma(&self, trailing_stop: i64, performance_index: u64, prev_ama: i64) -> (r: i64) {
        let d: i64 = trailing_stop - prev_ama;
        proof {
            let bound: int = 400_000_000_000_000_000_000_000_000int;
            assert(-(SCALE * bound) <= performance_index * d <= SCALE * bound) by (nonlinear_arith)
                requires
                    0 <= performance_index <= u64::MAX,
                    -(2 * PRICE_MAX) <= d <= 2 * PRICE_MAX,
                    bound == 400_000_000_000_000_000_000_000_000int,
                    SCALE == 100_000_000,
                    PRICE_MAX == 1_000_000_000_000_000,
            ;
            lemma_div_trunc_bound(performance_index * d, SCALE as int, bound);
        }
        let num: i128 = (performance_index as i128) * (d as i128);
        let q: i128 = num / (SCALE as i128);
        let sum: i128 = (prev_ama as i128) + q;
        if sum > i64::MAX as i128 {
            i64::MAX
        } else if sum < i64::MIN as i128 {
            i64::MIN
        } else {
            sum as i64
        }
    }

    fn kmeans_cluster_supertrend(
        &self,
        atr_period: usize,
        min_factor: u64,
        max_factor: u64,
        step: u64,
        performance_alpha: usize,
        max_iterations: usize,
    ) -> (r: Vec<SuperTrendCluster>) {
        let outs = self.supertrend_cluster(atr_period, min_factor, max_factor, step, performance_alpha);
        proof {
            assert forall|i: int| 0 <= i < self@.len() implies (#[trigger] self@[i]).bounded() by {
                assert(self@[i].wf());
            }
        }
        let perf = self.performance_index(performance_alpha);
        let n = outs.len();
        let k = n / 3;
        proof {
            vstd::arithmetic::div_mod::lemma_fundamental_div_mod(n as int, 3);
            vstd::arithmetic::div_mod::lemma_mod_division_less_than_divisor(n as int, 3);
            lemma_div_pos_is_pos(n as int, 3);
        }
        let c0 = bucket(&outs, 0, k, perf, 0);
        let c1 = bucket(&outs, k, 2 * k, perf, 1);
        let c2 = bucket(&outs, 2 * k, n, perf, 2);
        let mut r: Vec<SuperTrendCluster> = Vec::new();
        r.push(c0);
        r.push(c1);
        r.push(c2);
        r
    }

    fn best_supertrend_from_cluster(
        &self,
        atr_period: usize,
        min_factor: u64,
        max_factor: u64,
        step: u64,
        performance_alpha: usize,
        cluster_type: ClusterSelect,
    ) -> (r: SuperTrendOutput) {
        let clusters = self.kmeans_cluster_supertrend(
            atr_period,
            min_factor,
            max_factor,
            step,
            performance_alpha,
            1000,
        );
        let p0 = clusters[0].performance;
        let p1 = clusters[1].performance;
        let p2 = clusters[2].performance;
        let ghost ps = seq![p0 as int, p1 as int, p2 as int];
        proof {
            assert(ps.drop_last() =~= seq![p0 as int, p1 as int]);
            assert(ps.drop_last().drop_last() =~= seq![p0 as int]);
        }
        let ci: usize = match cluster_type {
            ClusterSelect::Best => {
                let mut b: usize = 0;
                if p1 >= p0 {
                    b = 1;
                }
                let pb = if b == 1 {
                    p1
                } else {
                    p0
                };
                if p2 >= pb {
                    b = 2;
                }
                proof {
                    assert(max_last_idx(seq![p0 as int]) == 0);
                    assert(seq![p0 as int, p1 as int].drop_last() =~= seq![p0 as int]);
                    assert(max_last_idx(seq![p0 as int, p1 as int]) == if p1 >= p0 {
                        1int
                    } else {
                        0int
                    });
                    assert(ps.drop_last() =~= seq![p0 as int, p1 as int]);
                    assert(b == max_last_idx(ps));
                }
                b
            },
            ClusterSelect::Worst => {
                let mut w: usize = 0;
                if p1 < p0 {
                    w = 1;
                }
                let pw = if w == 1 {
                    p1
                } else {
                    p0
                };
                if p2 < pw {
                    w = 2;
                }
                proof {
                    assert(min_first_idx(seq![p0 as int]) == 0);
                    assert(seq![p0 as int, p1 as int].drop_last() =~= seq![p0 as int]);
                    assert(min_first_idx(seq![p0 as int, p1 as int]) == if p1 < p0 {
                        1int
                    } else {
                        0int
                    });
                    assert(ps.drop_last() =~= seq![p0 as int, p1 as int]);
                    assert(w == min_first_idx(ps));
                }
                w
            },
            ClusterSelect::Average => {
                let lo_i: usize = if p1 < p0 {
                    1
                } else {
                    0
                };
                let hi_i: usize = if p1 < p0 {
                    0
                } else {
                    1
                };
                let lo_v = if p1 < p0 {
                    p1
                } else {
                    p0
                };
                let hi_v = if p1 < p0 {
                    p0
                } else {
                    p1
                };
                let m: usize = if p2 < lo_v {
                    lo_i
                } else if p2 < hi_v {
                    2
                } else {
                    hi_i
                };
                proof {
                    assert(m == middle_idx3(p0 as int, p1 as int, p2 as int));
                }
                m
            },
        };
        let chosen_len = clusters[ci].outputs.len();
        if chosen_len > 0 {
            let o = clusters[ci].outputs[0];
            o
        } else {
            proof {
                lemma_div_pos_is_pos(min_factor + max_factor, 2);
                lemma_div_is_ordered(min_factor + max_factor, 2 * FACTOR_MAX, 2);
                lemma_div_by_multiple(FACTOR_MAX as int, 2);
                assert(2 * FACTOR_MAX == FACTOR_MAX * 2) by (nonlinear_arith);
            }
            let mid_factor = (min_factor + max_factor) / 2;
            self.supertrend(atr_period, mid_factor)
        }
    }

    fn hl2(&self) -> (r: u64) {
        let n = self.len();
        if n == 0 {
            0
        } else {
            proof {
                assert(self@[n - 1].bounded());
                assert(self@.last() == self@[n - 1]);
                lemma_div_pos_is_pos(self@.last().high + self@.last().low, 2);
                lemma_div_is_ordered(self@.last().high + self@.last().low, 2 * PRICE_MAX, 2);
                lemma_div_by_multiple(PRICE_MAX as int, 2);
                assert(2 * PRICE_MAX == PRICE_MAX * 2) by (nonlinear_arith);
            }
            (self[n - 1].high + self[n - 1].low) / 2
        }
    }
}

/// The SuperTrend band evaluation on a given midpoint, ATR value, close
/// and factor, all scaled.
pub fn supertrend_bands(mid: u64, atr: u64, close: u64, factor: u64) -> (r: SuperTrendOutput)
    requires
        mid <= PRICE_MAX,
        atr <= PRICE_MAX,
        close <= PRICE_MAX,
        factor <= FACTOR_MAX,
    ensures
        r == spec_supertrend_bands(mid as int, atr as int, close as int, factor as int),
{
    proof {
        assert(atr * factor <= PRICE_MAX * FACTOR_MAX) by (nonlinear_arith)
            requires
                0 <= atr <= PRICE_MAX,
                0 <= factor <= FACTOR_MAX,
        ;
        lemma_div_is_ordered(atr * factor, PRICE_MAX * FACTOR_MAX, SCALE as int);
        assert((PRICE_MAX * FACTOR_MAX) / (SCALE as int) == 100_000_000_000_000_000int) by {
            lemma_div_by_multiple(100_000_000_000_000_000int, SCALE as int);
            assert(100_000_000_000_000_000int * SCALE == PRICE_MAX * FACTOR_MAX)
                by (nonlinear_arith);
        }
        lemma_div_pos_is_pos(atr * factor, SCALE as int);
    }
    let band128: u128 = (atr as u128) * (factor as u128) / (SCALE as u128);
    let band = band128 as u64;
    let upper: i64 = (mid as i64) + (band as i64);
    let lower: i64 = (mid as i64) - (band as i64);
    let c = close as i64;
    let trend: i32 = if c > upper {
        1
    } else if c < lower {
        0
    } else {
        1
    };
    let value: i64 = if trend == 1 {
        lower
    } else {
        upper
    };
    SuperTrendOutput { upper, lower, value, trend, factor }
}

/// Builds one cluster from a contiguous slice of the factor sweep.
fn bucket(outs: &Vec<SuperTrendOutput>, lo: usize, hi: usize, perf: u64, id: usize) -> (r:
    SuperTrendCluster)
    requires
        lo <= hi <= outs@.len(),
    ensures
        r.outputs@ == outs@.subrange(lo as int, hi as int),
        r.factors@ == outs@.subrange(lo as int, hi as int).map_values(
            |o: SuperTrendOutput| o.factor,
        ),
        r.performance == if hi > lo {
            perf as int
        } else {
            0int
        },
        r.cluster_id == id,
{
    let mut outputs: Vec<SuperTrendOutput> = Vec::new();
    let mut factors: Vec<u64> = Vec::new();
    let mut i: usize = lo;
    while i < hi
        invariant
            lo <= i <= hi <= outs@.len(),
            outputs@ == outs@.subrange(lo as int, i as int),
            factors@ == outs@.subrange(lo as int, i as int).map_values(
                |o: SuperTrendOutput| o.factor,
            ),
        decreases hi - i,
    {
        let o = outs[i];
        outputs.push(o);
        factors.push(o.factor);
        proof {
            assert(outs@.subrange(lo as int, i as int).push(outs@[i as int]) =~= outs@.subrange(
                lo as int,
                i + 1,
            ));
            assert(outs@.subrange(lo as int, i as int).map_values(
                |o: SuperTrendOutput| o.factor,
            ).push(o.factor) =~= outs@.subrange(lo as int, i + 1).map_values(
                |o: SuperTrendOutput| o.factor,
            ));
        }
        i = i + 1;
    }
    let performance = if hi > lo {
        perf
    } else {
        0
    };
    SuperTrendCluster { factors, outputs, performance, cluster_id: id }
}

/// ATR of well-formed candles lies in `[0, PRICE_MAX]`.
pub proof fn lemma_atr_bounds(s: Seq<Candle>, period: int)
    requires
        crate::timeseries::all_wf(s),
        period >= 1,
    ensures
        0 <= spec_atr(s, period) <= PRICE_MAX,
{
    if s.len() < 2 {
    } else {
        assert(in_range(tr_seq(s), 0, PRICE_MAX as int)) by {
            assert forall|i: int| 0 <= i < tr_seq(s).len() implies 0 <= #[trigger] tr_seq(s)[i]
                <= PRICE_MAX by {
                assert(s[i].wf());
                if i > 0 {
                    assert(s[i - 1].wf());
                }
            }
        }
        lemma_smooth_bound_nonneg(tr_seq(s), 1, period - 1, period, PRICE_MAX as int);
    }
}

/// SuperTrend monotonicity law: with the window, ATR period and close
/// fixed, a larger factor never narrows the band between upper and lower.
pub proof fn lemma_supertrend_factor_monotone(s: Seq<Candle>, atr_period: int, f1: int, f2: int)
    requires
        crate::timeseries::all_wf(s),
        1 <= atr_period,
        0 <= f1 <= f2 <= FACTOR_MAX,
    ensures
        ({
            let o1 = spec_supertrend(s, atr_period, f1);
            let o2 = spec_supertrend(s, atr_period, f2);
            o2.upper - o2.lower >= o1.upper - o1.lower
        }),
{
    if s.len() < atr_period {
    } else {
        let atr = spec_atr(s, atr_period);
        lemma_atr_bounds(s, atr_period);
        let mid = spec_hl2(s);
        assert(s[s.len() - 1].wf());
        assert(s.last() == s[s.len() - 1]);
        assert(0 <= mid <= PRICE_MAX) by {
            lemma_div_pos_is_pos(s.last().high + s.last().low, 2);
            lemma_div_is_ordered(s.last().high + s.last().low, 2 * PRICE_MAX, 2);
            lemma_div_by_multiple(PRICE_MAX as int, 2);
            assert(2 * PRICE_MAX == PRICE_MAX * 2) by (nonlinear_arith);
        }
        let b1 = (atr * f1) / (SCALE as int);
        let b2 = (atr * f2) / (SCALE as int);
        assert(atr * f1 <= atr * f2) by (nonlinear_arith)
            requires
                atr >= 0,
                f1 <= f2,
        ;
        lemma_div_is_ordered(atr * f1, atr * f2, SCALE as int);
        lemma_div_pos_is_pos(atr * f1, SCALE as int);
        assert(atr * f2 <= PRICE_MAX * FACTOR_MAX) by (nonlinear_arith)
            requires
                0 <= atr <= PRICE_MAX,
                0 <= f2 <= FACTOR_MAX,
        ;
        lemma_div_is_ordered(atr * f2, PRICE_MAX * FACTOR_MAX, SCALE as int);
        assert((PRICE_MAX * FACTOR_MAX) / (SCALE as int) == 100_000_000_000_000_000int) by {
            lemma_div_by_multiple(100_000_000_000_000_000int, SCALE as int);
            assert(100_000_000_000_000_000int * SCALE == PRICE_MAX * FACTOR_MAX)
                by (nonlinear_arith);
        }
    }
}

/// Clustering partition law: the three contiguous buckets cover the
/// factor sweep exactly once.
pub proof fn lemma_clusters_partition(outs: Seq<SuperTrendOutput>)
    ensures
        ({
            let n = outs.len() as int;
            let k = n / 3;
            outs.subrange(0, k) + outs.subrange(k, 2 * k) + outs.subrange(2 * k, n) == outs
        }),
{
    let n = outs.len() as int;
    vstd::arithmetic::div_mod::lemma_fundamental_div_mod(n, 3);
    vstd::arithmetic::div_mod::lemma_mod_division_less_than_divisor(n, 3);
    lemma_div_pos_is_pos(n, 3);
    let k = n / 3;
    assert(outs.subrange(0, k) + outs.subrange(k, 2 * k) + outs.subrange(2 * k, n) =~= outs);
}

/// A sequence of values in `[0, b]` smooths to a value in `[0, b]`.
pub proof fn lemma_smooth_bound_nonneg(s: Seq<int>, wn: int, wo: int, den: int, b: int)
    requires
        wn >= 1,
        wo >= 0,
        den == wn + wo,
        b >= 0,
        in_range(s, 0, b),
    ensures
        0 <= smooth_seq(s, wn, wo, den) <= b,
    decreases s.len(),
{
    if s.len() <= 1 {
    } else {
        let d = s.drop_last();
        assert(in_range(d, 0, b)) by {
            assert(forall|i: int| 0 <= i < d.len() ==> d[i] == s[i]);
        }
        lemma_smooth_bound_nonneg(d, wn, wo, den, b);
        let v = smooth_seq(d, wn, wo, den);
        let x = s.last();
        assert(0 <= wn * x <= wn * b) by (nonlinear_arith)
            requires
                wn >= 1,
                0 <= x <= b,
        ;
        assert(0 <= wo * v <= wo * b) by (nonlinear_arith)
            requires
                wo >= 0,
                0 <= v <= b,
        ;
        assert(wn * b + wo * b == den * b) by (nonlinear_arith)
            requires
                den == wn + wo,
        ;
        lemma_div_pos_is_pos(wn * x + wo * v, den);
        lemma_div_is_ordered(wn * x + wo * v, den * b, den);
        lemma_div_by_multiple(b, den);
        assert(den * b == b * den) by (nonlinear_arith);
    }
}

} // verus!
