//! The strategy port: per-strategy state, emitted actions, and the
//! reference minimal strategy.
//!
//! A strategy's whole behaviour is captured by the specification
//! functions of the [`Strategy`] trait; the executable methods are bound
//! to them, so the runner's per-bar step is fully described at the
//! contract level.

use vstd::prelude::*;

use crate::analysis::{
    spec_ema, spec_macd, spec_supertrend, TechnicalAnalysis,
};
use crate::fixed::SCALE;
use crate::timeseries::{all_wf, Candle};

verus! {

/// Side of a strategy trade.
#[derive(Clone, Copy, Debug)]
pub enum StrategyTraitKind {
    Short,
    Long,
}

/// An in-flight trade tracked by a strategy; values are scaled
/// fixed-point.
#[derive(Clone, Debug)]
pub struct StrategyTrade {
    pub id: String,
    pub kind: StrategyTraitKind,
    pub value: i64,
    pub start_value: i64,
    pub end_value: Option<i64>,
}

/// Working memory shared across ticks: the in-flight trades table,
/// keyed by trade id.
#[derive(Clone, Debug)]
pub struct StrategyContext {
    pub trades: Vec<StrategyTrade>,
}

impl StrategyContext {
    /// Fresh working memory with no trades in flight.
    pub fn new() -> (r: StrategyContext)
        ensures
            r.trades@.len() == 0,
    {
        StrategyContext { trades: Vec::new() }
    }
}

/// An emitted trading instruction.
#[derive(Clone, Debug)]
pub struct TradingAction {
    pub id: String,
    /// Close time of the bar that triggered the emission, milliseconds.
    pub timestamp: u64,
    pub symbol: String,
    /// Scaled order size.
    pub amount: u64,
}

/// Specification view of a [`TradingAction`].
pub struct TradingActionView {
    pub id: Seq<char>,
    pub timestamp: u64,
    pub symbol: Seq<char>,
    pub amount: u64,
}

impl View for TradingAction {
    type V = TradingActionView;

    open spec fn view(&self) -> TradingActionView {
        TradingActionView {
            id: self.id@,
            timestamp: self.timestamp,
            symbol: self.symbol@,
            amount: self.amount,
        }
    }
}

/// What a strategy decided on a tick: an emitted action, or nothing.
#[derive(Clone, Debug)]
pub enum StrategyAction {
    Emitted(Box<TradingAction>),
    Pass,
}

/// Specification view of a [`StrategyAction`].
pub enum StrategyActionView {
    Emitted(TradingActionView),
    Pass,
}

impl View for StrategyAction {
    type V = StrategyActionView;

    open spec fn view(&self) -> StrategyActionView {
        match self {
            StrategyAction::Emitted(a) => StrategyActionView::Emitted(a@),
            StrategyAction::Pass => StrategyActionView::Pass,
        }
    }
}

/// A trading strategy evaluated once per live bar.
///
/// Each implementation fixes a state type and describes its behaviour
/// with the specification functions; the executable methods are bound to
/// them.  `tick` reads the chronological snapshot of the candle ring
/// (including the live bar) and leaves the shared context untouched.
pub trait Strategy: Sized {
    type State;

    /// The defined initial state.
    spec fn spec_initial_state(&self) -> Self::State;

    /// What `init` does to context and state.
    spec fn spec_init(&self, ctx: StrategyContext, state: Self::State) -> (StrategyContext,
        Self::State);

    /// What `end` does to context and state.
    spec fn spec_end(&self, ctx: StrategyContext, state: Self::State) -> (StrategyContext,
        Self::State);

    /// The state update and action of one tick.
    spec fn spec_tick(
        &self,
        at_ms: u64,
        state: Self::State,
        symbol: Seq<char>,
        snapshot: Seq<Candle>,
        bar: Candle,
    ) -> (Self::State, StrategyActionView);

    /// Static portfolio weighting hint: symbols with scaled priorities.
    spec fn spec_portfolio(&self) -> Seq<(Seq<char>, u64)>;

    fn initial_state(&self) -> (s: Self::State)
        ensures
            s == self.spec_initial_state(),
    ;

    /// Called once before the first tick.
    fn init(&self, ctx: StrategyContext, state: Self::State) -> (r: (StrategyContext, Self::State))
        ensures
            r == self.spec_init(ctx, state),
    ;

    /// Called once after the loop terminates.
    fn end(&self, ctx: StrategyContext, state: Self::State) -> (r: (StrategyContext, Self::State))
        ensures
            r == self.spec_end(ctx, state),
    ;

    /// Called once per live bar, in arrival order; `snapshot` is the
    /// chronological snapshot of the ring including `bar`.
    fn tick(
        &self,
        ctx: &mut StrategyContext,
        at_ms: u64,
        state: &mut Self::State,
        symbol: String,
        snapshot: &Vec<Candle>,
        bar: Candle,
    ) -> (a: StrategyAction)
        requires
            all_wf(snapshot@),
        ensures
            ({
                let (s2, av) = self.spec_tick(at_ms, *old(state), symbol@, snapshot@, bar);
                &&& *final(state) == s2
                &&& a@ == av
                &&& final(ctx).trades == old(ctx).trades
            }),
    ;

    fn portfolio(&self) -> (r: Vec<(String, u64)>)
        ensures
            r@.map_values(|p: (String, u64)| (p.0@, p.1)) == self.spec_portfolio(),
    ;
}

/// State of the reference strategy: the latest indicator readings and
/// the emission bookkeeping.
#[derive(Clone, Copy, Debug)]
pub struct MinimalState {
    /// Latest MACD line value.
    pub macd: i64,
    /// Latest EMA(20) of the closes.
    pub ema: u64,
    /// Latest SuperTrend trend flag.
    pub st: i32,
    /// Second-resolution timestamp of the last emission; `0` before any.
    pub last_timestamp: u64,
    /// Trend at the last emission; `-1` before any.
    pub last_trend: i32,
}

impl Default for MinimalState {
    /// The state before any tick: no readings, no emission.
    fn default() -> (s: MinimalState)
        ensures
            s == (MinimalState { macd: 0, ema: 0, st: 0, last_timestamp: 0, last_trend: -1i32 }),
    {
        MinimalState { macd: 0, ema: 0, st: 0, last_timestamp: 0, last_trend: -1 }
    }
}

/// The reference strategy: MACD(12,26,9), EMA(20) and SuperTrend(10, 3)
/// over the snapshot; emits a fixed-size `sell`-tagged action on a
/// bullish SuperTrend whenever the bar's second changed or the trend just
/// flipped bullish.
#[derive(Clone, Debug)]
pub struct MinimalStrategy {
    pub context: StrategyContext,
}

impl MinimalStrategy {
    pub fn new() -> (r: MinimalStrategy)
        ensures
            r.context.trades@.len() == 0,
    {
        MinimalStrategy { context: StrategyContext { trades: Vec::new() } }
    }
}

/// The tick decision of [`MinimalStrategy`], in full.
pub open spec fn spec_minimal_tick(
    at_ms: u64,
    st0: MinimalState,
    symbol: Seq<char>,
    snapshot: Seq<Candle>,
) -> (MinimalState, StrategyActionView) {
    let m = spec_macd(snapshot, 12, 26, 9);
    let e = spec_ema(snapshot, 20);
    let st = spec_supertrend(snapshot, 10, 3 * SCALE);
    let secs = at_ms / 1000;
    let s1 = MinimalState {
        macd: m.macd,
        ema: e as u64,
        st: st.trend,
        last_timestamp: st0.last_timestamp,
        last_trend: st0.last_trend,
    };
    if st.trend == 1 && (secs != st0.last_timestamp || st0.last_trend != 1) {
        let s2 = MinimalState { last_timestamp: secs, last_trend: 1, ..s1 };
        (
            s2,
            StrategyActionView::Emitted(
                TradingActionView {
                    id: "sell"@,
                    timestamp: at_ms,
                    symbol: symbol,
                    amount: (SCALE / 100) as u64,
                },
            ),
        )
    } else {
        (s1, StrategyActionView::Pass)
    }
}

impl Strategy for MinimalStrategy {
    type State = MinimalState;

    open spec fn spec_initial_state(&self) -> MinimalState {
        MinimalState { macd: 0, ema: 0, st: 0, last_timestamp: 0, last_trend: -1i32 }
    }

    open spec fn spec_init(&self, ctx: StrategyContext, state: MinimalState) -> (StrategyContext,
        MinimalState) {
        (ctx, state)
    }

    open spec fn spec_end(&self, ctx: StrategyContext, state: MinimalState) -> (StrategyContext,
        MinimalState) {
        (ctx, state)
    }

    open spec fn spec_tick(
        &self,
        at_ms: u64,
        state: MinimalState,
        symbol: Seq<char>,
        snapshot: Seq<Candle>,
        bar: Candle,
    ) -> (MinimalState, StrategyActionView) {
        spec_minimal_tick(at_ms, state, symbol, snapshot)
    }

    open spec fn spec_portfolio(&self) -> Seq<(Seq<char>, u64)> {
        seq![
            ("BTCUSDT"@, (SCALE / 2) as u64),
            ("ETHUSDT"@, (3 * SCALE / 10) as u64),
            ("SOLUSDT"@, (SCALE / 5) as u64),
        ]
    }

    fn initial_state(&self) -> (s: MinimalState) {
        MinimalState { macd: 0, ema: 0, st: 0, last_timestamp: 0, last_trend: -1i32 }
    }

    fn init(&self, ctx: StrategyContext, state: MinimalState) -> (r: (StrategyContext,
        MinimalState)) {
        (ctx, state)
    }

    fn end(&self, ctx: StrategyContext, state: MinimalState) -> (r: (StrategyContext,
        MinimalState)) {
        (ctx, state)
    }

    fn tick(
        &self,
        ctx: &mut StrategyContext,
        at_ms: u64,
        state: &mut MinimalState,
        symbol: String,
        snapshot: &Vec<Candle>,
        bar: Candle,
    ) -> (a: StrategyAction) {
        proof {
            assert forall|i: int|
                0 <= i < snapshot@.len() implies (#[trigger] snapshot@[i]).bounded() by {
                assert(snapshot@[i].wf());
            }
        }
        let m = snapshot.macd(12, 26, 9);
        let e = snapshot.ema(20);
        let st = snapshot.supertrend(10, 3 * SCALE);
        let secs = at_ms / 1000;
        let s1 = MinimalState {
            macd: m.macd,
            ema: e,
            st: st.trend,
            last_timestamp: state.last_timestamp,
            last_trend: state.last_trend,
        };
        if st.trend == 1 && (secs != state.last_timestamp || state.last_trend != 1) {
            *state = MinimalState { last_timestamp: secs, last_trend: 1, ..s1 };
            StrategyAction::Emitted(
                Box::new(
                    TradingAction {
                        id: "sell".to_owned(),
                        timestamp: at_ms,
                        symbol,
                        amount: SCALE / 100,
                    },
                ),
            )
        } else {
            *state = s1;
            StrategyAction::Pass
        }
    }

    fn portfolio(&self) -> (r: Vec<(String, u64)>) {
        let mut r: Vec<(String, u64)> = Vec::new();
        r.push(("BTCUSDT".to_owned(), SCALE / 2));
        r.push(("ETHUSDT".to_owned(), 3 * SCALE / 10));
        r.push(("SOLUSDT".to_owned(), SCALE / 5));
        proof {
            assert(r@.map_values(|p: (String, u64)| (p.0@, p.1)) =~= self.spec_portfolio());
        }
        r
    }
}

} // verus!
