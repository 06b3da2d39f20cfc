//! The runner core: the deterministic part of one trading session.
//!
//! The asynchronous shell around the library subscribes to the live
//! candle stream, fetches the historical backfill, and watches for
//! cancellation; it hands this module plain values.  The session seeds
//! its ring from the backfill, then folds each live bar in arrival order
//! into the ring and asks the strategy for an action.  A lagging stream
//! changes no state here: the next bar handed in is simply the next bar.
//! The keyed upsert makes the backfill-to-live hand-off idempotent (see
//! [`crate::timeseries::lemma_backfill_then_live`]).

use vstd::prelude::*;

use crate::strategy::{Strategy, StrategyAction, StrategyContext};
use crate::timeseries::{
    all_wf, lemma_upsert_all_wf, ring_feed_from, ring_upsert, CandleRing, Candle,
};

verus! {

/// Capacity of a session's candle ring.
pub const RING_CAP: usize = 2000;

/// What a session works on: the trading pair and the bar interval.
pub struct RunConfig {
    pub symbol: String,
    pub interval: String,
}

/// One live trading session: a strategy with its working state and the
/// bounded candle ring the indicators read.
///
/// Construct it with the context and state that `Strategy::init`
/// produced; feed it the backfill with [`Runner::seed`] and every live
/// bar with [`Runner::on_bar`]; close it with [`Runner::finish`], which
/// runs `Strategy::end`.
pub struct Runner<S: Strategy> {
    strategy: S,
    ring: CandleRing,
    ctx: StrategyContext,
    state: S::State,
}

impl<S: Strategy> Runner<S> {
    /// The candles currently held, in chronological order.
    pub closed spec fn bars(&self) -> Seq<Candle> {
        self.ring@
    }

    /// The strategy's working state.
    pub closed spec fn state(&self) -> S::State {
        self.state
    }

    /// The shared context.
    pub closed spec fn spec_ctx(&self) -> StrategyContext {
        self.ctx
    }

    /// The strategy driving the session.
    pub closed spec fn spec_strategy(&self) -> S {
        self.strategy
    }

    /// Session invariant: the ring is sound, holds only well-formed
    /// bars, and has the session capacity.
    pub closed spec fn wf(&self) -> bool {
        &&& self.ring.wf()
        &&& self.ring.spec_cap() == RING_CAP
        &&& all_wf(self.ring@)
    }

    /// Opens a session around an initialized strategy.
    pub fn new(strategy: S, ctx: StrategyContext, state: S::State) -> (r: Runner<S>)
        ensures
            r.wf(),
            r.bars() == Seq::<Candle>::empty(),
            r.spec_strategy() == strategy,
            r.spec_ctx() == ctx,
            r.state() == state,
    {
        Runner { strategy, ring: CandleRing::new(RING_CAP), ctx, state }
    }

    /// Seeds the ring with the historical backfill, oldest first.
    pub fn seed(&mut self, backfill: &Vec<Candle>)
        requires
            old(self).wf(),
            all_wf(backfill@),
        ensures
            final(self).wf(),
            final(self).bars() == ring_feed_from(old(self).bars(), backfill@, RING_CAP as nat),
            final(self).state() == old(self).state(),
            final(self).spec_ctx() == old(self).spec_ctx(),
            final(self).spec_strategy() == old(self).spec_strategy(),
    {
        let n = backfill.len();
        let mut i: usize = 0;
        while i < n
            invariant
                0 <= i <= n == backfill@.len(),
                all_wf(backfill@),
                self.wf(),
                self.bars() == ring_feed_from(old(self).bars(), backfill@.take(i as int), RING_CAP as nat),
                self.state() == old(self).state(),
                self.spec_ctx() == old(self).spec_ctx(),
                self.spec_strategy() == old(self).spec_strategy(),
            decreases n - i,
        {
            let c = backfill[i];
            proof {
                assert(backfill@[i as int].wf());
                assert(backfill@.take(i + 1).drop_last() =~= backfill@.take(i as int));
                assert(backfill@.take(i + 1).last() == backfill@[i as int]);
                lemma_upsert_all_wf(self.bars(), RING_CAP as nat, c);
            }
            self.ring.upsert(c);
            i = i + 1;
        }
        proof {
            assert(backfill@.take(n as int) =~= backfill@);
        }
    }

    /// Folds one live bar into the ring, snapshots it, and asks the
    /// strategy for its action at the bar's close time.
    pub fn on_bar(&mut self, symbol: String, bar: Candle) -> (a: StrategyAction)
        requires
            old(self).wf(),
            bar.wf(),
        ensures
            final(self).wf(),
            final(self).bars() == ring_upsert(old(self).bars(), RING_CAP as nat, bar),
            final(self).spec_strategy() == old(self).spec_strategy(),
            final(self).spec_ctx().trades == old(self).spec_ctx().trades,
            ({
                let after = ring_upsert(old(self).bars(), RING_CAP as nat, bar);
                let (s2, av) = old(self).spec_strategy().spec_tick(
                    bar.timestamp,
                    old(self).state(),
                    symbol@,
                    after,
                    bar,
                );
                &&& final(self).state() == s2
                &&& a@ == av
            }),
    {
        proof {
            lemma_upsert_all_wf(self.bars(), RING_CAP as nat, bar);
        }
        self.ring.upsert(bar);
        let snapshot = self.ring.snapshot();
        self.strategy.tick(
            &mut self.ctx,
            bar.timestamp,
            &mut self.state,
            symbol,
            &snapshot,
            bar,
        )
    }

    /// A copy of the ring's contents, chronological, for external
    /// readers.
    pub fn snapshot(&self) -> (r: Vec<Candle>)
        ensures
            r@ == self.bars(),
    {
        self.ring.snapshot()
    }

    /// Closes the session: runs the strategy's `end` and hands the final
    /// context and state back.
    pub fn finish(self) -> (r: (StrategyContext, S::State))
        ensures
            r == self.spec_strategy().spec_end(self.spec_ctx(), self.state()),
    {
        let Runner { strategy, ring: _ring, ctx, state } = self;
        strategy.end(ctx, state)
    }
}

} // verus!
