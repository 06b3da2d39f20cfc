//! Candles and the fixed-capacity, time-keyed candle ring.
//!
//! The ring holds at most `cap` candles, keyed by close time.  An upsert of
//! a known key overwrites in place and keeps the iteration order; an upsert
//! of a fresh key appends, evicting the oldest entry when the ring is full.
//! [`ring_upsert`] is the sequence-level model of that operation, and the
//! lemmas at the end of the module state the ring laws over it.

use vstd::prelude::*;

use crate::fixed::PRICE_MAX;

verus! {

/// An OHLCV bar.
///
/// Prices and volume are scaled fixed-point integers (see [`crate::fixed`]);
/// `timestamp` is the bar's close time in milliseconds since the epoch and
/// also the key under which the ring stores the bar.
#[derive(Clone, Copy, Debug)]
pub struct Candle {
    pub open: u64,
    pub high: u64,
    pub low: u64,
    pub close: u64,
    pub volume: u64,
    pub timestamp: u64,
}

impl Candle {
    /// Prices small enough for the indicator arithmetic.
    pub open spec fn bounded(self) -> bool {
        self.open <= PRICE_MAX && self.high <= PRICE_MAX && self.low <= PRICE_MAX && self.close
            <= PRICE_MAX && self.volume <= PRICE_MAX
    }

    /// A well-formed bar: bounded, with `low <= open, close <= high`.
    pub open spec fn wf(self) -> bool {
        self.bounded() && self.low <= self.open <= self.high && self.low <= self.close
            <= self.high
    }

    pub fn new(open: u64, high: u64, low: u64, close: u64, volume: u64, timestamp: u64) -> (c:
        Candle)
        ensures
            c == (Candle { open, high, low, close, volume, timestamp }),
    {
        Candle { open, high, low, close, volume, timestamp }
    }

    /// Checks the bar invariant at run time.
    pub fn is_wf(&self) -> (b: bool)
        ensures
            b == self.wf(),
    {
        self.open <= PRICE_MAX && self.high <= PRICE_MAX && self.low <= PRICE_MAX && self.close
            <= PRICE_MAX && self.volume <= PRICE_MAX && self.low <= self.open && self.open
            <= self.high && self.low <= self.close && self.close <= self.high
    }
}

/// Every candle of the sequence is bounded.
pub open spec fn all_bounded(s: Seq<Candle>) -> bool {
    forall|i: int| 0 <= i < s.len() ==> (#[trigger] s[i]).bounded()
}

/// Every candle of the sequence is well formed.
pub open spec fn all_wf(s: Seq<Candle>) -> bool {
    forall|i: int| 0 <= i < s.len() ==> (#[trigger] s[i]).wf()
}

/// No two candles of the sequence share a close time.
pub open spec fn unique_ts(s: Seq<Candle>) -> bool {
    forall|i: int, j: int|
        0 <= i < j < s.len() ==> (#[trigger] s[i]).timestamp != (#[trigger] s[j]).timestamp
}

/// Index of the first candle with close time `ts`, or `-1`.
pub open spec fn find_ts(s: Seq<Candle>, ts: u64) -> int
    decreases s.len(),
{
    if s.len() == 0 {
        -1
    } else if s.first().timestamp == ts {
        0
    } else if find_ts(s.drop_first(), ts) < 0 {
        -1
    } else {
        1 + find_ts(s.drop_first(), ts)
    }
}

/// Some candle of the sequence has close time `ts`.
pub open spec fn has_ts(s: Seq<Candle>, ts: u64) -> bool {
    exists|i: int| 0 <= i < s.len() && (#[trigger] s[i]).timestamp == ts
}

/// Sequence model of one upsert into a ring of capacity `cap`: overwrite in
/// place when the key is known, append when there is room, otherwise evict
/// the oldest entry and append.
pub open spec fn ring_upsert(s: Seq<Candle>, cap: nat, c: Candle) -> Seq<Candle> {
    let i = find_ts(s, c.timestamp);
    if i >= 0 {
        s.update(i, c)
    } else if s.len() < cap {
        s.push(c)
    } else {
        s.drop_first().push(c)
    }
}

/// Sequence model of feeding every candle of `s` into an empty ring.
pub open spec fn ring_feed(s: Seq<Candle>, cap: nat) -> Seq<Candle>
    decreases s.len(),
{
    if s.len() == 0 {
        Seq::empty()
    } else {
        ring_upsert(ring_feed(s.drop_last(), cap), cap, s.last())
    }
}

/// Sequence model of feeding every candle of `s` into a ring that
/// already holds `init`.
pub open spec fn ring_feed_from(init: Seq<Candle>, s: Seq<Candle>, cap: nat) -> Seq<Candle>
    decreases s.len(),
{
    if s.len() == 0 {
        init
    } else {
        ring_upsert(ring_feed_from(init, s.drop_last(), cap), cap, s.last())
    }
}

/// Upserting a well-formed candle keeps every entry well formed.
pub proof fn lemma_upsert_all_wf(s: Seq<Candle>, cap: nat, c: Candle)
    requires
        all_wf(s),
        c.wf(),
        cap >= 1,
    ensures
        all_wf(ring_upsert(s, cap, c)),
{
    lemma_find_ts(s, c.timestamp);
    let r = ring_upsert(s, cap, c);
    let f = find_ts(s, c.timestamp);
    assert forall|i: int| 0 <= i < r.len() implies (#[trigger] r[i]).wf() by {
        if f >= 0 {
            if i == f {
                assert(r[i] == c);
            } else {
                assert(r[i] == s[i]);
                assert(s[i].wf());
            }
        } else if s.len() < cap {
            if i == r.len() - 1 {
                assert(r[i] == c);
            } else {
                assert(r[i] == s[i]);
                assert(s[i].wf());
            }
        } else {
            assert(s.len() >= cap >= 1);
            assert(r == s.drop_first().push(c));
            assert(r.len() == s.len());
            if i == r.len() - 1 {
                assert(r[i] == c);
            } else {
                assert(r[i] == s.drop_first()[i]);
                assert(s.drop_first()[i] == s[i + 1]);
                assert(s[i + 1].wf());
            }
        }
    }
}

/// `find_ts` finds the first index that carries `ts`, and only fails when
/// no index does.
pub proof fn lemma_find_ts(s: Seq<Candle>, ts: u64)
    ensures
        has_ts(s, ts) ==> {
            let i = find_ts(s, ts);
            &&& 0 <= i < s.len()
            &&& s[i].timestamp == ts
            &&& forall|j: int| 0 <= j < i ==> (#[trigger] s[j]).timestamp != ts
        },
        !has_ts(s, ts) ==> find_ts(s, ts) == -1,
    decreases s.len(),
{
    if s.len() > 0 {
        lemma_find_ts(s.drop_first(), ts);
        if s.first().timestamp == ts {
        } else {
            assert forall|k: int| 0 <= k < s.drop_first().len() implies s.drop_first()[k]
                == s[k + 1] by {}
            if has_ts(s, ts) {
                let w = choose|i: int| 0 <= i < s.len() && s[i].timestamp == ts;
                assert(w != 0);
                assert(s.drop_first()[w - 1].timestamp == ts);
                assert(has_ts(s.drop_first(), ts));
                let i = find_ts(s.drop_first(), ts);
                assert(s[i + 1].timestamp == ts);
                assert forall|j: int| 0 <= j < i + 1 implies (#[trigger] s[j]).timestamp != ts by {
                    if j > 0 {
                        assert(s.drop_first()[j - 1] == s[j]);
                    }
                }
            } else {
                if has_ts(s.drop_first(), ts) {
                    let w = choose|i: int|
                        0 <= i < s.drop_first().len() && s.drop_first()[i].timestamp == ts;
                    assert(s[w + 1].timestamp == ts);
                }
            }
        }
    }
}

/// Under unique keys, `find_ts` is exact: a candle with key `ts` at `i`
/// makes `i` the found index.
pub proof fn lemma_find_ts_unique(s: Seq<Candle>, i: int)
    requires
        unique_ts(s),
        0 <= i < s.len(),
    ensures
        find_ts(s, s[i].timestamp) == i,
{
    let ts = s[i].timestamp;
    lemma_find_ts(s, ts);
    assert(has_ts(s, ts));
    let f = find_ts(s, ts);
    if f < i {
        assert(s[f].timestamp == ts);
    } else if f > i {
        assert(s[i].timestamp != ts);
    }
}

/// A fixed-capacity, chronologically ordered collection of candles keyed by
/// close time, with upsert-in-place semantics.
pub struct CandleRing {
    cap: usize,
    items: Vec<Candle>,
}

impl View for CandleRing {
    type V = Seq<Candle>;

    closed spec fn view(&self) -> Seq<Candle> {
        self.items@
    }
}

impl CandleRing {
    /// The capacity the ring was created with.
    pub closed spec fn spec_cap(&self) -> int {
        self.cap as int
    }

    /// Ring invariant: positive capacity, no overflow, unique keys.
    pub closed spec fn wf(&self) -> bool {
        &&& self.cap >= 1
        &&& self@.len() <= self.cap
        &&& unique_ts(self@)
    }

    /// Creates an empty ring of capacity `cap` (which must be positive).
    pub fn new(cap: usize) -> (r: CandleRing)
        requires
            cap >= 1,
        ensures
            r.wf(),
            r@ == Seq::<Candle>::empty(),
            r.spec_cap() == cap,
    {
        let r = CandleRing { cap, items: Vec::new() };
        assert(r@ =~= Seq::<Candle>::empty());
        r
    }

    /// Inserts or updates by close time; overwrites the oldest entry when a
    /// fresh key arrives with the ring at capacity.
    pub fn upsert(&mut self, c: Candle)
        requires
            old(self).wf(),
        ensures
            final(self).wf(),
            final(self)@ == ring_upsert(old(self)@, old(self).spec_cap() as nat, c),
            final(self).spec_cap() == old(self).spec_cap(),
    {
        proof {
            lemma_find_ts(self@, c.timestamp);
        }
        let n = self.items.len();
        let mut i: usize = 0;
        while i < n
            invariant
                0 <= i <= n == self@.len(),
                self.wf(),
                self == old(self),
                forall|j: int| 0 <= j < i ==> (#[trigger] self@[j]).timestamp != c.timestamp,
            decreases n - i,
        {
            if self.items[i].timestamp == c.timestamp {
                proof {
                    lemma_find_ts_unique(self@, i as int);
                }
                self.items[i] = c;
                proof {
                    assert forall|p: int, q: int|
                        0 <= p < q < self@.len() implies (#[trigger] self@[p]).timestamp != (
                    #[trigger] self@[q]).timestamp by {
                        // Only position i changed, and it kept its key.
                    }
                }
                return ;
            }
            i = i + 1;
        }
        assert(!has_ts(self@, c.timestamp));
        if self.items.len() == self.cap {
            let _evicted = self.items.remove(0);
            proof {
                assert(self.items@ =~= old(self)@.drop_first());
            }
        }
        self.items.push(c);
        proof {
            let prev = old(self)@;
            let now = self@;
            assert forall|p: int, q: int|
                0 <= p < q < now.len() implies (#[trigger] now[p]).timestamp != (
            #[trigger] now[q]).timestamp by {
                if prev.len() < old(self).cap {
                    if q < now.len() - 1 {
                        assert(now[p] == prev[p] && now[q] == prev[q]);
                    } else {
                        assert(now[p] == prev[p]);
                        assert(!has_ts(prev, c.timestamp));
                    }
                } else {
                    if q < now.len() - 1 {
                        assert(now[p] == prev[p + 1] && now[q] == prev[q + 1]);
                    } else {
                        assert(now[p] == prev[p + 1]);
                        assert(!has_ts(prev, c.timestamp));
                    }
                }
            }
        }
    }

    /// Looks a candle up by close time.
    pub fn get(&self, ts: u64) -> (r: Option<&Candle>)
        requires
            self.wf(),
        ensures
            match r {
                Some(c) => has_ts(self@, ts) && *c == self@[find_ts(self@, ts)],
                None => !has_ts(self@, ts),
            },
    {
        proof {
            lemma_find_ts(self@, ts);
        }
        let n = self.items.len();
        let mut i: usize = 0;
        while i < n
            invariant
                0 <= i <= n == self@.len(),
                self.wf(),
                forall|j: int| 0 <= j < i ==> (#[trigger] self@[j]).timestamp != ts,
            decreases n - i,
        {
            if self.items[i].timestamp == ts {
                proof {
                    lemma_find_ts_unique(self@, i as int);
                }
                return Some(&self.items[i]);
            }
            i = i + 1;
        }
        None
    }

    /// The most recently inserted or updated... chronologically last candle.
    pub fn last(&self) -> (r: Option<&Candle>)
        ensures
            match r {
                Some(c) => self@.len() > 0 && *c == self@.last(),
                None => self@.len() == 0,
            },
    {
        let n = self.items.len();
        if n == 0 {
            None
        } else {
            Some(&self.items[n - 1])
        }
    }

    /// Number of candles held.
    pub fn len(&self) -> (n: usize)
        ensures
            n == self@.len(),
    {
        self.items.len()
    }

    pub fn is_empty(&self) -> (b: bool)
        ensures
            b == (self@.len() == 0),
    {
        self.items.len() == 0
    }

    /// The ring's contents in chronological order, oldest first.
    pub fn iter(&self) -> (r: &Vec<Candle>)
        ensures
            r@ == self@,
    {
        &self.items
    }

    /// A copy of the contents in chronological order.  The copy is a plain
    /// vector: later upserts into the ring leave it untouched.
    pub fn snapshot(&self) -> (r: Vec<Candle>)
        ensures
            r@ == self@,
    {
        let n = self.items.len();
        let mut out: Vec<Candle> = Vec::new();
        let mut i: usize = 0;
        while i < n
            invariant
                0 <= i <= n == self@.len(),
                out@ == self@.take(i as int),
            decreases n - i,
        {
            out.push(self.items[i]);
            proof {
                assert(self@.take(i as int).push(self@[i as int]) =~= self@.take(i + 1));
            }
            i = i + 1;
        }
        proof {
            assert(self@.take(n as int) =~= self@);
        }
        out
    }
}

/// Ring law: an upsert never grows past the capacity, preserves key
/// uniqueness, and moves no surviving entry out of first-seen order.
pub proof fn lemma_upsert_invariants(s: Seq<Candle>, cap: nat, c: Candle)
    requires
        unique_ts(s),
        s.len() <= cap,
        cap >= 1,
    ensures
        ring_upsert(s, cap, c).len() <= cap,
        unique_ts(ring_upsert(s, cap, c)),
        has_ts(s, c.timestamp) ==> ring_upsert(s, cap, c) == s.update(find_ts(s, c.timestamp), c),
        !has_ts(s, c.timestamp) && s.len() < cap ==> ring_upsert(s, cap, c) == s.push(c),
        !has_ts(s, c.timestamp) && s.len() == cap ==> ring_upsert(s, cap, c)
            == s.drop_first().push(c),
{
    lemma_find_ts(s, c.timestamp);
    let r = ring_upsert(s, cap, c);
    if has_ts(s, c.timestamp) {
        let i = find_ts(s, c.timestamp);
        assert(s[i].timestamp == c.timestamp);
        assert forall|p: int, q: int|
            0 <= p < q < r.len() implies (#[trigger] r[p]).timestamp != (
        #[trigger] r[q]).timestamp by {
            assert(s[p].timestamp != s[q].timestamp);
        }
    } else if s.len() < cap {
        assert forall|p: int, q: int|
            0 <= p < q < r.len() implies (#[trigger] r[p]).timestamp != (
        #[trigger] r[q]).timestamp by {
            if q < r.len() - 1 {
                assert(r[p] == s[p] && r[q] == s[q]);
            } else {
                assert(r[p] == s[p]);
            }
        }
    } else {
        assert forall|p: int, q: int|
            0 <= p < q < r.len() implies (#[trigger] r[p]).timestamp != (
        #[trigger] r[q]).timestamp by {
            if q < r.len() - 1 {
                assert(r[p] == s[p + 1] && r[q] == s[q + 1]);
            } else {
                assert(r[p] == s[p + 1]);
            }
        }
    }
}

/// Upsert-wins law: after an upsert of `c`, looking its key up yields `c`.
pub proof fn lemma_get_after_upsert(s: Seq<Candle>, cap: nat, c: Candle)
    requires
        unique_ts(s),
        s.len() <= cap,
        cap >= 1,
    ensures
        has_ts(ring_upsert(s, cap, c), c.timestamp),
        ring_upsert(s, cap, c)[find_ts(ring_upsert(s, cap, c), c.timestamp)] == c,
{
    lemma_upsert_invariants(s, cap, c);
    lemma_find_ts(s, c.timestamp);
    let r = ring_upsert(s, cap, c);
    if has_ts(s, c.timestamp) {
        let i = find_ts(s, c.timestamp);
        assert(r[i] == c);
        lemma_find_ts_unique(r, i);
    } else {
        assert(r[r.len() - 1] == c);
        lemma_find_ts_unique(r, r.len() - 1);
    }
}

/// Idempotence law: upserting the same candle twice equals upserting it
/// once.
pub proof fn lemma_upsert_idempotent(s: Seq<Candle>, cap: nat, c: Candle)
    requires
        unique_ts(s),
        s.len() <= cap,
        cap >= 1,
    ensures
        ring_upsert(ring_upsert(s, cap, c), cap, c) == ring_upsert(s, cap, c),
{
    lemma_upsert_invariants(s, cap, c);
    lemma_get_after_upsert(s, cap, c);
    let r = ring_upsert(s, cap, c);
    lemma_find_ts(r, c.timestamp);
    let i = find_ts(r, c.timestamp);
    assert(ring_upsert(r, cap, c) == r.update(i, c));
    assert(r.update(i, c) =~= r);
}

/// A feed of uniquely keyed candles leaves exactly the newest `cap` of
/// them, in order.
pub proof fn lemma_feed_unique(s: Seq<Candle>, cap: nat)
    requires
        unique_ts(s),
        cap >= 1,
    ensures
        ring_feed(s, cap) == if s.len() <= cap {
            s
        } else {
            s.skip(s.len() - cap)
        },
        unique_ts(ring_feed(s, cap)),
        ring_feed(s, cap).len() <= cap,
    decreases s.len(),
{
    if s.len() == 0 {
        assert(ring_feed(s, cap) =~= s);
    } else {
        let d = s.drop_last();
        assert(unique_ts(d)) by {
            assert forall|p: int, q: int|
                0 <= p < q < d.len() implies (#[trigger] d[p]).timestamp != (
            #[trigger] d[q]).timestamp by {
                assert(s[p].timestamp != s[q].timestamp);
            }
        }
        lemma_feed_unique(d, cap);
        let f = ring_feed(d, cap);
        let c = s.last();
        assert(!has_ts(f, c.timestamp)) by {
            if has_ts(f, c.timestamp) {
                let w = choose|i: int| 0 <= i < f.len() && f[i].timestamp == c.timestamp;
                if d.len() <= cap {
                    assert(s[w].timestamp == s[s.len() - 1].timestamp);
                } else {
                    assert(f[w] == s[w + d.len() - cap]);
                    assert(s[w + d.len() - cap].timestamp == s[s.len() - 1].timestamp);
                }
            }
        }
        lemma_find_ts(f, c.timestamp);
        if f.len() < cap {
            assert(ring_feed(s, cap) == f.push(c));
            if s.len() <= cap {
                assert(f.push(c) =~= s);
            } else {
                assert(f.push(c) =~= s.skip(s.len() - cap));
            }
        } else {
            assert(ring_feed(s, cap) == f.drop_first().push(c));
            if s.len() <= cap {
                assert(f.drop_first().push(c) =~= s);
            } else {
                assert(f.drop_first().push(c) =~= s.skip(s.len() - cap));
            }
        }
        let r = ring_feed(s, cap);
        let k: int = if s.len() <= cap { 0 } else { s.len() - cap };
        assert(r == s.skip(k) || r == s);
        assert(forall|p: int| 0 <= p < r.len() ==> r[p] == s[p + k]);
        assert forall|p: int, q: int|
            0 <= p < q < r.len() implies (#[trigger] r[p]).timestamp != (
        #[trigger] r[q]).timestamp by {
            assert(s[p + k].timestamp != s[q + k].timestamp);
        }
    }
}

/// Backfill-then-live law, for any surviving key: republishing a bar
/// whose key the feed has not evicted leaves the ring exactly as the
/// merged feed, in which the republished bar replaced the original
/// under its key (latest wins).
pub proof fn lemma_feed_republish(b: Seq<Candle>, cap: nat, i: int, c: Candle)
    requires
        unique_ts(b),
        cap >= 1,
        0 <= i < b.len(),
        c.timestamp == b[i].timestamp,
        i >= b.len() - cap,
    ensures
        ring_feed(b.push(c), cap) == ring_feed(b.update(i, c), cap),
{
    lemma_feed_unique(b, cap);
    let f = ring_feed(b, cap);
    assert(ring_feed(b.push(c), cap) == ring_upsert(f, cap, c)) by {
        assert(b.push(c).drop_last() =~= b);
        assert(b.push(c).last() == c);
    }
    let m = b.update(i, c);
    assert(unique_ts(m)) by {
        assert forall|p: int, q: int|
            0 <= p < q < m.len() implies (#[trigger] m[p]).timestamp != (
        #[trigger] m[q]).timestamp by {
            assert(b[p].timestamp != b[q].timestamp);
        }
    }
    lemma_feed_unique(m, cap);
    // The republished key still sits in the ring, at `i` less the
    // evicted prefix; the upsert overwrites it in place.
    let k: int = if b.len() <= cap {
        0
    } else {
        b.len() - cap
    };
    let pos = i - k;
    assert(f[pos].timestamp == c.timestamp);
    lemma_find_ts_unique(f, pos);
    assert(ring_upsert(f, cap, c) == f.update(pos, c));
    if b.len() <= cap {
        assert(f.update(pos, c) =~= m);
    } else {
        assert(f.update(pos, c) =~= m.skip(m.len() - cap));
    }
}

/// Backfill-then-live law: a backfill feed followed by a republication of
/// its last bar leaves the ring exactly as the merged feed.
pub proof fn lemma_backfill_then_live(b: Seq<Candle>, cap: nat, c: Candle)
    requires
        unique_ts(b),
        b.len() > 0,
        cap >= 1,
        c.timestamp == b.last().timestamp,
    ensures
        ring_feed(b.push(c), cap) == ring_feed(b.update(b.len() - 1, c), cap),
{
    lemma_feed_republish(b, cap, b.len() - 1, c);
}

/// A time-ordered batch of candles.
#[derive(Debug)]
pub struct TimeSeries {
    pub candles: Vec<Candle>,
}

/// Names an exchange trading-pair symbol, such as `BTCUSDT`.
pub trait SymbolTrait {
    fn to_string(&self) -> String;
}

/// Names a bar interval, such as `1m`, and gives its wall-clock length.
pub trait IntervalTrait {
    fn to_string(&self) -> String;

    fn to_duration(&self) -> core::time::Duration;
}

/// A batch of candles framed by its query window, symbol and interval.
pub struct FramedCandles<I: IntervalTrait, S: SymbolTrait> {
    /// Window start, milliseconds since the epoch.
    pub start: u64,
    /// Window end, milliseconds since the epoch.
    pub end: u64,
    pub candles: Vec<Candle>,
    pub interval: I,
    pub symbol: S,
}

} // verus!
