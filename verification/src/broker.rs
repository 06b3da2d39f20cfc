//! The broker port's compute half.
//!
//! The Binance adapter's network edges — the REST requests, the
//! websocket read loops, the credential lookup — live outside the
//! library and hand plain values in.  What they hand back is decoded and
//! shaped here: account rows reduce to the positive balances, and kline
//! rows from the history endpoint become candles.  The edges return no
//! rows on any error, so these functions then yield the documented empty
//! sentinels.

use vstd::prelude::*;
use vstd::utf8::encode_utf8;

use crate::fixed::{parse_fixed_or_zero, spec_parse_fixed_or_zero};
use crate::timeseries::{all_wf, Candle};
use crate::wire::{bytes_eq, candle_from_fields, spec_candle_from_fields};

verus! {

/// Handle of the Binance adapter.  The network edges around the library
/// construct it and own the sockets and credentials; the handle itself
/// carries no state.
#[derive(Clone, Debug)]
pub struct BinanceBroker {}

impl BinanceBroker {
    pub fn new() -> (r: BinanceBroker)
        ensures
            r == (BinanceBroker {  }),
    {
        BinanceBroker {  }
    }
}

impl Default for BinanceBroker {
    fn default() -> (r: BinanceBroker)
        ensures
            r == (BinanceBroker {  }),
    {
        BinanceBroker::new()
    }
}

/// Whether some row quotes the asset (compared by its UTF-8 name) with
/// a positive parsed quantity.
pub open spec fn has_positive_asset(s: Seq<(String, String)>, asset: Seq<u8>) -> bool {
    exists|j: int|
        0 <= j < s.len() && encode_utf8((#[trigger] s[j]).0@) == asset && spec_parse_fixed_or_zero(
            encode_utf8(s[j].1@),
        ) > 0
}

/// The balances that a list of `(asset, free)` account rows reduces to:
/// the map "asset to its last positive quantity".  A row survives
/// exactly when its quantity parses positive and no later row re-quotes
/// the asset positively, so each asset appears at most once, with the
/// value of its last positive row.
pub open spec fn spec_balances(s: Seq<(String, String)>) -> Seq<(Seq<char>, u64)>
    decreases s.len(),
{
    if s.len() == 0 {
        Seq::empty()
    } else {
        let rest = spec_balances(s.drop_first());
        let v = spec_parse_fixed_or_zero(encode_utf8(s.first().1@));
        if v > 0 && !has_positive_asset(s.drop_first(), encode_utf8(s.first().0@)) {
            seq![(s.first().0@, v)] + rest
        } else {
            rest
        }
    }
}

/// Whether any row of `rows` quotes `asset` with a positive quantity.
fn has_later_positive(rows: &Vec<(String, String)>, asset: &String) -> (b: bool)
    ensures
        b == has_positive_asset(rows@, encode_utf8(asset@)),
{
    let n = rows.len();
    let mut j: usize = 0;
    while j < n
        invariant
            0 <= j <= n == rows@.len(),
            forall|k: int|
                0 <= k < j ==> !(encode_utf8((#[trigger] rows@[k]).0@) == encode_utf8(asset@)
                    && spec_parse_fixed_or_zero(encode_utf8(rows@[k].1@)) > 0),
        decreases n - j,
    {
        let row = &rows[j];
        if bytes_eq(row.0.as_str().as_bytes(), asset.as_str().as_bytes()) {
            let v = parse_fixed_or_zero(row.1.as_str());
            if v > 0 {
                proof {
                    assert(encode_utf8(rows@[j as int].0@) == encode_utf8(asset@));
                }
                return true;
            }
        }
        j = j + 1;
    }
    false
}

/// Keeps each asset's last positive free quantity, parsed as a scaled
/// amount: the compute half of the balance call.
pub fn balance_from_entries(entries: Vec<(String, String)>) -> (r: Vec<(String, u64)>)
    ensures
        r@.map_values(|p: (String, u64)| (p.0@, p.1)) == spec_balances(entries@),
{
    let ghost orig = entries@;
    let mut rest = entries;
    let mut out: Vec<(String, u64)> = Vec::new();
    let ghost mut i: int = 0;
    proof {
        assert(orig.skip(0) =~= orig);
    }
    while rest.len() > 0
        invariant
            0 <= i <= orig.len(),
            rest@ == orig.skip(i),
            out@.map_values(|p: (String, u64)| (p.0@, p.1)) + spec_balances(orig.skip(i))
                == spec_balances(orig),
        decreases rest@.len(),
    {
        let ghost suffix = orig.skip(i);
        let pair = rest.remove(0);
        proof {
            assert(suffix[0] == orig[i]);
            assert(suffix.remove(0) =~= orig.skip(i + 1));
            assert(suffix.first() == orig[i]);
            assert(suffix.drop_first() =~= orig.skip(i + 1));
        }
        let (asset, free) = pair;
        let v = parse_fixed_or_zero(free.as_str());
        if v > 0 && !has_later_positive(&rest, &asset) {
            let ghost prev = out@;
            out.push((asset, v));
            proof {
                let f = |p: (String, u64)| (p.0@, p.1);
                assert(out@.map_values(f) =~= prev.map_values(f).push((asset@, v)));
                assert(prev.map_values(f).push((asset@, v)) =~= prev.map_values(f) + seq![
                    (asset@, v),
                ]);
                assert(spec_balances(suffix) == seq![(asset@, v)] + spec_balances(
                    orig.skip(i + 1),
                ));
                assert((prev.map_values(f) + seq![(asset@, v)]) + spec_balances(orig.skip(i + 1))
                    =~= prev.map_values(f) + (seq![(asset@, v)] + spec_balances(
                    orig.skip(i + 1),
                )));
            }
        } else {
            proof {
                assert(spec_balances(suffix) == spec_balances(orig.skip(i + 1)));
            }
        }
        proof {
            i = i + 1;
        }
    }
    proof {
        assert(orig.skip(i) =~= Seq::<(String, String)>::empty());
        assert(out@.map_values(|p: (String, u64)| (p.0@, p.1)) + spec_balances(orig.skip(i))
            =~= out@.map_values(|p: (String, u64)| (p.0@, p.1)));
    }
    out
}

/// One kline row as the history endpoint returns it: the bar's close
/// time and its five decimal strings.
#[derive(Clone, Debug)]
pub struct KlineRow {
    pub close_time: u64,
    pub open: String,
    pub high: String,
    pub low: String,
    pub close: String,
    pub volume: String,
}

/// The candle one kline row decodes to.
pub open spec fn spec_row_candle(r: KlineRow) -> Candle {
    spec_candle_from_fields(
        r.close_time,
        encode_utf8(r.open@),
        encode_utf8(r.high@),
        encode_utf8(r.low@),
        encode_utf8(r.close@),
        encode_utf8(r.volume@),
    )
}

/// The candles a batch of kline rows decodes to, in order; a row whose
/// bar breaks the candle invariant is dropped.
pub open spec fn spec_candles_from_rows(rows: Seq<KlineRow>) -> Seq<Candle>
    decreases rows.len(),
{
    if rows.len() == 0 {
        Seq::empty()
    } else {
        let rest = spec_candles_from_rows(rows.drop_last());
        let c = spec_row_candle(rows.last());
        if c.wf() {
            rest.push(c)
        } else {
            rest
        }
    }
}

/// Decodes the history endpoint's kline rows into well-formed candles:
/// the compute half of the backfill call.
pub fn candles_from_rows(rows: Vec<KlineRow>) -> (r: Vec<Candle>)
    ensures
        r@ == spec_candles_from_rows(rows@),
        all_wf(r@),
{
    let ghost orig = rows@;
    let mut rest = rows;
    let mut out: Vec<Candle> = Vec::new();
    let ghost mut i: int = 0;
    while rest.len() > 0
        invariant
            0 <= i <= orig.len(),
            rest@ == orig.skip(i),
            out@ == spec_candles_from_rows(orig.take(i)),
            all_wf(out@),
        decreases rest@.len(),
    {
        let row = rest.remove(0);
        proof {
            assert(orig.skip(i)[0] == orig[i]);
            assert(orig.skip(i).remove(0) =~= orig.skip(i + 1));
            assert(orig.take(i + 1).drop_last() =~= orig.take(i));
            assert(orig.take(i + 1).last() == orig[i]);
        }
        let c = candle_from_fields(
            row.close_time,
            row.open.as_str(),
            row.high.as_str(),
            row.low.as_str(),
            row.close.as_str(),
            row.volume.as_str(),
        );
        if c.is_wf() {
            let ghost prev = out@;
            out.push(c);
            proof {
                assert forall|j: int| 0 <= j < out@.len() implies (#[trigger] out@[j]).wf() by {
                    if j < prev.len() {
                        assert(out@[j] == prev[j]);
                    } else {
                        assert(out@[j] == c);
                    }
                }
            }
        }
        proof {
            i = i + 1;
        }
    }
    proof {
        assert(orig.take(i) =~= orig);
    }
    out
}

} // verus!
