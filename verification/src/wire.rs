//! Wire-format decoding for the exchange's streaming frames.
//!
//! A kline frame arrives as JSON text holding a `k` object, either at
//! the top level or wrapped in a `data` envelope; a depth frame is a
//! `depthUpdate` event whose `b` and `a` members are arrays of
//! `[price, qty]` string pairs.  serde_json parses the text behind the
//! trusted items below; the parse result is a function of the text
//! alone, so it carries the name [`json_of`], and everything after the
//! parse — envelope navigation, field extraction, decimal reading,
//! validation — is verified code with exact contracts.  A frame that
//! fails any of it is dropped rather than crashing the producer.

use vstd::prelude::*;
use vstd::string::StringSliceAdditionalSpecFns;
use vstd::utf8::encode_utf8;

use crate::fixed::{parse_fixed_or_zero, spec_parse_fixed_or_zero, PRICE_MAX};
use crate::timeseries::Candle;

verus! {

#[verifier::external_type_specification]
#[verifier::external_body]
pub struct ExValue(serde_json::Value);

/// A parsed JSON document as the library sees it: a plain value tree,
/// with numbers read as `u64` where they are unsigned integers in
/// range and left opaque otherwise, and objects as their entries in
/// order.
#[derive(Debug)]
pub enum JsonVal {
    Null,
    Bool(bool),
    UInt(u64),
    OtherNum,
    Str(String),
    Arr(Vec<JsonVal>),
    Obj(Vec<(String, JsonVal)>),
}

/// The JSON tree that a byte sequence parses to, or `None` when it is
/// not a valid JSON document.  The parse depends on the text alone;
/// [`json_parse`] returns exactly this.
pub uninterp spec fn json_of(s: Seq<u8>) -> Option<JsonVal>;

/// Relies on serde_json::from_str::<Value>: parses a JSON document or
/// fails; the result is a function of the text alone, named by
/// [`json_of`].
#[verifier::external_body]
fn json_parse(text: &str) -> (r: Option<JsonVal>)
    ensures
        r == json_of(text.spec_bytes()),
{
    match serde_json::from_str::<serde_json::Value>(text) {
        Ok(v) => Some(json_val_of(v)),
        Err(_) => None,
    }
}

/// Relies on serde_json::Value: maps each variant one-for-one onto the
/// library's JSON tree, reading numbers through Number::as_u64.
#[verifier::external_body]
fn json_val_of(v: serde_json::Value) -> JsonVal {
    match v {
        serde_json::Value::Null => JsonVal::Null,
        serde_json::Value::Bool(b) => JsonVal::Bool(b),
        serde_json::Value::Number(n) => match n.as_u64() {
            Some(u) => JsonVal::UInt(u),
            None => JsonVal::OtherNum,
        },
        serde_json::Value::String(s) => JsonVal::Str(s),
        serde_json::Value::Array(a) => JsonVal::Arr(a.into_iter().map(json_val_of).collect()),
        serde_json::Value::Object(m) => JsonVal::Obj(
            m.into_iter().map(|(k, inner)| (k, json_val_of(inner))).collect(),
        ),
    }
}

/// Whether two byte slices hold the same bytes.
pub fn bytes_eq(a: &[u8], b: &[u8]) -> (r: bool)
    ensures
        r == (a@ == b@),
{
    let n = a.len();
    if n != b.len() {
        proof {
            if a@ == b@ {
                assert(a@.len() == b@.len());
            }
        }
        return false;
    }
    let mut i: usize = 0;
    while i < n
        invariant
            0 <= i <= n,
            n == a@.len() == b@.len(),
            forall|j: int| 0 <= j < i ==> a@[j] == b@[j],
        decreases n - i,
    {
        if a[i] != b[i] {
            proof {
                if a@ == b@ {
                    assert(a@[i as int] == b@[i as int]);
                }
            }
            return false;
        }
        i = i + 1;
    }
    proof {
        assert(a@ =~= b@);
    }
    true
}

/// First value among object entries under the key with the given UTF-8
/// bytes.
pub open spec fn spec_entries_get(es: Seq<(String, JsonVal)>, key: Seq<u8>) -> Option<JsonVal>
    decreases es.len(),
{
    if es.len() == 0 {
        None
    } else if encode_utf8(es.first().0@) == key {
        Some(es.first().1)
    } else {
        spec_entries_get(es.drop_first(), key)
    }
}

/// Member of a JSON object under a key; `None` when the value is not an
/// object or has no such member.
pub open spec fn spec_obj_get(v: JsonVal, key: Seq<u8>) -> Option<JsonVal> {
    match v {
        JsonVal::Obj(entries) => spec_entries_get(entries@, key),
        _ => None,
    }
}

/// Looks a key up among an object's entries.
fn obj_get<'a>(v: &'a JsonVal, key: &str) -> (r: Option<&'a JsonVal>)
    ensures
        match r {
            Some(x) => spec_obj_get(*v, key.spec_bytes()) == Some(*x),
            None => spec_obj_get(*v, key.spec_bytes()) is None,
        },
{
    match v {
        JsonVal::Obj(entries) => {
            let n = entries.len();
            let mut i: usize = 0;
            proof {
                assert(entries@.skip(0) =~= entries@);
            }
            while i < n
                invariant
                    0 <= i <= n == entries@.len(),
                    spec_obj_get(*v, key.spec_bytes()) == spec_entries_get(
                        entries@,
                        key.spec_bytes(),
                    ),
                    spec_entries_get(entries@, key.spec_bytes()) == spec_entries_get(
                        entries@.skip(i as int),
                        key.spec_bytes(),
                    ),
                decreases n - i,
            {
                proof {
                    assert(entries@.skip(i as int).first() == entries@[i as int]);
                    assert(entries@.skip(i as int).drop_first() =~= entries@.skip(i + 1));
                }
                let e = &entries[i];
                if bytes_eq(e.0.as_str().as_bytes(), key.as_bytes()) {
                    let res = &e.1;
                    proof {
                        assert(encode_utf8(entries@[i as int].0@) == key.spec_bytes());
                        assert(spec_entries_get(entries@.skip(i as int), key.spec_bytes())
                            == Some(entries@[i as int].1));
                        assert(*res == entries@[i as int].1);
                        assert(spec_obj_get(*v, key.spec_bytes()) == Some(entries@[i as int].1));
                    }
                    return Some(res);
                }
                i = i + 1;
            }
            proof {
                assert(entries@.skip(n as int) =~= Seq::<(String, JsonVal)>::empty());
            }
            None
        },
        _ => None,
    }
}

/// The candle that a kline frame's fields decode to: each price string
/// read as a scaled value, with `0` for a malformed or oversized field,
/// keyed by the frame's close time.
pub open spec fn spec_candle_from_fields(
    close_time: u64,
    o: Seq<u8>,
    h: Seq<u8>,
    l: Seq<u8>,
    c: Seq<u8>,
    v: Seq<u8>,
) -> Candle {
    Candle {
        open: spec_parse_fixed_or_zero(o),
        high: spec_parse_fixed_or_zero(h),
        low: spec_parse_fixed_or_zero(l),
        close: spec_parse_fixed_or_zero(c),
        volume: spec_parse_fixed_or_zero(v),
        timestamp: close_time,
    }
}

/// Builds a candle from decoded kline fields.
pub fn candle_from_fields(
    close_time: u64,
    open: &str,
    high: &str,
    low: &str,
    close: &str,
    volume: &str,
) -> (c: Candle)
    ensures
        c == spec_candle_from_fields(
            close_time,
            open.spec_bytes(),
            high.spec_bytes(),
            low.spec_bytes(),
            close.spec_bytes(),
            volume.spec_bytes(),
        ),
{
    Candle {
        open: parse_fixed_or_zero(open),
        high: parse_fixed_or_zero(high),
        low: parse_fixed_or_zero(low),
        close: parse_fixed_or_zero(close),
        volume: parse_fixed_or_zero(volume),
        timestamp: close_time,
    }
}

/// The candle the fields of a `k` object decode to: `T` must be an
/// unsigned integer, the five price fields strings, and the decoded bar
/// must meet the candle invariant; any failure drops the frame.
pub open spec fn spec_kline_fields(k: JsonVal) -> Option<Candle> {
    match (
        spec_obj_get(k, encode_utf8("T"@)),
        spec_obj_get(k, encode_utf8("o"@)),
        spec_obj_get(k, encode_utf8("h"@)),
        spec_obj_get(k, encode_utf8("l"@)),
        spec_obj_get(k, encode_utf8("c"@)),
        spec_obj_get(k, encode_utf8("v"@)),
    ) {
        (
            Some(JsonVal::UInt(t)),
            Some(JsonVal::Str(o)),
            Some(JsonVal::Str(h)),
            Some(JsonVal::Str(l)),
            Some(JsonVal::Str(c)),
            Some(JsonVal::Str(v)),
        ) => {
            let cand = spec_candle_from_fields(
                t,
                encode_utf8(o@),
                encode_utf8(h@),
                encode_utf8(l@),
                encode_utf8(c@),
                encode_utf8(v@),
            );
            if cand.wf() {
                Some(cand)
            } else {
                None
            }
        },
        _ => None,
    }
}

/// The candle that a kline text frame decodes to: the `k` object sits
/// at the top level, or under `data` when `data` is present and not
/// null; see [`spec_kline_fields`] for the field reading.
pub open spec fn spec_parse_kline(s: Seq<u8>) -> Option<Candle> {
    match json_of(s) {
        None => None,
        Some(doc) => {
            let owner = match spec_obj_get(doc, encode_utf8("data"@)) {
                Some(JsonVal::Null) => doc,
                Some(d) => d,
                None => doc,
            };
            match spec_obj_get(owner, encode_utf8("k"@)) {
                None => None,
                Some(k) => spec_kline_fields(k),
            }
        },
    }
}

/// Decodes one kline text frame, returning exactly
/// [`spec_parse_kline`] of the text; every returned candle is well
/// formed, and a frame that does not parse or decode is dropped.
pub fn parse_kline(text: &str) -> (r: Option<Candle>)
    ensures
        r == spec_parse_kline(text.spec_bytes()),
        r matches Some(c) ==> c.wf(),
{
    let doc = match json_parse(text) {
        Some(d) => d,
        None => {
            return None;
        },
    };
    let owner = match obj_get(&doc, "data") {
        Some(d) => match d {
            JsonVal::Null => &doc,
            _ => d,
        },
        None => &doc,
    };
    let k = match obj_get(owner, "k") {
        Some(k) => k,
        None => {
            return None;
        },
    };
    let t: u64 = match obj_get(k, "T") {
        Some(JsonVal::UInt(t)) => *t,
        _ => {
            return None;
        },
    };
    let o = match obj_get(k, "o") {
        Some(JsonVal::Str(s)) => s,
        _ => {
            return None;
        },
    };
    let h = match obj_get(k, "h") {
        Some(JsonVal::Str(s)) => s,
        _ => {
            return None;
        },
    };
    let l = match obj_get(k, "l") {
        Some(JsonVal::Str(s)) => s,
        _ => {
            return None;
        },
    };
    let c = match obj_get(k, "c") {
        Some(JsonVal::Str(s)) => s,
        _ => {
            return None;
        },
    };
    let v = match obj_get(k, "v") {
        Some(JsonVal::Str(s)) => s,
        _ => {
            return None;
        },
    };
    let cand = candle_from_fields(t, o.as_str(), h.as_str(), l.as_str(), c.as_str(), v.as_str());
    if cand.is_wf() {
        Some(cand)
    } else {
        None
    }
}

/// One price level of a depth update: scaled price and quantity.
#[derive(Clone, Copy, Debug)]
pub struct BookLevel {
    pub price: u64,
    pub qty: u64,
}

impl BookLevel {
    pub open spec fn bounded(self) -> bool {
        self.price <= PRICE_MAX && self.qty <= PRICE_MAX
    }
}

/// A depth snapshot or update: bid and ask levels under a final update
/// id.
#[derive(Clone, Debug)]
pub struct OrderBook {
    pub last_update_id: u64,
    pub bids: Vec<BookLevel>,
    pub asks: Vec<BookLevel>,
}

/// Specification view of an [`OrderBook`].
pub struct OrderBookView {
    pub last_update_id: u64,
    pub bids: Seq<BookLevel>,
    pub asks: Seq<BookLevel>,
}

impl View for OrderBook {
    type V = OrderBookView;

    open spec fn view(&self) -> OrderBookView {
        OrderBookView { last_update_id: self.last_update_id, bids: self.bids@, asks: self.asks@ }
    }
}

pub open spec fn all_levels_bounded(s: Seq<BookLevel>) -> bool {
    forall|i: int| 0 <= i < s.len() ==> (#[trigger] s[i]).bounded()
}

/// Every element of the sequence is a JSON string.
pub open spec fn all_strings(s: Seq<JsonVal>) -> bool {
    forall|i: int| 0 <= i < s.len() ==> (#[trigger] s[i]) is Str
}

/// What one `[price, qty]` entry adds to a side: an entry that is not
/// an array of strings drops the whole frame; an entry shorter than a
/// pair is skipped; otherwise its first two strings parse to a level.
pub open spec fn spec_level_entry(pair: Seq<JsonVal>, rest: Seq<BookLevel>) -> Option<
    Seq<BookLevel>,
> {
    if !all_strings(pair) {
        None
    } else if pair.len() < 2 {
        Some(rest)
    } else {
        match (pair[0], pair[1]) {
            (JsonVal::Str(p), JsonVal::Str(q)) => Some(
                rest.push(
                    BookLevel {
                        price: spec_parse_fixed_or_zero(encode_utf8(p@)),
                        qty: spec_parse_fixed_or_zero(encode_utf8(q@)),
                    },
                ),
            ),
            _ => None,
        }
    }
}

/// The levels one side of a depth update decodes to, or `None` when
/// some entry is not an array of strings (the frame is then dropped).
pub open spec fn spec_levels(es: Seq<JsonVal>) -> Option<Seq<BookLevel>>
    decreases es.len(),
{
    if es.len() == 0 {
        Some(Seq::empty())
    } else {
        match spec_levels(es.drop_last()) {
            None => None,
            Some(rest) => match es.last() {
                JsonVal::Arr(pair) => spec_level_entry(pair@, rest),
                _ => None,
            },
        }
    }
}

/// A side whose prefix fails to decode fails as a whole.
proof fn lemma_levels_none_prefix(s: Seq<JsonVal>, i: int)
    requires
        0 <= i <= s.len(),
        spec_levels(s.take(i)) is None,
    ensures
        spec_levels(s) is None,
    decreases s.len() - i,
{
    if i == s.len() {
        assert(s.take(i) =~= s);
    } else {
        assert(s.take(i + 1).drop_last() =~= s.take(i));
        lemma_levels_none_prefix(s, i + 1);
    }
}

/// Reads the `[price, qty]` string pairs of one side of a depth
/// update.
fn parse_levels(arr: &Vec<JsonVal>) -> (r: Option<Vec<BookLevel>>)
    ensures
        match r {
            Some(levels) => spec_levels(arr@) == Some(levels@) && all_levels_bounded(levels@),
            None => spec_levels(arr@) is None,
        },
{
    let n = arr.len();
    let mut out: Vec<BookLevel> = Vec::new();
    let mut i: usize = 0;
    while i < n
        invariant
            0 <= i <= n == arr@.len(),
            spec_levels(arr@.take(i as int)) == Some(out@),
            all_levels_bounded(out@),
        decreases n - i,
    {
        proof {
            assert(arr@.take(i + 1).drop_last() =~= arr@.take(i as int));
            assert(arr@.take(i + 1).last() == arr@[i as int]);
        }
        match &arr[i] {
            JsonVal::Arr(pair) => {
                proof {
                    assert(arr@[i as int] == JsonVal::Arr(*pair));
                }
                // Every element of the entry must be a string.
                let m = pair.len();
                let mut j: usize = 0;
                while j < m
                    invariant
                        0 <= j <= m == pair@.len(),
                        0 <= i < arr@.len(),
                        arr@[i as int] == JsonVal::Arr(*pair),
                        spec_levels(arr@.take(i as int)) == Some(out@),
                        forall|k: int| 0 <= k < j ==> (#[trigger] pair@[k]) is Str,
                    decreases m - j,
                {
                    match &pair[j] {
                        JsonVal::Str(_) => {},
                        _ => {
                            proof {
                                assert(!all_strings(pair@));
                                assert(arr@.take(i + 1).drop_last() =~= arr@.take(i as int));
                                assert(arr@.take(i + 1).last() == arr@[i as int]);
                                assert(spec_levels(arr@.take(i + 1)) is None);
                                lemma_levels_none_prefix(arr@, i + 1);
                            }
                            return None;
                        },
                    }
                    j = j + 1;
                }
                proof {
                    assert(all_strings(pair@));
                }
                if pair.len() >= 2 {
                    let p = match &pair[0] {
                        JsonVal::Str(s) => s,
                        _ => {
                            proof {
                                assert(pair@[0] is Str);
                                assert(false);
                            }
                            return None;
                        },
                    };
                    let q = match &pair[1] {
                        JsonVal::Str(s) => s,
                        _ => {
                            proof {
                                assert(pair@[1] is Str);
                                assert(false);
                            }
                            return None;
                        },
                    };
                    let level = BookLevel {
                        price: parse_fixed_or_zero(p.as_str()),
                        qty: parse_fixed_or_zero(q.as_str()),
                    };
                    let ghost prev = out@;
                    out.push(level);
                    proof {
                        assert(level.bounded());
                        assert forall|k: int|
                            0 <= k < out@.len() implies (#[trigger] out@[k]).bounded() by {
                            if k < prev.len() {
                                assert(out@[k] == prev[k]);
                            } else {
                                assert(out@[k] == level);
                            }
                        }
                    }
                }
            },
            _ => {
                proof {
                    assert(spec_levels(arr@.take(i + 1)) is None);
                    lemma_levels_none_prefix(arr@, i + 1);
                }
                return None;
            },
        }
        i = i + 1;
    }
    proof {
        assert(arr@.take(n as int) =~= arr@);
    }
    Some(out)
}

/// The book that a depth text frame decodes to.  The event tag `e`
/// must read `depthUpdate`; `u` gives the final update id (`0` when
/// absent or null, frame dropped when present with another shape);
/// `b` and `a` decode per [`spec_levels`], with an absent or null side
/// empty.
pub open spec fn spec_parse_order_book(s: Seq<u8>) -> Option<OrderBookView> {
    match json_of(s) {
        None => None,
        Some(doc) => match spec_obj_get(doc, encode_utf8("e"@)) {
            Some(JsonVal::Str(e)) => if encode_utf8(e@) == encode_utf8("depthUpdate"@) {
                let u = match spec_obj_get(doc, encode_utf8("u"@)) {
                    None => Some(0u64),
                    Some(JsonVal::Null) => Some(0u64),
                    Some(JsonVal::UInt(x)) => Some(x),
                    Some(_) => None,
                };
                let bids = match spec_obj_get(doc, encode_utf8("b"@)) {
                    None => Some(Seq::<BookLevel>::empty()),
                    Some(JsonVal::Null) => Some(Seq::<BookLevel>::empty()),
                    Some(JsonVal::Arr(es)) => spec_levels(es@),
                    Some(_) => None,
                };
                let asks = match spec_obj_get(doc, encode_utf8("a"@)) {
                    None => Some(Seq::<BookLevel>::empty()),
                    Some(JsonVal::Null) => Some(Seq::<BookLevel>::empty()),
                    Some(JsonVal::Arr(es)) => spec_levels(es@),
                    Some(_) => None,
                };
                match (u, bids, asks) {
                    (Some(u), Some(bids), Some(asks)) => Some(
                        OrderBookView { last_update_id: u, bids, asks },
                    ),
                    _ => None,
                }
            } else {
                None
            },
            _ => None,
        },
    }
}

/// Decodes one depth text frame, returning exactly
/// [`spec_parse_order_book`] of the text; every returned level is
/// bounded, and a frame that does not parse or decode is dropped.
pub fn parse_order_book(text: &str) -> (r: Option<OrderBook>)
    ensures
        match r {
            Some(book) => spec_parse_order_book(text.spec_bytes()) == Some(book@),
            None => spec_parse_order_book(text.spec_bytes()) is None,
        },
        r matches Some(book) ==> all_levels_bounded(book.bids@) && all_levels_bounded(
            book.asks@,
        ),
{
    let doc = match json_parse(text) {
        Some(d) => d,
        None => {
            return None;
        },
    };
    let event = match obj_get(&doc, "e") {
        Some(JsonVal::Str(s)) => s,
        _ => {
            return None;
        },
    };
    if !bytes_eq(event.as_str().as_bytes(), "depthUpdate".as_bytes()) {
        return None;
    }
    let last_update_id: u64 = match obj_get(&doc, "u") {
        None => 0,
        Some(JsonVal::Null) => 0,
        Some(JsonVal::UInt(x)) => *x,
        Some(_) => {
            return None;
        },
    };
    let bids: Vec<BookLevel> = match obj_get(&doc, "b") {
        None => Vec::new(),
        Some(JsonVal::Null) => Vec::new(),
        Some(JsonVal::Arr(es)) => match parse_levels(es) {
            Some(levels) => levels,
            None => {
                return None;
            },
        },
        Some(_) => {
            return None;
        },
    };
    let asks: Vec<BookLevel> = match obj_get(&doc, "a") {
        None => Vec::new(),
        Some(JsonVal::Null) => Vec::new(),
        Some(JsonVal::Arr(es)) => match parse_levels(es) {
            Some(levels) => levels,
            None => {
                return None;
            },
        },
        Some(_) => {
            return None;
        },
    };
    let book = OrderBook { last_update_id, bids, asks };
    proof {
        assert(all_levels_bounded(Seq::<BookLevel>::empty()));
    }
    Some(book)
}

} // verus!
