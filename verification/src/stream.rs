//! Reconnect backoff and frame policy for the streaming adapters.
//!
//! The producer loop that owns the socket lives outside the library; it
//! performs the connects, reads and sleeps.  Every decision it takes is
//! a function here: what to do with each incoming frame, and how long to
//! wait before reconnecting.  The protocol is: connect; on a successful
//! handshake reset the backoff to one second; read frames — text parses
//! and publishes, ping is answered with a pong, close or error breaks;
//! after any break, sleep the current backoff, then double it capped at
//! sixty seconds, and reconnect.

use vstd::prelude::*;
use vstd::utf8::encode_utf8;

use crate::timeseries::Candle;
use crate::wire::{
    all_levels_bounded, parse_kline, parse_order_book, spec_parse_kline, spec_parse_order_book,
    OrderBook,
};

verus! {

/// Exponential reconnect delay: one second after a successful connect,
/// doubling on each disconnect, capped at sixty seconds.
pub struct Backoff {
    secs: u64,
}

impl Backoff {
    /// The delay, in seconds, that the next disconnect will sleep.
    pub closed spec fn spec_secs(&self) -> u64 {
        self.secs
    }

    pub closed spec fn wf(&self) -> bool {
        1 <= self.secs <= 60
    }

    /// A fresh backoff: one second.
    pub fn new() -> (r: Backoff)
        ensures
            r.wf(),
            r.spec_secs() == 1,
    {
        Backoff { secs: 1 }
    }

    /// A successful handshake resets the delay to one second.
    pub fn on_connect(&mut self)
        ensures
            final(self).wf(),
            final(self).spec_secs() == 1,
    {
        self.secs = 1;
    }

    /// A failure or clean break: sleep the returned number of seconds,
    /// after which the delay has doubled, capped at sixty seconds.
    pub fn on_disconnect(&mut self) -> (sleep_secs: u64)
        requires
            old(self).wf(),
        ensures
            final(self).wf(),
            sleep_secs == old(self).spec_secs(),
            final(self).spec_secs() == if 2 * old(self).spec_secs() <= 60 {
                (2 * old(self).spec_secs()) as u64
            } else {
                60u64
            },
    {
        let s = self.secs;
        let doubled = s * 2;
        self.secs = if doubled <= 60 {
            doubled
        } else {
            60
        };
        s
    }
}

/// One incoming websocket frame, as the socket hands it over.
pub enum WsFrame {
    Text(String),
    Binary(Vec<u8>),
    Ping(Vec<u8>),
    Pong(Vec<u8>),
    Close,
    Error,
}

/// What the kline stream's consumer does with a frame.
pub enum KlineFrameAction {
    /// Send this bar to the subscribers.
    Publish(Candle),
    /// Answer the ping with this payload.
    ReplyPong(Vec<u8>),
    /// Drop the frame and read on.
    Ignore,
    /// Leave the read loop and reconnect after the backoff.
    Break,
}

/// The kline stream's frame policy: a text frame publishes exactly the
/// candle it decodes to and is dropped when it decodes to nothing,
/// pings are answered, close and error break the read loop, anything
/// else is dropped.
pub fn handle_kline_frame(f: WsFrame) -> (a: KlineFrameAction)
    ensures
        f matches WsFrame::Ping(p) ==> a == KlineFrameAction::ReplyPong(p),
        f matches WsFrame::Close ==> a == KlineFrameAction::Break,
        f matches WsFrame::Error ==> a == KlineFrameAction::Break,
        f matches WsFrame::Binary(_) ==> a == KlineFrameAction::Ignore,
        f matches WsFrame::Pong(_) ==> a == KlineFrameAction::Ignore,
        f matches WsFrame::Text(t) ==> a == (match spec_parse_kline(encode_utf8(t@)) {
            Some(c) => KlineFrameAction::Publish(c),
            None => KlineFrameAction::Ignore,
        }),
        f matches WsFrame::Text(_) ==> (a matches KlineFrameAction::Publish(c) ==> c.wf()),
{
    match f {
        WsFrame::Text(t) => match parse_kline(t.as_str()) {
            Some(c) => KlineFrameAction::Publish(c),
            None => KlineFrameAction::Ignore,
        },
        WsFrame::Binary(_) => KlineFrameAction::Ignore,
        WsFrame::Ping(p) => KlineFrameAction::ReplyPong(p),
        WsFrame::Pong(_) => KlineFrameAction::Ignore,
        WsFrame::Close => KlineFrameAction::Break,
        WsFrame::Error => KlineFrameAction::Break,
    }
}

/// What the depth stream's consumer does with a frame.
pub enum DepthFrameAction {
    /// Send this book update to the subscribers.
    Publish(OrderBook),
    /// Answer the ping with this payload.
    ReplyPong(Vec<u8>),
    /// Drop the frame and read on.
    Ignore,
    /// Leave the read loop and reconnect after the backoff.
    Break,
}

/// The depth stream's frame policy; the shape of
/// [`handle_kline_frame`], over depth updates: a text frame publishes
/// exactly the book it decodes to and is dropped when it decodes to
/// nothing.
pub fn handle_depth_frame(f: WsFrame) -> (a: DepthFrameAction)
    ensures
        f matches WsFrame::Ping(p) ==> a == DepthFrameAction::ReplyPong(p),
        f matches WsFrame::Close ==> a == DepthFrameAction::Break,
        f matches WsFrame::Error ==> a == DepthFrameAction::Break,
        f matches WsFrame::Binary(_) ==> a == DepthFrameAction::Ignore,
        f matches WsFrame::Pong(_) ==> a == DepthFrameAction::Ignore,
        f matches WsFrame::Text(t) ==> (match spec_parse_order_book(encode_utf8(t@)) {
            Some(bv) => a matches DepthFrameAction::Publish(b) && b@ == bv,
            None => a == DepthFrameAction::Ignore,
        }),
        f matches WsFrame::Text(_) ==> (a matches DepthFrameAction::Publish(b) ==> (
        all_levels_bounded(b.bids@) && all_levels_bounded(b.asks@))),
{
    match f {
        WsFrame::Text(t) => match parse_order_book(t.as_str()) {
            Some(b) => DepthFrameAction::Publish(b),
            None => DepthFrameAction::Ignore,
        },
        WsFrame::Binary(_) => DepthFrameAction::Ignore,
        WsFrame::Ping(p) => DepthFrameAction::ReplyPong(p),
        WsFrame::Pong(_) => DepthFrameAction::Ignore,
        WsFrame::Close => DepthFrameAction::Break,
        WsFrame::Error => DepthFrameAction::Break,
    }
}

} // verus!
