//! Bitstamp `order_book_<pair>` feed: connect URL, the explicit subscribe
//! message, and the book rule over its `{"event", "data"}` envelope.

use vstd::prelude::*;

use crate::exchange::Venue;
use crate::model::{parse_levels, spec_parse_levels, Book, RawLevel};
use crate::text::{spec_to_lowercase, str_chars, to_lowercase};

verus! {

/// Bitstamp's venue marker.
pub struct Bitstamp;

/// The book payload inside a `"data"` event.
pub struct Data {
    pub bids: Vec<RawLevel>,
    pub asks: Vec<RawLevel>,
}

/// Bitstamp's message envelope: the event name, and its book payload if it
/// carries one. Only the `"data"` event carries a book; the rest are
/// lifecycle/control messages.
pub struct Envelope {
    pub event: String,
    pub data: Option<Data>,
}

impl Bitstamp {
    /// Which venue this is.
    pub fn venue(&self) -> (v: Venue)
        ensures
            v == Venue::Bitstamp,
    {
        Venue::Bitstamp
    }

    /// Bitstamp's endpoint has nothing pair-specific in the path.
    pub fn connect_url(&self, _pair: &str) -> (url: String)
        ensures
            url@ == "wss://ws.bitstamp.net"@,
    {
        String::from_str("wss://ws.bitstamp.net")
    }

    /// The per-connection subscribe message for `pair`'s order book channel.
    pub fn subscribe_message(&self, pair: &str) -> (msg: Option<String>)
        ensures
            msg matches Some(m) && m@ == "{\"event\":\"bts:subscribe\",\"data\":{\"channel\":\"order_book_"@
                + spec_to_lowercase(pair@) + "\"}}"@,
    {
        let mut m = String::from_str("{\"event\":\"bts:subscribe\",\"data\":{\"channel\":\"order_book_");
        let lower = to_lowercase(pair);
        m.append(lower.as_str());
        m.append("\"}}");
        Some(m)
    }
}

/// A message carries a book: a `"data"` event with a payload whose every
/// level parses.
pub open spec fn spec_bitstamp_book(envelope: Envelope) -> bool {
    &&& envelope.event@ == "data"@
    &&& envelope.data is Some
    &&& spec_parse_levels(envelope.data->0.bids@) is Some
    &&& spec_parse_levels(envelope.data->0.asks@) is Some
}

impl Bitstamp {
    /// The book a message carries: only a `"data"` event with a payload
    /// whose every level parses. Bitstamp has no update sequence number, so
    /// the book's is 0.
    pub fn parse(&self, envelope: &Envelope) -> (r: Option<Book>)
        ensures
            r is Some <==> spec_bitstamp_book(*envelope),
            r matches Some(b) ==> {
                &&& spec_parse_levels(envelope.data->0.bids@) == Some(b.bids@)
                &&& spec_parse_levels(envelope.data->0.asks@) == Some(b.asks@)
                &&& b.last_update_id == 0
            },
    {
        if !is_data_event(envelope.event.as_str()) {
            return None;
        }
        let data = match &envelope.data {
            Some(d) => d,
            None => return None,
        };
        let bids = match parse_levels(&data.bids) {
            Some(b) => b,
            None => return None,
        };
        let asks = match parse_levels(&data.asks) {
            Some(a) => a,
            None => return None,
        };
        Some(Book { bids, asks, last_update_id: 0 })
    }
}

/// Whether an event name is `"data"`.
fn is_data_event(event: &str) -> (r: bool)
    ensures
        r == (event@ == "data"@),
{
    let cs = str_chars(event);
    proof {
        reveal_strlit("data");
    }
    let r = cs.len() == 4 && cs[0] == 'd' && cs[1] == 'a' && cs[2] == 't' && cs[3] == 'a';
    proof {
        if r {
            assert(cs@ =~= "data"@);
        }
    }
    r
}

} // verus!
