//! Binance `depth20@100ms` feed: the connect URL and the book rule for its
//! payload.

use vstd::prelude::*;

use crate::model::{parse_levels, spec_parse_levels, Book, RawLevel};
use crate::text::{spec_to_lowercase, to_lowercase};

verus! {

/// Binance's `depth20@100ms` payload: the fields this feed reads.
pub struct Depth20 {
    pub last_update_id: u64,
    pub bids: Vec<RawLevel>,
    pub asks: Vec<RawLevel>,
}

/// Builds the connect URL for a trading pair, lowercased as the endpoint
/// requires (e.g. `"ETHBTC"` -> `.../ethbtc@depth20@100ms`).
pub fn connect_url(pair: &str) -> (url: String)
    ensures
        url@ == "wss://stream.binance.com:9443/ws/"@ + spec_to_lowercase(pair@)
            + "@depth20@100ms"@,
{
    let mut url = String::from_str("wss://stream.binance.com:9443/ws/");
    let lower = to_lowercase(pair);
    url.append(lower.as_str());
    url.append("@depth20@100ms");
    url
}

/// The book a `depth20` payload carries: `None` if any level's price or
/// amount failed to parse (a stray non-book message is a normal, expected
/// outcome, never an error).
pub fn parse(depth: &Depth20) -> (r: Option<Book>)
    ensures
        r is None <==> (spec_parse_levels(depth.bids@) is None || spec_parse_levels(
            depth.asks@,
        ) is None),
        r matches Some(b) ==> {
            &&& spec_parse_levels(depth.bids@) == Some(b.bids@)
            &&& spec_parse_levels(depth.asks@) == Some(b.asks@)
            &&& b.last_update_id == depth.last_update_id
        },
{
    let bids = match parse_levels(&depth.bids) {
        Some(b) => b,
        None => return None,
    };
    let asks = match parse_levels(&depth.asks) {
        Some(a) => a,
        None => return None,
    };
    Some(Book { bids, asks, last_update_id: depth.last_update_id })
}

} // verus!
