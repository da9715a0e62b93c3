use rust_crypto_orderbook::exchange::binance::{connect_url, parse, Depth20};
use rust_crypto_orderbook::model::{Amount, Price, RawLevel};
use serde_json::Value;

const DEPTH20_FIXTURE: &str = r#"{"lastUpdateId": 7723441, "bids": [["0.03150000", "1.00000000"], ["0.03149000", "1.25000000"], ["0.03148000", "1.50000000"], ["0.03147000", "1.75000000"], ["0.03146000", "2.00000000"], ["0.03145000", "2.25000000"], ["0.03144000", "2.50000000"], ["0.03143000", "2.75000000"], ["0.03142000", "3.00000000"], ["0.03141000", "3.25000000"], ["0.03140000", "3.50000000"], ["0.03139000", "3.75000000"], ["0.03138000", "4.00000000"], ["0.03137000", "4.25000000"], ["0.03136000", "4.50000000"], ["0.03135000", "4.75000000"], ["0.03134000", "5.00000000"], ["0.03133000", "5.25000000"], ["0.03132000", "5.50000000"], ["0.03131000", "5.75000000"]], "asks": [["0.03151000", "2.00000000"], ["0.03152000", "2.50000000"], ["0.03153000", "3.00000000"], ["0.03154000", "3.50000000"], ["0.03155000", "4.00000000"], ["0.03156000", "4.50000000"], ["0.03157000", "5.00000000"], ["0.03158000", "5.50000000"], ["0.03159000", "6.00000000"], ["0.03160000", "6.50000000"], ["0.03161000", "7.00000000"], ["0.03162000", "7.50000000"], ["0.03163000", "8.00000000"], ["0.03164000", "8.50000000"], ["0.03165000", "9.00000000"], ["0.03166000", "9.50000000"], ["0.03167000", "10.00000000"], ["0.03168000", "10.50000000"], ["0.03169000", "11.00000000"], ["0.03170000", "11.50000000"]]}"#;

fn price(s: &str) -> Price {
    Price::from_bits(s.parse::<f64>().expect("valid decimal string").to_bits())
}

fn amount(s: &str) -> Amount {
    Amount::from_bits(s.parse::<f64>().expect("valid decimal string").to_bits())
}

fn raw_levels(v: &Value) -> Option<Vec<RawLevel>> {
    v.as_array()?
        .iter()
        .map(|pair| {
            let pair = pair.as_array()?;
            Some(RawLevel {
                price: pair.first()?.as_str()?.parse::<f64>().ok().map(|f| Price::from_bits(f.to_bits())),
                amount: pair.get(1)?.as_str()?.parse::<f64>().ok().map(|f| Amount::from_bits(f.to_bits())),
            })
        })
        .collect()
}

/// The depth payload in `text`, the way the feed reads it; `None` if the
/// text is not a depth payload at all.
fn depth_of(text: &str) -> Option<Depth20> {
    let v: Value = serde_json::from_str(text).ok()?;
    Some(Depth20 {
        last_update_id: v.get("lastUpdateId")?.as_u64()?,
        bids: raw_levels(v.get("bids")?)?,
        asks: raw_levels(v.get("asks")?)?,
    })
}

fn depth(text: &str) -> Depth20 {
    depth_of(text).expect("a depth payload")
}

/// A raw websocket text message, parsed as the feed does.
fn parse_text(text: &str) -> Option<rust_crypto_orderbook::model::Book> {
    depth_of(text).and_then(|d| parse(&d))
}

#[test]
fn parses_depth20_into_twenty_bids_and_twenty_asks_with_correct_values() {
    let book = parse(&depth(DEPTH20_FIXTURE)).expect("valid depth20 payload");

    assert_eq!(book.bids.len(), 20);
    assert_eq!(book.asks.len(), 20);
    assert_eq!(book.last_update_id, 7_723_441);

    let (best_bid_price, best_bid_amount) = book.bids[0];
    assert_eq!(best_bid_price, price("0.03150000"));
    assert_eq!(best_bid_amount, amount("1.00000000"));

    let (best_ask_price, best_ask_amount) = book.asks[0];
    assert_eq!(best_ask_price, price("0.03151000"));
    assert_eq!(best_ask_amount, amount("2.00000000"));

    let (last_bid_price, last_bid_amount) = book.bids[19];
    assert_eq!(last_bid_price, price("0.03131000"));
    assert_eq!(last_bid_amount, amount("5.75000000"));

    let (last_ask_price, last_ask_amount) = book.asks[19];
    assert_eq!(last_ask_price, price("0.03170000"));
    assert_eq!(last_ask_amount, amount("11.50000000"));
}

#[test]
fn connect_url_lowercases_the_pair() {
    assert_eq!(
        connect_url("ETHBTC"),
        "wss://stream.binance.com:9443/ws/ethbtc@depth20@100ms"
    );
}

#[test]
fn an_unparseable_amount_rejects_the_depth_payload() {
    let mut d = depth(DEPTH20_FIXTURE);
    d.asks[7].amount = None;
    assert!(parse(&d).is_none());
}

#[test]
fn server_shutdown_message_parses_to_none_without_panicking() {
    assert!(parse_text(r#"{"e":"serverShutdown","E":1234567890}"#).is_none());
}

#[test]
fn binance_malformed_json_parses_to_none_without_panicking() {
    assert!(parse_text("not valid json {{{").is_none());
}
