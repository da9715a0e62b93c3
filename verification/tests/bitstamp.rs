use rust_crypto_orderbook::exchange::bitstamp::{Bitstamp, Data, Envelope};
use rust_crypto_orderbook::exchange::Venue;
use rust_crypto_orderbook::model::{Amount, Price, RawLevel};
use serde_json::Value;

const DATA_FIXTURE: &str = r#"{"data":{"timestamp":"1787511693","microtimestamp":"1787511693313188","bids":[["0.03163789","3.42951262"],["0.03163505","0.61258313"],["0.03162919","1.02115457"],["0.03162384","0.04990000"],["0.03162273","0.34284793"]],"asks":[["0.03164587","0.61236387"],["0.03164684","3.42951262"],["0.03165086","1.02045379"],["0.03166236","0.04990000"],["0.03166726","2.04002053"]]},"channel":"order_book_ethbtc","event":"data"}"#;

fn price(s: &str) -> Price {
    Price::from_bits(s.parse::<f64>().expect("valid decimal string").to_bits())
}

fn amount(s: &str) -> Amount {
    Amount::from_bits(s.parse::<f64>().expect("valid decimal string").to_bits())
}

fn raw_levels(v: &Value) -> Option<Vec<RawLevel>> {
    v.as_array()?
        .iter()
        .map(|pair| {
            let pair = pair.as_array()?;
            Some(RawLevel {
                price: pair[0].as_str()?.parse::<f64>().ok().map(|f| Price::from_bits(f.to_bits())),
                amount: pair[1].as_str()?.parse::<f64>().ok().map(|f| Amount::from_bits(f.to_bits())),
            })
        })
        .collect()
}

/// The envelope of a message, the way the feed reads it; `None` if the
/// text is not an envelope at all.
fn envelope(text: &str) -> Option<Envelope> {
    let v: Value = serde_json::from_str(text).ok()?;
    let event = v.get("event")?.as_str()?.to_string();
    let data = match v.get("data") {
        None | Some(Value::Null) => None,
        Some(d) => Some(Data { bids: raw_levels(d.get("bids")?)?, asks: raw_levels(d.get("asks")?)? }),
    };
    Some(Envelope { event, data })
}

fn parse(text: &str) -> Option<rust_crypto_orderbook::model::Book> {
    envelope(text).and_then(|e| Bitstamp.parse(&e))
}

#[test]
fn bitstamp_data_message_parses_to_the_right_levels_and_prices() {
    let book = parse(DATA_FIXTURE).expect("valid data payload");

    assert_eq!(book.bids.len(), 5);
    assert_eq!(book.asks.len(), 5);

    let (best_bid_price, best_bid_amount) = book.bids[0];
    assert_eq!(best_bid_price, price("0.03163789"));
    assert_eq!(best_bid_amount, amount("3.42951262"));

    let (best_ask_price, best_ask_amount) = book.asks[0];
    assert_eq!(best_ask_price, price("0.03164587"));
    assert_eq!(best_ask_amount, amount("0.61236387"));
}

#[test]
fn bts_subscription_succeeded_parses_to_none_without_panicking() {
    assert!(parse(r#"{"event":"bts:subscription_succeeded","channel":"order_book_ethbtc","data":{}}"#).is_none());
}

#[test]
fn bts_request_reconnect_parses_to_none_without_panicking() {
    assert!(parse(r#"{"event":"bts:request_reconnect","channel":"","data":{}}"#).is_none());
}

#[test]
fn bts_error_parses_to_none_without_panicking() {
    assert!(parse(r#"{"event":"bts:error","channel":"","data":{"code":null,"message":"bad subscription"}}"#).is_none());
}

#[test]
fn bitstamp_malformed_json_parses_to_none_without_panicking() {
    assert!(parse("not valid json {{{").is_none());
}

#[test]
fn bitstamp_subscribe_message_contains_the_configured_pairs_channel_name() {
    let msg = Bitstamp
        .subscribe_message("ethbtc")
        .expect("bitstamp subscribes");
    assert!(msg.contains("order_book_ethbtc"));
}

#[test]
fn one_malformed_bid_level_rejects_the_whole_message() {
    let raw = r#"{"data":{"timestamp":"1","microtimestamp":"1","bids":[["0.03163789","3.42951262"],["not_a_number","1.00000000"]],"asks":[["0.03164587","0.61236387"]]},"channel":"order_book_ethbtc","event":"data"}"#;
    assert!(
        parse(raw).is_none(),
        "one unparseable level must reject the entire book, not produce a short one"
    );
}

#[test]
fn empty_bids_side_parses_without_panicking() {
    let raw = r#"{"data":{"timestamp":"1","microtimestamp":"1","bids":[],"asks":[["0.03164587","0.61236387"]]},"channel":"order_book_ethbtc","event":"data"}"#;
    let book = parse(raw).expect("an empty side is still a valid book");
    assert!(book.bids.is_empty());
    assert_eq!(book.asks.len(), 1);
}

#[test]
fn a_data_payload_under_another_event_is_not_a_book() {
    let e = envelope(DATA_FIXTURE).expect("envelope");
    let other = Envelope { event: "bts:data".to_string(), data: e.data };
    assert!(Bitstamp.parse(&other).is_none());
}

#[test]
fn bitstamp_endpoint_and_subscribe_message_are_exact() {
    assert_eq!(Bitstamp.connect_url("ethbtc"), "wss://ws.bitstamp.net");
    assert_eq!(Bitstamp.venue(), Venue::Bitstamp);
    assert_eq!(
        Bitstamp.subscribe_message("ETHBTC").expect("bitstamp subscribes"),
        r#"{"event":"bts:subscribe","data":{"channel":"order_book_ethbtc"}}"#
    );
}
