use std::collections::HashMap;

use rust_crypto_orderbook::exchange::kraken::{
    compute_checksum, strip_for_checksum, to_kraken_symbol, BookData, BookMessage, Kraken,
    KrakenBook, KrakenFrame, WireLevel,
};
use rust_crypto_orderbook::exchange::Venue;
use rust_crypto_orderbook::model::{Amount, Book, Price};
use serde_json::value::RawValue;

const SNAPSHOT_FIXTURE: &str = r#"{"channel":"book","type":"snapshot","data":[{"symbol":"ETH/BTC","bids":[{"price":0.031348,"qty":0.03740000},{"price":0.031347,"qty":2.87288049},{"price":0.031345,"qty":8.57986833},{"price":0.031344,"qty":14.40276069},{"price":0.031340,"qty":12.96065840},{"price":0.031339,"qty":13.19606540},{"price":0.031338,"qty":20.41389313},{"price":0.031336,"qty":0.03740000},{"price":0.031334,"qty":14.37158163},{"price":0.031332,"qty":14.40695990}],"asks":[{"price":0.031357,"qty":0.03740000},{"price":0.031358,"qty":2.87194815},{"price":0.031361,"qty":0.00767324},{"price":0.031362,"qty":4.27140781},{"price":0.031363,"qty":4.34586052},{"price":0.031364,"qty":27.28097668},{"price":0.031365,"qty":12.92325840},{"price":0.031366,"qty":4.14290322},{"price":0.031368,"qty":0.00738649},{"price":0.031370,"qty":0.03740000}],"checksum":3619791617,"timestamp":"2026-08-26T15:16:16.637831Z"}]}"#;

const UPDATE_FIXTURE: &str = r#"{"channel":"book","type":"update","data":[{"symbol":"ETH/BTC","bids":[{"price":0.031347,"qty":0.00000000},{"price":0.031329,"qty":19.07893401}],"asks":[],"checksum":2505869009,"timestamp":"2026-08-26T15:16:16.730423Z"}]}"#;

const STATUS_FIXTURE: &str = r#"{"channel":"status","type":"update","data":[{"version":"2.0.10","system":"online","api_version":"v2","connection_id":12072546403441331453}]}"#;

const HEARTBEAT_FIXTURE: &str = r#"{"channel":"heartbeat"}"#;

const SUBSCRIBE_ACK_SUCCESS_FIXTURE: &str = r#"{"method":"subscribe","result":{"channel":"book","depth":10,"snapshot":true,"symbol":"ETH/BTC"},"success":true,"time_in":"2026-08-26T15:16:16.576099Z","time_out":"2026-08-26T15:16:16.576140Z"}"#;

const SUBSCRIBE_ACK_FAILURE_FIXTURE: &str = r#"{"method":"subscribe","result":{"channel":"book","symbol":"NOT/REAL"},"success":false,"error":"Unknown symbol"}"#;

type Obj = HashMap<String, Box<RawValue>>;

fn field<T: serde::de::DeserializeOwned>(o: &Obj, name: &str) -> Option<T> {
    serde_json::from_str(o.get(name)?.get()).ok()
}

fn wire_level(o: &Obj) -> Option<WireLevel> {
    let price_raw = o.get("price")?.get().to_string();
    let qty_raw = o.get("qty")?.get().to_string();
    Some(WireLevel {
        price: price_raw.parse::<f64>().ok().map(|f| Price::from_bits(f.to_bits())),
        qty: qty_raw.parse::<f64>().ok().map(|f| Amount::from_bits(f.to_bits())),
        price_raw,
        qty_raw,
    })
}

fn book_data(o: &Obj) -> Option<BookData> {
    let bids: Vec<Obj> = field(o, "bids")?;
    let asks: Vec<Obj> = field(o, "asks")?;
    Some(BookData {
        bids: bids.iter().map(wire_level).collect::<Option<Vec<_>>>()?,
        asks: asks.iter().map(wire_level).collect::<Option<Vec<_>>>()?,
        checksum: field(o, "checksum")?,
    })
}

fn book_message(o: &Obj) -> Option<BookMessage> {
    let kind: String = field(o, "type")?;
    let data: Vec<Obj> = field(o, "data")?;
    Some(BookMessage { kind, data: data.iter().map(book_data).collect::<Option<Vec<_>>>()? })
}

/// A message read the way the feed reads it.
fn frame(text: &str) -> Option<KrakenFrame> {
    let o: Obj = serde_json::from_str(text).ok()?;
    Some(KrakenFrame { channel: field(&o, "channel"), book: book_message(&o) })
}

fn parse(kraken: &mut Kraken, text: &str) -> Option<Book> {
    kraken.parse(frame(text))
}

fn price(s: &str) -> Price {
    Price::from_bits(s.parse::<f64>().expect("valid literal").to_bits())
}

fn amount(s: &str) -> Amount {
    Amount::from_bits(s.parse::<f64>().expect("valid literal").to_bits())
}

#[test]
fn a_captured_snapshot_parses_into_a_complete_book() {
    let mut kraken = Kraken::new();
    let book = parse(&mut kraken, SNAPSHOT_FIXTURE).expect("valid snapshot");

    assert_eq!(book.bids.len(), 10);
    assert_eq!(book.asks.len(), 10);

    let (best_bid_price, best_bid_amount) = book.bids[0];
    assert_eq!(best_bid_price, price("0.031348"));
    assert_eq!(best_bid_amount, amount("0.03740000"));

    let (best_ask_price, best_ask_amount) = book.asks[0];
    assert_eq!(best_ask_price, price("0.031357"));
    assert_eq!(best_ask_amount, amount("0.03740000"));
}

#[test]
fn a_captured_update_accumulates_onto_the_held_snapshot() {
    let mut kraken = Kraken::new();
    parse(&mut kraken, SNAPSHOT_FIXTURE).expect("valid snapshot");
    let book = parse(&mut kraken, UPDATE_FIXTURE).expect("valid update");

    assert!(
        !book.bids.iter().any(|(p, _)| *p == price("0.031347")),
        "the removed 0.031347 bid must be gone"
    );
    let new_bid = book
        .bids
        .iter()
        .find(|(p, _)| *p == price("0.031329"))
        .expect("the new 0.031329 bid must be present");
    assert_eq!(new_bid.1, amount("19.07893401"));
}

#[test]
fn a_qty_of_zero_removes_that_price_level() {
    let mut kraken = Kraken::new();
    parse(&mut kraken, SNAPSHOT_FIXTURE).expect("valid snapshot");
    let before = parse(&mut kraken, SNAPSHOT_FIXTURE).expect("re-snapshot for isolation");
    assert!(before.bids.iter().any(|(p, _)| *p == price("0.031347")));

    let after = parse(&mut kraken, UPDATE_FIXTURE).expect("valid update");
    assert!(!after.bids.iter().any(|(p, _)| *p == price("0.031347")));
}

#[test]
fn heartbeat_parses_to_none_without_panicking() {
    assert!(parse(&mut Kraken::new(), HEARTBEAT_FIXTURE).is_none());
}

#[test]
fn status_parses_to_none_without_panicking() {
    assert!(parse(&mut Kraken::new(), STATUS_FIXTURE).is_none());
}

#[test]
fn a_successful_subscribe_ack_parses_to_none_without_panicking() {
    assert!(parse(&mut Kraken::new(), SUBSCRIBE_ACK_SUCCESS_FIXTURE).is_none());
}

#[test]
fn a_false_subscribe_ack_parses_to_none_without_panicking() {
    assert!(parse(&mut Kraken::new(), SUBSCRIBE_ACK_FAILURE_FIXTURE).is_none());
}

#[test]
fn calling_parse_twice_with_the_same_update_double_applies_the_delta() {
    let mut kraken = Kraken::new();
    parse(&mut kraken, SNAPSHOT_FIXTURE).expect("valid snapshot");
    let first = parse(&mut kraken, UPDATE_FIXTURE).expect("first update application");
    let second = parse(&mut kraken, UPDATE_FIXTURE).expect("second update application");

    assert_eq!(first.bids, second.bids);
    assert_eq!(first.asks, second.asks);
}

#[test]
fn checksum_of_the_real_captured_snapshot_matches_krakens_own_value() {
    let mut kraken = Kraken::new();
    let o: Obj = serde_json::from_str(SNAPSHOT_FIXTURE).unwrap();
    let msg = book_message(&o).expect("a book message");
    let data = &msg.data[0];
    let book = KrakenBook::from_snapshot(data).expect("valid snapshot data");
    assert_eq!(compute_checksum(&book), 3619791617);

    assert!(
        parse(&mut kraken, SNAPSHOT_FIXTURE).is_some(),
        "checksum must have matched for parse to succeed"
    );
}

#[test]
fn a_corrupted_checksum_clears_the_held_book() {
    let corrupted = SNAPSHOT_FIXTURE.replace("3619791617", "3619791618");
    let mut kraken = Kraken::new();

    assert!(
        parse(&mut kraken, &corrupted).is_none(),
        "a mismatched checksum must not publish a book"
    );
    assert!(
        parse(&mut kraken, UPDATE_FIXTURE).is_none(),
        "with no held snapshot, an update must have nothing to apply to"
    );
}

#[test]
fn a_fresh_snapshot_after_a_reconnect_replaces_prior_state_wholesale() {
    let mut kraken = Kraken::new();
    parse(&mut kraken, SNAPSHOT_FIXTURE).expect("valid snapshot");
    parse(&mut kraken, UPDATE_FIXTURE).expect("valid update");

    let book = parse(&mut kraken, SNAPSHOT_FIXTURE).expect("valid second snapshot");

    assert!(book.bids.iter().any(|(p, _)| *p == price("0.031347")));
    assert!(!book.bids.iter().any(|(p, _)| *p == price("0.031329")));
    assert_eq!(book.bids.len(), 10);
}

#[test]
fn symbol_converter_splits_the_projects_default_pair() {
    assert_eq!(to_kraken_symbol("ethbtc"), Some("ETH/BTC".to_string()));
}

#[test]
fn symbol_converter_returns_none_for_an_unknown_quote_currency() {
    assert_eq!(to_kraken_symbol("ethxyz"), None);
}

#[test]
fn kraken_subscribe_message_contains_the_converted_symbol() {
    let msg = Kraken::new()
        .subscribe_message("ethbtc")
        .expect("kraken subscribes");
    assert!(msg.contains(r#""symbol":["ETH/BTC"]"#));
}

#[test]
fn kraken_malformed_json_parses_to_none_without_panicking() {
    assert!(parse(&mut Kraken::new(), "not valid json {{{").is_none());
}

#[test]
fn strip_for_checksum_drops_dots_and_leading_zeros_but_keeps_trailing_ones() {
    assert_eq!(strip_for_checksum("0.03740000"), "3740000");
    assert_eq!(strip_for_checksum("0.031348"), "31348");
    assert_eq!(strip_for_checksum("14.40276069"), "1440276069");
    assert_eq!(strip_for_checksum("0.00000000"), "0");
    assert_eq!(strip_for_checksum(""), "0");
}

#[test]
fn symbol_converter_prefers_the_longest_suffix_and_needs_a_base() {
    assert_eq!(to_kraken_symbol("ETHUSDT"), Some("ETH/USDT".to_string()));
    assert_eq!(to_kraken_symbol("btcusd"), Some("BTC/USD".to_string()));
    assert_eq!(to_kraken_symbol("etheur"), Some("ETH/EUR".to_string()));
    assert_eq!(to_kraken_symbol("usd"), None);
    assert_eq!(Kraken::new().subscribe_message("ethxyz"), None);
}

#[test]
fn kraken_endpoint_and_subscribe_message_are_exact() {
    let k = Kraken::new();
    assert_eq!(k.venue(), Venue::Kraken);
    assert_eq!(k.connect_url("ethbtc"), "wss://ws.kraken.com/v2");
    assert_eq!(
        k.subscribe_message("ethbtc").expect("kraken subscribes"),
        r#"{"method":"subscribe","params":{"channel":"book","symbol":["ETH/BTC"],"depth":10}}"#
    );
}

#[test]
fn an_unsorted_snapshot_is_sorted_best_first_and_cut_to_ten() {
    let mut bids = String::new();
    for i in 0..12 {
        if i > 0 {
            bids.push(',');
        }
        bids.push_str(&format!(r#"{{"price":0.0{},"qty":1.0}}"#, 100 + (i * 7) % 12));
    }
    let text = format!(
        r#"{{"channel":"book","type":"snapshot","data":[{{"bids":[{bids}],"asks":[{{"price":2.0,"qty":1.0}},{{"price":1.5,"qty":1.0}}],"checksum":0}}]}}"#
    );
    let o: Obj = serde_json::from_str(&text).unwrap();
    let msg = book_message(&o).expect("a book message");
    let book = KrakenBook::from_snapshot(&msg.data[0]).expect("levels parse");
    assert_eq!(book.bids.len(), 10);
    let prices: Vec<f64> = book.bids.iter().map(|l| f64::from_bits(l.price.to_bits())).collect();
    let mut expected: Vec<f64> = (0..12).map(|i| format!("0.0{}", 100 + i).parse::<f64>().unwrap()).collect();
    expected.sort_by(|a, b| b.total_cmp(a));
    expected.truncate(10);
    assert_eq!(prices, expected);
    assert_eq!(f64::from_bits(book.asks[0].price.to_bits()), 1.5);
    assert_eq!(book.asks[0].price_raw, "1.5");
}

#[test]
fn an_unparseable_update_level_leaves_the_earlier_levels_applied_and_publishes_nothing() {
    let mut kraken = Kraken::new();
    parse(&mut kraken, SNAPSHOT_FIXTURE).expect("valid snapshot");
    let bad = r#"{"channel":"book","type":"update","data":[{"bids":[{"price":0.031347,"qty":0.0},{"price":"x","qty":1.0}],"asks":[],"checksum":0}]}"#;
    assert!(parse(&mut kraken, bad).is_none());
    // The held book kept the first change; a snapshot still resets it.
    let book = parse(&mut kraken, SNAPSHOT_FIXTURE).expect("valid snapshot");
    assert_eq!(book.bids.len(), 10);
}

#[test]
fn an_update_that_fails_part_way_still_keeps_ten_levels_a_side() {
    let snapshot = frame(SNAPSHOT_FIXTURE).and_then(|f| f.book).expect("a book message");
    let mut book = KrakenBook::from_snapshot(&snapshot.data[0]).expect("valid snapshot");
    assert_eq!(book.bids.len(), 10);
    // A new best bid is applied, then a level that does not parse stops the
    // update: the bid side would hold eleven levels if it were not cut.
    let bad = r#"{"channel":"book","type":"update","data":[{"bids":[{"price":0.031400,"qty":1.0},{"price":"x","qty":1.0}],"asks":[],"checksum":0}]}"#;
    let update = frame(bad).and_then(|f| f.book).expect("a book message");
    assert!(book.apply_update(&update.data[0]).is_none());
    assert_eq!(book.bids.len(), 10);
    assert_eq!(book.bids[0].price, price("0.031400"));
    assert!(book.asks.len() <= 10);
}
