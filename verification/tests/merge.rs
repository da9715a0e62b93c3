use std::cmp::Ordering;

use rust_crypto_orderbook::exchange::Venue;
use rust_crypto_orderbook::merge::{merge, merge_side, Side, Summary, TOP_N};
use rust_crypto_orderbook::model::{Amount, Book, Price};

fn price(s: &str) -> Price {
    Price::from_bits(s.parse::<f64>().expect("valid decimal string").to_bits())
}

fn amount(s: &str) -> Amount {
    Amount::from_bits(s.parse::<f64>().expect("valid decimal string").to_bits())
}

fn level(p: &str, a: &str) -> (Price, Amount) {
    (price(p), amount(a))
}

fn book_from(bids: &[(&str, &str)], asks: &[(&str, &str)]) -> Book {
    Book {
        bids: bids.iter().map(|(p, a)| level(p, a)).collect(),
        asks: asks.iter().map(|(p, a)| level(p, a)).collect(),
        last_update_id: 1,
    }
}

fn as_f64(p: Price) -> f64 {
    f64::from_bits(p.to_bits())
}

fn spread(summary: &Summary) -> f64 {
    as_f64(summary.asks[0].price) - as_f64(summary.bids[0].price)
}

#[test]
fn ask_prefers_lower_price_bid_prefers_higher() {
    let cheap = level("0.0314", "1.0");
    let expensive = level("0.0316", "1.0");

    assert_eq!(Side::Ask.better(&cheap, &expensive), Ordering::Less);
    assert_eq!(Side::Bid.better(&expensive, &cheap), Ordering::Less);
}

#[test]
fn equal_price_prefers_larger_amount_on_both_sides() {
    let small = level("0.0314", "1.0");
    let large = level("0.0314", "2.0");

    assert_eq!(Side::Ask.better(&large, &small), Ordering::Less);
    assert_eq!(Side::Bid.better(&large, &small), Ordering::Less);
}

#[test]
fn two_books_merge_into_correct_top_ten_and_spread() {
    let binance = book_from(
        &[("0.0314", "1.0"), ("0.0312", "1.0")],
        &[("0.0316", "1.0"), ("0.0318", "1.0")],
    );
    let bitstamp = book_from(
        &[("0.0315", "1.0"), ("0.0313", "1.0")],
        &[("0.0317", "1.0"), ("0.0319", "1.0")],
    );
    let venues = vec![(Venue::Binance, &binance), (Venue::Bitstamp, &bitstamp)];

    let summary = merge(&venues).expect("two live venues yield Some(summary)");

    let bid_prices: Vec<f64> = summary.bids.iter().map(|l| as_f64(l.price)).collect();
    let ask_prices: Vec<f64> = summary.asks.iter().map(|l| as_f64(l.price)).collect();
    assert_eq!(bid_prices, vec![0.0315, 0.0314, 0.0313, 0.0312]);
    assert_eq!(ask_prices, vec![0.0316, 0.0317, 0.0318, 0.0319]);
    assert!((spread(&summary) - (0.0316 - 0.0315)).abs() < 1e-12);
}

#[test]
fn equal_price_and_amount_across_venues_resolves_deterministically() {
    let binance = book_from(&[("0.0314", "1.0")], &[("0.0316", "1.0")]);
    let bitstamp = book_from(&[("0.0314", "1.0")], &[("0.0316", "1.0")]);
    let venues = vec![(Venue::Binance, &binance), (Venue::Bitstamp, &bitstamp)];

    let summary = merge(&venues).expect("two live venues yield Some(summary)");

    assert_eq!(summary.bids[0].exchange.name(), "binance");
    assert_eq!(summary.asks[0].exchange.name(), "binance");
}

#[test]
fn crossed_book_produces_negative_spread_without_panicking() {
    let binance = book_from(&[("0.0320", "1.0")], &[("0.0330", "1.0")]);
    let bitstamp = book_from(&[("0.0310", "1.0")], &[("0.0315", "1.0")]);
    let venues = vec![(Venue::Binance, &binance), (Venue::Bitstamp, &bitstamp)];

    let summary = merge(&venues).expect("two live venues yield Some(summary)");

    assert!(spread(&summary) < 0.0);
}

#[test]
fn single_venue_still_merges() {
    let binance = book_from(&[("0.0314", "1.0")], &[("0.0316", "1.0")]);
    let venues = vec![(Venue::Binance, &binance)];

    let summary = merge(&venues).expect("one live venue yields Some(summary)");

    assert_eq!(summary.bids.len(), 1);
    assert_eq!(summary.asks.len(), 1);
    assert!((spread(&summary) - (0.0316 - 0.0314)).abs() < 1e-12);
}

#[test]
fn no_venues_returns_none() {
    let venues: Vec<(Venue, &Book)> = Vec::new();
    assert!(merge(&venues).is_none());
}

#[test]
fn six_levels_returns_six_not_padded_to_ten() {
    let bids: Vec<(&str, &str)> = (0..6).map(|_| ("0.0314", "1.0")).collect();
    let asks: Vec<(&str, &str)> = (0..6).map(|_| ("0.0316", "1.0")).collect();
    let binance = book_from(&bids, &asks);
    let venues = vec![(Venue::Binance, &binance)];

    let summary = merge(&venues).expect("Some(book) yields Some(summary)");

    assert_eq!(summary.bids.len(), 6);
    assert_eq!(summary.asks.len(), 6);
}

#[test]
fn a_one_sided_book_merges_to_none() {
    let binance = book_from(&[("0.0314", "1.0")], &[]);
    let venues = vec![(Venue::Binance, &binance)];
    assert!(merge(&venues).is_none());
}

#[test]
fn deep_books_are_cut_to_the_top_ten_best_first_across_venues() {
    // Binance: bids 0.0300, 0.0298, ...; Bitstamp: bids 0.0299, 0.0297, ...
    let binance_bids: Vec<String> = (0..8).map(|i| format!("{:.4}", 0.0300 - 0.0002 * i as f64)).collect();
    let bitstamp_bids: Vec<String> = (0..8).map(|i| format!("{:.4}", 0.0299 - 0.0002 * i as f64)).collect();
    let b1: Vec<(&str, &str)> = binance_bids.iter().map(|p| (p.as_str(), "1.0")).collect();
    let b2: Vec<(&str, &str)> = bitstamp_bids.iter().map(|p| (p.as_str(), "1.0")).collect();
    let binance = book_from(&b1, &[("0.0400", "1.0")]);
    let bitstamp = book_from(&b2, &[("0.0401", "1.0")]);
    let venues = vec![(Venue::Binance, &binance), (Venue::Bitstamp, &bitstamp)];

    let bids = merge_side(&venues, Side::Bid);
    assert_eq!(bids.len(), TOP_N);
    let prices: Vec<f64> = bids.iter().map(|l| as_f64(l.price)).collect();
    assert_eq!(
        prices,
        vec![0.0300, 0.0299, 0.0298, 0.0297, 0.0296, 0.0295, 0.0294, 0.0293, 0.0292, 0.0291]
    );
    let venues_taken: Vec<&str> = bids.iter().map(|l| if l.exchange == Venue::Binance { "binance" } else { "bitstamp" }).collect();
    assert_eq!(venues_taken[0], "binance");
    assert_eq!(venues_taken[1], "bitstamp");
}

#[test]
fn equal_prices_on_one_side_prefer_the_larger_amount_across_venues() {
    let binance = book_from(&[("0.0314", "1.0")], &[("0.0316", "1.0")]);
    let bitstamp = book_from(&[("0.0314", "3.0")], &[("0.0316", "2.0")]);
    let venues = vec![(Venue::Binance, &binance), (Venue::Bitstamp, &bitstamp)];
    let summary = merge(&venues).expect("two live venues");
    assert_eq!(summary.bids[0].exchange, Venue::Bitstamp);
    assert_eq!(summary.asks[0].exchange, Venue::Bitstamp);
    assert_eq!(summary.bids[1].exchange, Venue::Binance);
}
