use std::cmp::Ordering;

use rust_crypto_orderbook::model::{parse_levels, Amount, Price, RawLevel};

fn price(s: &str) -> Price {
    Price::from_bits(s.parse::<f64>().expect("valid decimal string").to_bits())
}

fn display(p: Price) -> String {
    format!("{:.8}", f64::from_bits(p.to_bits()))
}

#[test]
fn price_round_trips_through_display() {
    let price = price("0.03150000");
    assert_eq!(display(price), "0.03150000");
}

#[test]
fn prices_sort_ascending_by_value() {
    let mut prices: Vec<Price> = ["0.0320", "0.0100", "0.0315", "0.0001"]
        .iter()
        .map(|s| price(s))
        .collect();
    prices.sort();
    let sorted: Vec<String> = prices.iter().map(|p| display(*p)).collect();
    assert_eq!(
        sorted,
        vec!["0.00010000", "0.01000000", "0.03150000", "0.03200000"]
    );
}

#[test]
fn equal_prices_compare_equal() {
    let a = price("0.03150000");
    let b = price("0.03150000");
    assert_eq!(a.cmp(&b), Ordering::Equal);
    assert!(!(a < b));
    assert!(!(b < a));
}

#[test]
fn a_negative_price_string_is_accepted_not_rejected() {
    let p = price("-0.001");
    assert_eq!(f64::from_bits(p.to_bits()), -0.001);
}

#[test]
fn keys_order_prices_as_total_cmp_does() {
    let values = [-1.5f64, -0.0, 0.0, 1e-300, 2.0, f64::INFINITY, f64::NEG_INFINITY, f64::NAN, -f64::NAN];
    for a in values {
        for b in values {
            let (pa, pb) = (Price::from_bits(a.to_bits()), Price::from_bits(b.to_bits()));
            assert_eq!(pa.key().cmp(&pb.key()), a.total_cmp(&b), "{a} vs {b}");
            assert_eq!(pa.cmp(&pb), a.total_cmp(&b));
            assert_eq!(pa == pb, a == b, "{a} == {b}");
            assert_eq!(pa.to_bits(), a.to_bits());
        }
    }
}

#[test]
fn amount_zero_is_either_signed_zero() {
    assert!(Amount::from_bits(0.0f64.to_bits()).is_zero());
    assert!(Amount::from_bits((-0.0f64).to_bits()).is_zero());
    assert!(!Amount::from_bits(1e-300f64.to_bits()).is_zero());
}

#[test]
fn one_unparsed_level_rejects_every_level() {
    let good = RawLevel { price: Some(price("1.0")), amount: Some(Amount::from_bits(2.0f64.to_bits())) };
    let bad = RawLevel { price: None, amount: Some(Amount::from_bits(2.0f64.to_bits())) };
    assert_eq!(parse_levels(&vec![good, good]).map(|v| v.len()), Some(2));
    assert!(parse_levels(&vec![good, bad]).is_none());
    assert_eq!(parse_levels(&vec![]).map(|v| v.len()), Some(0));
}
