use rust_crypto_orderbook::exchange::Venue;

#[test]
fn thresholds_differ_per_venue() {
    assert_ne!(
        Venue::Binance.staleness_threshold(),
        Venue::Bitstamp.staleness_threshold()
    );
    assert_ne!(
        Venue::Bitstamp.staleness_threshold(),
        Venue::Kraken.staleness_threshold()
    );
    assert_ne!(
        Venue::Binance.staleness_threshold(),
        Venue::Kraken.staleness_threshold()
    );
}

#[test]
fn venue_display_matches_the_wire_contracts_lowercase_strings() {
    assert_eq!(Venue::Binance.name(), "binance");
    assert_eq!(Venue::Bitstamp.name(), "bitstamp");
    assert_eq!(Venue::Kraken.name(), "kraken");
}

#[test]
fn staleness_thresholds_are_one_and_a_half_eight_and_twelve_seconds() {
    assert_eq!(Venue::Binance.staleness_threshold(), 1_500_000_000);
    assert_eq!(Venue::Bitstamp.staleness_threshold(), 8_000_000_000);
    assert_eq!(Venue::Kraken.staleness_threshold(), 12_000_000_000);
}

#[test]
fn venues_are_ranked_in_declaration_order() {
    assert!(Venue::Binance.rank() < Venue::Bitstamp.rank());
    assert!(Venue::Bitstamp.rank() < Venue::Kraken.rank());
    assert!(Venue::Binance < Venue::Bitstamp);
}
