use std::time::Duration;

use rust_crypto_orderbook::feed::{
    idle_ping_secs, parse_connect_target, proxy_addr, Backoff, STABILITY_WINDOW_NANOS,
};
use rust_crypto_orderbook::exchange::Venue;

#[test]
fn backoff_grows_and_caps() {
    let mut backoff = Backoff::new();
    let expected_secs = [1, 2, 4, 8, 16, 30, 30, 30, 30];
    for &expected in &expected_secs {
        assert_eq!(Duration::from_secs(backoff.next_delay()), Duration::from_secs(expected));
    }
    for _ in 0..1_000 {
        assert!(Duration::from_secs(backoff.next_delay()) <= Duration::from_secs(30));
    }
}

#[test]
fn a_short_lived_connection_does_not_reset_the_thrash_loop() {
    let mut backoff = Backoff::new();
    let mut observed = Vec::new();

    for _ in 0..5 {
        observed.push(Duration::from_secs(backoff.next_delay()));

        let connected_at: u64 = 1_000_000_000;
        let judged_at = connected_at + 50_000_000;
        backoff.reset_if_stable(connected_at, judged_at);
    }

    assert_eq!(
        observed,
        vec![
            Duration::from_secs(1),
            Duration::from_secs(2),
            Duration::from_secs(4),
            Duration::from_secs(8),
            Duration::from_secs(16),
        ]
    );
}

#[test]
fn a_stable_connection_does_reset() {
    let mut backoff = Backoff::new();

    backoff.next_delay();
    backoff.next_delay();
    backoff.next_delay();

    let connected_at: u64 = 1_000_000_000;
    let judged_at = connected_at + STABILITY_WINDOW_NANOS + 1_000_000_000;
    backoff.reset_if_stable(connected_at, judged_at);

    assert_eq!(backoff.next_delay(), 1);
}

#[test]
fn exactly_the_stability_window_does_not_reset() {
    let mut backoff = Backoff::new();
    backoff.next_delay();
    backoff.reset_if_stable(0, STABILITY_WINDOW_NANOS);
    assert_eq!(backoff.next_delay(), 2);
}

#[test]
fn a_judgement_before_the_connect_does_not_reset() {
    let mut backoff = Backoff::new();
    backoff.next_delay();
    backoff.reset_if_stable(STABILITY_WINDOW_NANOS * 3, 0);
    assert_eq!(backoff.next_delay(), 2);
}

#[test]
fn connect_target_reads_the_port_or_defaults_to_443() {
    assert_eq!(
        parse_connect_target("wss://stream.binance.com:9443/ws/ethbtc@depth20@100ms"),
        ("stream.binance.com".to_string(), 9443)
    );
    assert_eq!(
        parse_connect_target("wss://ws.bitstamp.net"),
        ("ws.bitstamp.net".to_string(), 443)
    );
    assert_eq!(
        parse_connect_target("wss://ws.kraken.com/v2"),
        ("ws.kraken.com".to_string(), 443)
    );
    assert_eq!(
        parse_connect_target("wss://host:notaport/x"),
        ("host".to_string(), 443)
    );
    assert_eq!(
        parse_connect_target("ws://127.0.0.1:8080"),
        ("ws".to_string(), 443)
    );
}

#[test]
fn https_proxy_wins_over_http_proxy_and_empty_means_none() {
    assert_eq!(
        proxy_addr(Some("http://a:1".to_string()), Some("http://b:2".to_string())),
        Some(("a".to_string(), 1))
    );
    assert_eq!(
        proxy_addr(None, Some("http://b:2".to_string())),
        Some(("b".to_string(), 2))
    );
    assert_eq!(proxy_addr(Some(String::new()), Some("http://b:2".to_string())), None);
    assert_eq!(proxy_addr(Some("garbage".to_string()), None), None);
    assert_eq!(proxy_addr(None, None), None);
}

#[test]
fn only_kraken_needs_an_idle_ping() {
    assert_eq!(idle_ping_secs(Venue::Kraken), Some(30));
    assert_eq!(idle_ping_secs(Venue::Binance), None);
    assert_eq!(idle_ping_secs(Venue::Bitstamp), None);
}
