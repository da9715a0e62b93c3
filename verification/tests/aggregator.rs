use std::collections::BTreeSet;

use rust_crypto_orderbook::aggregator::{
    fresh_venues, past_grace, summaries_equal, Aggregator, Publication, VenueState, GRACE_NANOS,
};
use rust_crypto_orderbook::exchange::Venue;
use rust_crypto_orderbook::merge::merge;
use rust_crypto_orderbook::model::{Amount, Book, Price};

const SEC: u64 = 1_000_000_000;

fn price(s: &str) -> Price {
    Price::from_bits(s.parse::<f64>().expect("valid literal").to_bits())
}

fn amount(s: &str) -> Amount {
    Amount::from_bits(s.parse::<f64>().expect("valid literal").to_bits())
}

fn empty_book() -> Book {
    Book {
        bids: vec![(price("1.0"), amount("1.0"))],
        asks: vec![(price("2.0"), amount("1.0"))],
        last_update_id: 1,
    }
}

/// One received book, as the service handles it: the library records its
/// parse span and decides, then records the publish's spans.
fn step_with_spans(aggregator: &mut Aggregator, venue: Venue, book: Book, now: u64, parse_ns: u64) -> Publication {
    let p = aggregator.record_and_publish(venue, book, now, parse_ns);
    aggregator.record_publish_spans(&p, 1_000, parse_ns + 1_000);
    p
}

fn step(aggregator: &mut Aggregator, venue: Venue, book: Book, now: u64) -> Publication {
    step_with_spans(aggregator, venue, book, now, 37_000)
}

#[test]
fn stale_venue_excluded_from_merge() {
    let now = 100 * SEC;
    let venues = vec![(Venue::Binance, VenueState { book: empty_book(), last_update: now - 2 * SEC })];
    let fresh = fresh_venues(&venues, now);
    assert!(!fresh.iter().any(|(v, _)| *v == Venue::Binance));
}

#[test]
fn fresh_venue_included() {
    let now = 100 * SEC;
    let venues = vec![(Venue::Binance, VenueState { book: empty_book(), last_update: now - SEC })];
    let fresh = fresh_venues(&venues, now);
    assert!(fresh.iter().any(|(v, _)| *v == Venue::Binance));
}

#[test]
fn empty_map_past_grace_exits() {
    let started_at = 5 * SEC;
    let now = started_at + GRACE_NANOS + SEC;
    assert!(past_grace(started_at, now, true));
}

#[test]
fn grace_needs_both_time_and_no_data() {
    assert!(!past_grace(0, GRACE_NANOS, true));
    assert!(!past_grace(0, GRACE_NANOS + 1, false));
    assert!(past_grace(0, GRACE_NANOS + 1, true));
}

fn exchanges(p: &Publication) -> BTreeSet<String> {
    match p {
        Publication::Published(s) => s.bids.iter().chain(s.asks.iter()).map(|l| l.exchange.name()).collect(),
        _ => panic!("expected a published summary"),
    }
}

#[test]
fn a_venue_going_stale_narrows_the_published_summary() {
    let mut aggregator = Aggregator::new();
    let now0 = 100 * SEC;
    step(&mut aggregator, Venue::Binance, empty_book(), now0);
    let first = step(&mut aggregator, Venue::Bitstamp, empty_book(), now0);
    let in_first = exchanges(&first);
    assert!(in_first.contains("binance"));
    assert!(in_first.contains("bitstamp"));

    // Past Binance's 1.5s threshold, under Bitstamp's 8s one.
    let now1 = now0 + 1_600_000_000;
    let second = step(&mut aggregator, Venue::Bitstamp, empty_book(), now1);
    assert_eq!(exchanges(&second), BTreeSet::from(["bitstamp".to_string()]));
}

#[test]
fn a_published_book_records_both_parse_and_merge_publish_samples() {
    let mut aggregator = Aggregator::new();
    let p = step(&mut aggregator, Venue::Binance, empty_book(), 10 * SEC);
    assert!(matches!(p, Publication::Published(_)));
    assert_eq!(aggregator.sample_counts(), (1, 1, 1));
    assert_eq!(aggregator.update_count(), 1);
    assert_eq!(aggregator.duplicate_count(), 0);
    assert!(aggregator.last_published().is_some());
}

#[test]
fn a_stale_book_records_no_merge_publish_or_total_sample() {
    let mut aggregator = Aggregator::new();
    let now = 100 * SEC;
    // Bitstamp's threshold is 8s: 9s of silence is past it.
    aggregator.set_venue(Venue::Bitstamp, VenueState { book: empty_book(), last_update: now - 9 * SEC });
    let unpublishable_book = Book { bids: vec![], asks: vec![], last_update_id: 1 };
    let p = step(&mut aggregator, Venue::Binance, unpublishable_book, now);
    assert!(matches!(p, Publication::Unpublishable));
    // The parse span is recorded unconditionally, before the merge.
    assert_eq!(aggregator.sample_counts(), (1, 0, 0));
    assert_eq!(aggregator.update_count(), 0);
    assert_eq!(aggregator.duplicate_count(), 0);
}

#[test]
fn an_unchanged_tick_is_not_resent_down_the_watch_channel() {
    let mut aggregator = Aggregator::new();
    let now = 100 * SEC;
    let first = step(&mut aggregator, Venue::Binance, empty_book(), now);
    assert!(matches!(first, Publication::Published(_)));
    let second = step(&mut aggregator, Venue::Binance, empty_book(), now + 100_000_000);
    assert!(matches!(second, Publication::Duplicate));
    assert_eq!(aggregator.duplicate_count(), 1);
    assert_eq!(aggregator.update_count(), 1);
}

#[test]
fn two_structurally_identical_summaries_compare_equal() {
    let binance = empty_book();
    let bitstamp = empty_book();
    let venues = vec![(Venue::Binance, &binance), (Venue::Bitstamp, &bitstamp)];
    let first = merge(&venues).expect("two live venues yield Some(summary)");
    let second = merge(&venues).expect("two live venues yield Some(summary)");
    assert!(summaries_equal(&first, &second));
}

#[test]
fn a_changed_book_produces_a_summary_that_compares_unequal() {
    let binance = empty_book();
    let bitstamp = empty_book();
    let venues = vec![(Venue::Binance, &binance), (Venue::Bitstamp, &bitstamp)];
    let before = merge(&venues).expect("two live venues yield Some(summary)");

    let mut changed_binance = empty_book();
    changed_binance.bids[0].0 = price("1.5");
    let venues = vec![(Venue::Binance, &changed_binance), (Venue::Bitstamp, &bitstamp)];
    let after = merge(&venues).expect("two live venues yield Some(summary)");

    assert!(!summaries_equal(&before, &after));
}

#[test]
fn a_nan_spread_never_compares_equal() {
    let inf = Book {
        bids: vec![(price("inf"), amount("1.0"))],
        asks: vec![(price("inf"), amount("1.0"))],
        last_update_id: 1,
    };
    let venues = vec![(Venue::Binance, &inf)];
    let s = merge(&venues).expect("a two-sided book");
    assert!(!summaries_equal(&s, &s));
}

#[test]
fn venues_stay_in_declaration_order_and_are_replaced_in_place() {
    let mut aggregator = Aggregator::new();
    step(&mut aggregator, Venue::Kraken, empty_book(), SEC);
    step(&mut aggregator, Venue::Binance, empty_book(), SEC);
    step(&mut aggregator, Venue::Bitstamp, empty_book(), SEC);
    step(&mut aggregator, Venue::Binance, empty_book(), 2 * SEC);
    let order: Vec<Venue> = aggregator.venues().iter().map(|(v, _)| *v).collect();
    assert_eq!(order, vec![Venue::Binance, Venue::Bitstamp, Venue::Kraken]);
    assert_eq!(aggregator.venues()[0].1.last_update, 2 * SEC);
}

#[test]
fn a_histogram_reset_after_report_excludes_prior_samples() {
    let mut aggregator = Aggregator::new();
    step_with_spans(&mut aggregator, Venue::Binance, empty_book(), 10 * SEC, 37_000);
    assert_eq!(aggregator.sample_counts().0, 1);

    aggregator.reset_histograms();
    assert_eq!(aggregator.sample_counts(), (0, 0, 0), "a report must reset the histograms after reading them");

    // Much larger parse span: if the first sample survived, the percentile
    // would blend both instead of reflecting only this one.
    step_with_spans(&mut aggregator, Venue::Binance, empty_book(), 11 * SEC, 5_000_000);
    assert_eq!(aggregator.sample_counts().0, 1, "only the second sample should be present after the reset");
    let p50_us = aggregator.parse_histogram().inner.value_at_quantile(0.50) as f64 / 1_000.0;
    assert!(p50_us > 4_000.0, "reported p50 ({p50_us}us) should reflect the ~5ms second sample");
}

#[test]
fn a_duplicate_records_a_parse_span_but_no_publish_spans() {
    let mut aggregator = Aggregator::new();
    step(&mut aggregator, Venue::Binance, empty_book(), SEC);
    let p = step(&mut aggregator, Venue::Binance, empty_book(), 2 * SEC);
    assert!(matches!(p, Publication::Duplicate));
    assert_eq!(aggregator.sample_counts(), (2, 1, 1));
}
