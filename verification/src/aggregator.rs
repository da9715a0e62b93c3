//! The aggregator's state and decisions: the last book per venue, which
//! venues are fresh enough to merge, and whether a merge is published or
//! skipped as a duplicate of the last one.
//!
//! Times are nanoseconds on one monotonic clock.

use vstd::prelude::*;
use vstd::multiset::Multiset;

use crate::exchange::{spec_staleness_threshold, venue_rank, Venue};
use crate::feed::elapsed;
use crate::merge::{merge, spec_merge, venues_ranked, Level, Summary};
use crate::histogram::{
    histogram_auto_resizes, histogram_samples, new_histogram, record_sample, reset_samples,
    sample_count, LatencyHistogram,
};
use crate::model::{key_is_infinite, key_is_nan, keys_float_eq, Book, Price};

verus! {

/// Max wait for any venue's first book before giving up (60 s). Covers one
/// full reconnect backoff cycle (1+2+4+8+16+30 s).
pub const GRACE_NANOS: u64 = 60_000_000_000;

/// The last book received from one venue, and when it arrived.
pub struct VenueState {
    pub book: Book,
    pub last_update: u64,
}

/// What became of one received book.
pub enum Publication {
    /// The merge changed: this summary is to be sent.
    Published(Summary),
    /// The merge equals the last one published; nothing is sent.
    Duplicate,
    /// Nothing publishable: no fresh venue, or a one-sided merged book.
    Unpublishable,
}

/// Significant figures the latency histograms keep.
pub const HISTOGRAM_SIGFIG: u8 = 3;

/// The last book per venue, the publish/duplicate counters, and the latency
/// histograms (nanoseconds).
pub struct Aggregator {
    venues: Vec<(Venue, VenueState)>,
    update_count: u64,
    duplicate_count: u64,
    last_published: Option<Summary>,
    /// Parse span per received book.
    parse_histogram: LatencyHistogram,
    /// From parsed to published, per publish.
    merge_publish_histogram: LatencyHistogram,
    /// From parse start to published, per publish.
    total_histogram: LatencyHistogram,
}

/// Venues kept in declaration order, each at most once.
pub open spec fn venues_ordered(s: Seq<(Venue, VenueState)>) -> bool {
    forall|i: int, j: int| 0 <= i < j < s.len() ==> venue_rank(s[i].0) < venue_rank(s[j].0)
}

/// `s` with venue `v`'s state set to `st`: replaced where `v` is, otherwise
/// inserted in declaration order.
pub open spec fn spec_set_venue(s: Seq<(Venue, VenueState)>, v: Venue, st: VenueState) -> Seq<
    (Venue, VenueState),
>
    decreases s.len(),
{
    if s.len() == 0 {
        seq![(v, st)]
    } else if venue_rank(s.last().0) < venue_rank(v) {
        s.push((v, st))
    } else if s.last().0 == v {
        s.drop_last().push((v, st))
    } else {
        spec_set_venue(s.drop_last(), v, st).push(s.last())
    }
}

/// Venue `e` is still fresh at `now`: it last updated less than its
/// staleness threshold ago.
pub open spec fn is_fresh(e: (Venue, VenueState), now: u64) -> bool {
    elapsed(e.1.last_update, now) < spec_staleness_threshold(e.0)
}

/// The fresh venues of `s`, in order.
pub open spec fn fresh_entries(s: Seq<(Venue, VenueState)>, now: u64) -> Seq<(Venue, VenueState)>
    decreases s.len(),
{
    if s.len() == 0 {
        s
    } else if is_fresh(s.last(), now) {
        fresh_entries(s.drop_last(), now).push(s.last())
    } else {
        fresh_entries(s.drop_last(), now)
    }
}

/// The fresh venues are a subsequence of the venues, so they keep their
/// declaration order.
proof fn lemma_fresh_entries_ordered(s: Seq<(Venue, VenueState)>, now: u64)
    requires
        venues_ordered(s),
    ensures
        venues_ordered(fresh_entries(s, now)),
        forall|k: int|
            0 <= k < fresh_entries(s, now).len() ==> s.contains(#[trigger] fresh_entries(s, now)[k]),
    decreases s.len(),
{
    if s.len() > 0 {
        let d = s.drop_last();
        lemma_fresh_entries_ordered(d, now);
        let f = fresh_entries(d, now);
        assert forall|k: int| 0 <= k < f.len() implies s.contains(#[trigger] f[k]) by {
            let j = choose|j: int| 0 <= j < d.len() && d[j] == f[k];
            assert(s[j] == f[k]);
        }
        if is_fresh(s.last(), now) {
            let r = f.push(s.last());
            assert forall|k: int| 0 <= k < f.len() implies venue_rank(#[trigger] f[k].0) < venue_rank(
                s.last().0,
            ) by {
                let j = choose|j: int| 0 <= j < d.len() && d[j] == f[k];
                assert(s[j] == f[k]);
            }
            assert forall|i: int, j: int| 0 <= i < j < r.len() implies venue_rank(
                #[trigger] r[i].0,
            ) < venue_rank(#[trigger] r[j].0) by {
                if j < f.len() {
                    assert(r[i] == f[i] && r[j] == f[j]);
                } else {
                    assert(r[i] == f[i]);
                }
            }
            assert forall|k: int| 0 <= k < r.len() implies s.contains(#[trigger] r[k]) by {
                if k < f.len() {
                    assert(r[k] == f[k]);
                } else {
                    assert(s[s.len() - 1] == r[k]);
                }
            }
        }
    }
}

/// Books of venues in declaration order are in declaration order.
proof fn lemma_books_of_ranked<'a>(s: Seq<(Venue, VenueState)>)
    requires
        venues_ordered(s),
    ensures
        venues_ranked(books_of::<'a>(s)),
{
    let b = books_of::<'a>(s);
    assert forall|i: int, j: int| 0 <= i < j < b.len() implies venue_rank(#[trigger] b[i].0)
        < venue_rank(#[trigger] b[j].0) by {
        assert(b[i].0 == s[i].0 && b[j].0 == s[j].0);
    }
}

/// The venue/book pairs of `s`, as the merge reads them.
pub open spec fn books_of<'a>(s: Seq<(Venue, VenueState)>) -> Seq<(Venue, &'a Book)> {
    Seq::new(s.len(), |i: int| (s[i].0, &s[i].1.book))
}

/// Two published levels are equal: same venue, and prices and amounts equal
/// as doubles.
pub open spec fn level_eq(a: Level, b: Level) -> bool {
    a.exchange == b.exchange && keys_float_eq(a.price.spec_key(), b.price.spec_key())
        && keys_float_eq(a.amount.spec_key(), b.amount.spec_key())
}

/// Two sides are equal level by level.
pub open spec fn side_eq(a: Seq<Level>, b: Seq<Level>) -> bool {
    a.len() == b.len() && forall|i: int| 0 <= i < a.len() ==> level_eq(#[trigger] a[i], b[i])
}

/// The spread of a summary whose best ask is `ask` and best bid `bid`
/// (`ask - bid` on doubles) is NaN: either is NaN, or both are the same
/// infinity.
pub open spec fn spread_is_nan(ask: Price, bid: Price) -> bool {
    key_is_nan(ask.spec_key()) || key_is_nan(bid.spec_key()) || (key_is_infinite(ask.spec_key())
        && ask.spec_key() == bid.spec_key())
}

/// Two published summaries compare equal as sent: equal sides, and equal
/// spreads — which, with equal best levels, fails only when the spread is
/// NaN.
pub open spec fn summary_eq(a: (Seq<Level>, Seq<Level>), b: (Seq<Level>, Seq<Level>)) -> bool {
    side_eq(a.0, b.0) && side_eq(a.1, b.1) && b.0.len() > 0 && b.1.len() > 0 && !spread_is_nan(
        b.1[0].price,
        b.0[0].price,
    )
}

/// Whether two summaries compare equal as published.
pub fn summaries_equal(a: &Summary, b: &Summary) -> (r: bool)
    ensures
        r == summary_eq((a.bids@, a.asks@), (b.bids@, b.asks@)),
{
    if b.bids.len() == 0 || b.asks.len() == 0 {
        return false;
    }
    let ask = b.asks[0].price.key();
    let bid = b.bids[0].price.key();
    let ask_nan = ask > crate::model::POSITIVE_INFINITY_KEY || ask < crate::model::NEGATIVE_INFINITY_KEY;
    let bid_nan = bid > crate::model::POSITIVE_INFINITY_KEY || bid < crate::model::NEGATIVE_INFINITY_KEY;
    let ask_inf = ask == crate::model::POSITIVE_INFINITY_KEY || ask == crate::model::NEGATIVE_INFINITY_KEY;
    if ask_nan || bid_nan || (ask_inf && ask == bid) {
        return false;
    }
    sides_equal(&a.bids, &b.bids) && sides_equal(&a.asks, &b.asks)
}

/// A copy of a side's levels.
fn copy_levels(v: &Vec<Level>) -> (r: Vec<Level>)
    ensures
        r@ == v@,
{
    let mut r: Vec<Level> = Vec::new();
    let mut i: usize = 0;
    while i < v.len()
        invariant
            0 <= i <= v@.len(),
            r@ == v@.take(i as int),
        decreases v@.len() - i,
    {
        r.push(v[i]);
        i = i + 1;
        assert(r@ =~= v@.take(i as int));
    }
    assert(v@.take(v@.len() as int) =~= v@);
    r
}

/// A copy of a summary.
fn copy_summary(s: &Summary) -> (r: Summary)
    ensures
        r.bids@ == s.bids@,
        r.asks@ == s.asks@,
{
    Summary { bids: copy_levels(&s.bids), asks: copy_levels(&s.asks) }
}

/// Whether two sides are equal level by level.
fn sides_equal(a: &Vec<Level>, b: &Vec<Level>) -> (r: bool)
    ensures
        r == side_eq(a@, b@),
{
    if a.len() != b.len() {
        return false;
    }
    let mut i: usize = 0;
    while i < a.len()
        invariant
            0 <= i <= a@.len(),
            a@.len() == b@.len(),
            forall|k: int| 0 <= k < i ==> level_eq(#[trigger] a@[k], b@[k]),
        decreases a@.len() - i,
    {
        let x = &a[i];
        let y = &b[i];
        if !(x.exchange == y.exchange && x.price == y.price && x.amount == y.amount) {
            return false;
        }
        i = i + 1;
    }
    true
}

/// Filters to venues still fresh as of `now`, in order. This is where
/// staleness lives — the merge stays pure, with no clock. `now` is one
/// instant, so every venue in one pass is judged against the same time.
pub fn fresh_venues(venues: &Vec<(Venue, VenueState)>, now: u64) -> (r: Vec<(Venue, &Book)>)
    ensures
        r@ == books_of(fresh_entries(venues@, now)),
{
    let mut r: Vec<(Venue, &Book)> = Vec::new();
    let mut i: usize = 0;
    while i < venues.len()
        invariant
            0 <= i <= venues@.len(),
            r@ == books_of(fresh_entries(venues@.take(i as int), now)),
        decreases venues@.len() - i,
    {
        let (v, st) = (&venues[i].0, &venues[i].1);
        let age = if now > st.last_update {
            now - st.last_update
        } else {
            0
        };
        proof {
            assert(venues@.take(i + 1).drop_last() =~= venues@.take(i as int));
            assert(venues@.take(i + 1).last() == venues@[i as int]);
        }
        let ghost before = r@;
        if age < v.staleness_threshold() {
            r.push((*v, &st.book));
            assert(r@ =~= books_of(fresh_entries(venues@.take(i + 1), now)));
        }
        i = i + 1;
    }
    assert(venues@.take(venues@.len() as int) =~= venues@);
    r
}

/// Has the grace period elapsed since `started_at` with no venue ever
/// producing a book?
pub fn past_grace(started_at: u64, now: u64, venues_empty: bool) -> (r: bool)
    ensures
        r == (elapsed(started_at, now) > GRACE_NANOS && venues_empty),
{
    let e = if now > started_at {
        now - started_at
    } else {
        0
    };
    e > GRACE_NANOS && venues_empty
}

/// An empty latency histogram that grows to fit any span.
fn fresh_histogram() -> (h: LatencyHistogram)
    ensures
        histogram_samples(h) =~= Multiset::<u64>::empty(),
        histogram_auto_resizes(h),
{
    match new_histogram(HISTOGRAM_SIGFIG) {
        Some(h) => h,
        None => vstd::pervasive::unreached(),
    }
}

impl Aggregator {
    /// The venues' states, in declaration order.
    pub closed spec fn spec_venues(&self) -> Seq<(Venue, VenueState)> {
        self.venues@
    }

    /// Merges that were published.
    pub closed spec fn spec_update_count(&self) -> u64 {
        self.update_count
    }

    /// Merges skipped as duplicates of the last publish.
    pub closed spec fn spec_duplicate_count(&self) -> u64 {
        self.duplicate_count
    }

    /// The last merged summary, published or duplicate.
    pub closed spec fn spec_last(&self) -> Option<(Seq<Level>, Seq<Level>)> {
        match self.last_published {
            Some(s) => Some((s.bids@, s.asks@)),
            None => None,
        }
    }

    /// The parse spans recorded since the last report.
    pub closed spec fn parse_samples(&self) -> Multiset<u64> {
        histogram_samples(self.parse_histogram)
    }

    /// The parsed-to-published spans recorded since the last report.
    pub closed spec fn merge_publish_samples(&self) -> Multiset<u64> {
        histogram_samples(self.merge_publish_histogram)
    }

    /// The parse-start-to-published spans recorded since the last report.
    pub closed spec fn total_samples(&self) -> Multiset<u64> {
        histogram_samples(self.total_histogram)
    }

    /// The three histograms grow to fit any span.
    pub closed spec fn histograms_grow(&self) -> bool {
        &&& histogram_auto_resizes(self.parse_histogram)
        &&& histogram_auto_resizes(self.merge_publish_histogram)
        &&& histogram_auto_resizes(self.total_histogram)
    }

    /// The aggregator's invariant: venues in declaration order, each once,
    /// and histograms that take every span.
    pub open spec fn wf(&self) -> bool {
        venues_ordered(self.spec_venues()) && self.histograms_grow()
    }

    /// An aggregator that has seen nothing.
    pub fn new() -> (a: Aggregator)
        ensures
            a.wf(),
            a.spec_venues().len() == 0,
            a.spec_update_count() == 0,
            a.spec_duplicate_count() == 0,
            a.spec_last() is None,
            a.parse_samples() =~= Multiset::<u64>::empty(),
            a.merge_publish_samples() =~= Multiset::<u64>::empty(),
            a.total_samples() =~= Multiset::<u64>::empty(),
    {
        Aggregator {
            venues: Vec::new(),
            update_count: 0,
            duplicate_count: 0,
            last_published: None,
            parse_histogram: fresh_histogram(),
            merge_publish_histogram: fresh_histogram(),
            total_histogram: fresh_histogram(),
        }
    }

    /// The parse-span histogram, for reading its quantiles.
    pub fn parse_histogram(&self) -> (h: &LatencyHistogram)
        ensures
            histogram_samples(*h) == self.parse_samples(),
    {
        &self.parse_histogram
    }

    /// The parsed-to-published histogram, for reading its quantiles.
    pub fn merge_publish_histogram(&self) -> (h: &LatencyHistogram)
        ensures
            histogram_samples(*h) == self.merge_publish_samples(),
    {
        &self.merge_publish_histogram
    }

    /// The parse-start-to-published histogram, for reading its quantiles.
    pub fn total_histogram(&self) -> (h: &LatencyHistogram)
        ensures
            histogram_samples(*h) == self.total_samples(),
    {
        &self.total_histogram
    }

    /// How many parse spans, parsed-to-published spans and
    /// parse-start-to-published spans were recorded (each count saturating
    /// at `u64::MAX`).
    pub fn sample_counts(&self) -> (c: (u64, u64, u64))
        ensures
            c.0 as nat == vstd::math::min(self.parse_samples().len() as int, u64::MAX as int),
            c.1 as nat == vstd::math::min(self.merge_publish_samples().len() as int, u64::MAX as int),
            c.2 as nat == vstd::math::min(self.total_samples().len() as int, u64::MAX as int),
    {
        (
            sample_count(&self.parse_histogram),
            sample_count(&self.merge_publish_histogram),
            sample_count(&self.total_histogram),
        )
    }

    /// Starts a new reporting window: every histogram emptied, all else as
    /// it was.
    pub fn reset_histograms(&mut self)
        requires
            old(self).wf(),
        ensures
            final(self).wf(),
            final(self).spec_venues() == old(self).spec_venues(),
            final(self).spec_update_count() == old(self).spec_update_count(),
            final(self).spec_duplicate_count() == old(self).spec_duplicate_count(),
            final(self).spec_last() == old(self).spec_last(),
            final(self).parse_samples() =~= Multiset::<u64>::empty(),
            final(self).merge_publish_samples() =~= Multiset::<u64>::empty(),
            final(self).total_samples() =~= Multiset::<u64>::empty(),
    {
        reset_samples(&mut self.parse_histogram);
        reset_samples(&mut self.merge_publish_histogram);
        reset_samples(&mut self.total_histogram);
    }

    /// Records the latency of a publish: the parsed-to-published and the
    /// parse-start-to-published spans, one sample each — only when
    /// `publication` published a summary.
    pub fn record_publish_spans(&mut self, publication: &Publication, merge_publish_ns: u64, total_ns: u64)
        requires
            old(self).wf(),
        ensures
            final(self).wf(),
            final(self).spec_venues() == old(self).spec_venues(),
            final(self).spec_update_count() == old(self).spec_update_count(),
            final(self).spec_duplicate_count() == old(self).spec_duplicate_count(),
            final(self).spec_last() == old(self).spec_last(),
            final(self).parse_samples() == old(self).parse_samples(),
            final(self).merge_publish_samples() =~= if *publication is Published {
                old(self).merge_publish_samples().insert(merge_publish_ns)
            } else {
                old(self).merge_publish_samples()
            },
            final(self).total_samples() =~= if *publication is Published {
                old(self).total_samples().insert(total_ns)
            } else {
                old(self).total_samples()
            },
    {
        if let Publication::Published(_) = publication {
            record_sample(&mut self.merge_publish_histogram, merge_publish_ns);
            record_sample(&mut self.total_histogram, total_ns);
        }
    }

    /// The venues' states, in declaration order.
    pub fn venues(&self) -> (v: &Vec<(Venue, VenueState)>)
        ensures
            v@ == self.spec_venues(),
    {
        &self.venues
    }

    /// How many merges were published.
    pub fn update_count(&self) -> (n: u64)
        ensures
            n == self.spec_update_count(),
    {
        self.update_count
    }

    /// How many merges were skipped as duplicates.
    pub fn duplicate_count(&self) -> (n: u64)
        ensures
            n == self.spec_duplicate_count(),
    {
        self.duplicate_count
    }

    /// The last merged summary, if any.
    pub fn last_published(&self) -> (s: &Option<Summary>)
        ensures
            (match *s {
                Some(x) => Some((x.bids@, x.asks@)),
                None => None,
            }) == self.spec_last(),
    {
        &self.last_published
    }

    /// Sets venue `v`'s state, keeping venues in declaration order.
    pub fn set_venue(&mut self, v: Venue, st: VenueState)
        requires
            old(self).wf(),
        ensures
            final(self).wf(),
            final(self).spec_venues() == spec_set_venue(old(self).spec_venues(), v, st),
            final(self).spec_update_count() == old(self).spec_update_count(),
            final(self).spec_duplicate_count() == old(self).spec_duplicate_count(),
            final(self).spec_last() == old(self).spec_last(),
            final(self).parse_samples() == old(self).parse_samples(),
            final(self).merge_publish_samples() == old(self).merge_publish_samples(),
            final(self).total_samples() == old(self).total_samples(),
    {
        let ghost s0 = self.venues@;
        let r = v.rank();
        let mut j = self.venues.len();
        assert(s0.take(j as int) =~= s0);
        assert(s0.skip(j as int) =~= Seq::<(Venue, VenueState)>::empty());
        assert(spec_set_venue(s0, v, st) + Seq::<(Venue, VenueState)>::empty() =~= spec_set_venue(s0, v, st));
        // Find where `v` belongs, from the back.
        while j > 0 && r < self.venues[j - 1].0.rank()
            invariant
                r == venue_rank(v),
                0 <= j <= s0.len(),
                self.venues@ == s0,
                venues_ordered(s0),
                forall|k: int| j <= k < s0.len() ==> venue_rank(v) < venue_rank(#[trigger] s0[k].0),
                spec_set_venue(s0, v, st) == spec_set_venue(s0.take(j as int), v, st) + s0.skip(
                    j as int,
                ),
            decreases j,
        {
            proof {
                let t = s0.take(j as int);
                assert(t.drop_last() =~= s0.take(j - 1));
                assert(t.last() == s0[j - 1]);
                assert(s0.skip(j - 1) =~= seq![s0[j - 1]] + s0.skip(j as int));
                assert(spec_set_venue(t, v, st) == spec_set_venue(s0.take(j - 1), v, st).push(
                    s0[j - 1],
                ));
                assert(spec_set_venue(s0.take(j - 1), v, st).push(s0[j - 1]) + s0.skip(j as int)
                    =~= spec_set_venue(s0.take(j - 1), v, st) + s0.skip(j - 1));
            }
            j = j - 1;
        }
        if j > 0 && self.venues[j - 1].0.rank() == r {
            proof {
                let t = s0.take(j as int);
                assert(t.drop_last() =~= s0.take(j - 1));
                assert(t.last() == s0[j - 1]);
                assert(s0[j - 1].0 == v);
                assert(spec_set_venue(t, v, st) == s0.take(j - 1).push((v, st)));
            }
            self.venues.set(j - 1, (v, st));
            proof {
                assert(self.venues@ =~= s0.take(j - 1).push((v, st)) + s0.skip(j as int));
            }
        } else {
            proof {
                let t = s0.take(j as int);
                if j > 0 {
                    assert(t.last() == s0[j - 1]);
                    assert(venue_rank(t.last().0) < venue_rank(v));
                    assert(spec_set_venue(t, v, st) == t.push((v, st)));
                } else {
                    assert(t =~= Seq::<(Venue, VenueState)>::empty());
                }
            }
            self.venues.insert(j, (v, st));
            proof {
                assert(self.venues@ =~= s0.take(j as int).push((v, st)) + s0.skip(j as int));
            }
        }
    }

    /// Records the span `book` took to parse, then records `book` as venue
    /// `venue`'s latest at `now`, merges the venues
    /// still fresh at `now`, and — if the merge differs from the last one —
    /// publishes it. A merge identical to the last one is counted as a
    /// duplicate and not sent (compared on the merged summary, since a
    /// change deep in a book may not move the published top levels).
    pub fn record_and_publish(&mut self, venue: Venue, book: Book, now: u64, parse_span_ns: u64) -> (p: Publication)
        requires
            old(self).wf(),
            old(self).spec_update_count() < u64::MAX,
            old(self).spec_duplicate_count() < u64::MAX,
        ensures
            final(self).wf(),
            final(self).parse_samples() =~= old(self).parse_samples().insert(parse_span_ns),
            final(self).merge_publish_samples() == old(self).merge_publish_samples(),
            final(self).total_samples() == old(self).total_samples(),
            final(self).spec_venues() == spec_set_venue(
                old(self).spec_venues(),
                venue,
                VenueState { book, last_update: now },
            ),
            ({
                let fresh = books_of(fresh_entries(final(self).spec_venues(), now));
                match spec_merge(fresh) {
                    None => {
                        &&& p is Unpublishable
                        &&& final(self).spec_last() == old(self).spec_last()
                        &&& final(self).spec_update_count() == old(self).spec_update_count()
                        &&& final(self).spec_duplicate_count() == old(self).spec_duplicate_count()
                    },
                    Some(m) => {
                        let dup = match old(self).spec_last() {
                            Some(l) => summary_eq(l, m),
                            None => false,
                        };
                        &&& final(self).spec_last() == Some(m)
                        &&& dup ==> {
                            &&& p is Duplicate
                            &&& final(self).spec_duplicate_count() == old(
                                self,
                            ).spec_duplicate_count() + 1
                            &&& final(self).spec_update_count() == old(self).spec_update_count()
                        }
                        &&& !dup ==> {
                            &&& p matches Publication::Published(s) && (s.bids@, s.asks@) == m
                            &&& final(self).spec_update_count() == old(self).spec_update_count()
                                + 1
                            &&& final(self).spec_duplicate_count() == old(
                                self,
                            ).spec_duplicate_count()
                        }
                    },
                }
            }),
    {
        record_sample(&mut self.parse_histogram, parse_span_ns);
        self.set_venue(venue, VenueState { book, last_update: now });
        let summary = {
            let fresh = fresh_venues(&self.venues, now);
            proof {
                lemma_fresh_entries_ordered(self.venues@, now);
                lemma_books_of_ranked(fresh_entries(self.venues@, now));
            }
            merge(&fresh)
        };
        let summary = match summary {
            Some(s) => s,
            None => return Publication::Unpublishable,
        };
        let is_duplicate = match &self.last_published {
            Some(last) => summaries_equal(last, &summary),
            None => false,
        };
        if is_duplicate {
            self.last_published = Some(summary);
            self.duplicate_count = self.duplicate_count + 1;
            return Publication::Duplicate;
        }
        self.last_published = Some(copy_summary(&summary));
        self.update_count = self.update_count + 1;
        Publication::Published(summary)
    }
}

/// Neither the price nor the amount of `l` is NaN.
pub open spec fn level_comparable(l: Level) -> bool {
    !key_is_nan(l.price.spec_key()) && !key_is_nan(l.amount.spec_key())
}

/// No price or amount on either side of `m` is NaN, and its spread is not.
pub open spec fn summary_is_comparable(m: (Seq<Level>, Seq<Level>)) -> bool {
    &&& m.0.len() > 0
    &&& m.1.len() > 0
    &&& forall|i: int| 0 <= i < m.0.len() ==> level_comparable(#[trigger] m.0[i])
    &&& forall|i: int| 0 <= i < m.1.len() ==> level_comparable(#[trigger] m.1[i])
    &&& !spread_is_nan(m.1[0].price, m.0[0].price)
}

/// Setting a venue's state twice to the same value is the same as setting
/// it once.
pub proof fn law_set_venue_idempotent(s: Seq<(Venue, VenueState)>, v: Venue, st: VenueState)
    ensures
        spec_set_venue(spec_set_venue(s, v, st), v, st) == spec_set_venue(s, v, st),
    decreases s.len(),
{
    if s.len() > 0 && !(venue_rank(s.last().0) < venue_rank(v)) && s.last().0 != v {
        law_set_venue_idempotent(s.drop_last(), v, st);
        let r = spec_set_venue(s.drop_last(), v, st).push(s.last());
        assert(r.drop_last() =~= spec_set_venue(s.drop_last(), v, st));
        assert(r.last() == s.last());
    } else {
        let r = spec_set_venue(s, v, st);
        assert(r.last() == (v, st));
        assert(r.drop_last().push((v, st)) =~= r);
    }
}

/// A summary with no NaN in it compares equal to itself, so publishing it
/// again is skipped as a duplicate.
pub proof fn law_summary_eq_reflexive(m: (Seq<Level>, Seq<Level>))
    requires
        summary_is_comparable(m),
    ensures
        summary_eq(m, m),
{
    assert forall|i: int| 0 <= i < m.0.len() implies level_eq(#[trigger] m.0[i], m.0[i]) by {
        assert(level_comparable(m.0[i]));
    }
    assert forall|i: int| 0 <= i < m.1.len() implies level_eq(#[trigger] m.1[i], m.1[i]) by {
        assert(level_comparable(m.1[i]));
    }
    assert(side_eq(m.0, m.0));
    assert(side_eq(m.1, m.1));
}

/// Receiving the same book from the same venue again at the same instant
/// leaves the venue states as they were and merges to the same summary;
/// when that summary holds no NaN, it equals the last one merged, so the
/// second receipt is a duplicate and nothing is sent.
pub proof fn law_resent_book_is_duplicate(
    s: Seq<(Venue, VenueState)>,
    v: Venue,
    book: Book,
    now: u64,
)
    ensures
        ({
            let st = VenueState { book, last_update: now };
            let s1 = spec_set_venue(s, v, st);
            &&& spec_set_venue(s1, v, st) == s1
            &&& match spec_merge(books_of(fresh_entries(s1, now))) {
                Some(m) => summary_is_comparable(m) ==> summary_eq(m, m),
                None => true,
            }
        }),
{
    let st = VenueState { book, last_update: now };
    law_set_venue_idempotent(s, v, st);
    let s1 = spec_set_venue(s, v, st);
    match spec_merge(books_of(fresh_entries(s1, now))) {
        Some(m) => {
            if summary_is_comparable(m) {
                law_summary_eq_reflexive(m);
            }
        },
        None => {},
    }
}

/// An entry is kept by the freshness filter exactly when it is one of the
/// venues and fresh.
proof fn lemma_fresh_entries_contains(s: Seq<(Venue, VenueState)>, now: u64, x: (Venue, VenueState))
    ensures
        fresh_entries(s, now).contains(x) <==> (s.contains(x) && is_fresh(x, now)),
    decreases s.len(),
{
    if s.len() > 0 {
        let d = s.drop_last();
        lemma_fresh_entries_contains(d, now, x);
        let f = fresh_entries(d, now);
        if s.contains(x) && x != s.last() {
            let i = choose|i: int| 0 <= i < s.len() && s[i] == x;
            assert(d[i] == x);
        }
        if d.contains(x) {
            let i = choose|i: int| 0 <= i < d.len() && d[i] == x;
            assert(s[i] == x);
        }
        assert(s[s.len() - 1] == s.last());
        if is_fresh(s.last(), now) {
            let r = f.push(s.last());
            if r.contains(x) && x != s.last() {
                let i = choose|i: int| 0 <= i < r.len() && r[i] == x;
                assert(f[i] == x);
            }
            if f.contains(x) {
                let i = choose|i: int| 0 <= i < f.len() && f[i] == x;
                assert(r[i] == x);
            }
            assert(r[f.len() as int] == s.last());
        }
    }
}

/// Venue `v` is one of `s` and fresh at `now`.
pub open spec fn fresh_in(s: Seq<(Venue, VenueState)>, v: Venue, now: u64) -> bool {
    exists|j: int| 0 <= j < s.len() && s[j].0 == v && #[trigger] is_fresh(s[j], now)
}

/// Venue `v` is among the venue/book pairs `r`.
pub open spec fn merged_has(r: Seq<(Venue, &Book)>, v: Venue) -> bool {
    exists|k: int| 0 <= k < r.len() && #[trigger] r[k].0 == v
}

/// The venues merged at `now` are exactly the venues that are fresh at
/// `now` (silent for less than their staleness threshold), each with the
/// last book it sent.
pub proof fn law_fresh_venues_are_the_fresh_ones<'a>(s: Seq<(Venue, VenueState)>, now: u64)
    requires
        venues_ordered(s),
    ensures
        ({
            let r = books_of::<'a>(fresh_entries(s, now));
            &&& forall|k: int| 0 <= k < r.len() ==> fresh_in(s, #[trigger] r[k].0, now)
            &&& forall|j: int|
                0 <= j < s.len() && is_fresh(#[trigger] s[j], now) ==> merged_has(r, s[j].0)
            &&& forall|k: int, j: int|
                0 <= k < r.len() && 0 <= j < s.len() && #[trigger] r[k].0 == #[trigger] s[j].0
                    ==> *r[k].1 == s[j].1.book
        }),
{
    let f = fresh_entries(s, now);
    let r = books_of::<'a>(f);
    lemma_fresh_entries_ordered(s, now);
    assert forall|k: int, j: int|
        0 <= k < r.len() && 0 <= j < s.len() && #[trigger] r[k].0 == #[trigger] s[j].0 implies *r[k].1
        == s[j].1.book by {
        lemma_fresh_entries_contains(s, now, f[k]);
        let i = choose|i: int| 0 <= i < s.len() && s[i] == f[k];
        if i != j {
            assert(venue_rank(s[i].0) != venue_rank(s[j].0));
        }
    }
    assert forall|k: int| 0 <= k < r.len() implies fresh_in(s, #[trigger] r[k].0, now) by {
        lemma_fresh_entries_contains(s, now, f[k]);
        let i = choose|i: int| 0 <= i < s.len() && s[i] == f[k];
        assert(s[i].0 == r[k].0 && is_fresh(s[i], now));
    }
    assert forall|j: int| 0 <= j < s.len() && is_fresh(#[trigger] s[j], now) implies merged_has(
        r,
        s[j].0,
    ) by {
        lemma_fresh_entries_contains(s, now, s[j]);
        assert(s.contains(s[j]));
        let k = choose|k: int| 0 <= k < f.len() && f[k] == s[j];
        assert(r[k].0 == s[j].0);
    }
}

/// Two summaries compare equal only when they hold the same number of bids
/// and of asks and, level by level on each side, the same venue, and prices
/// and amounts equal as doubles. So a merge that differs from the last one
/// in any level's venue, price or amount is published, not counted as a
/// duplicate.
pub proof fn law_equal_summaries_match_level_by_level(
    a: (Seq<Level>, Seq<Level>),
    b: (Seq<Level>, Seq<Level>),
)
    ensures
        summary_eq(a, b) ==> {
            &&& a.0.len() == b.0.len()
            &&& a.1.len() == b.1.len()
            &&& forall|i: int|
                0 <= i < a.0.len() ==> {
                    &&& (#[trigger] a.0[i]).exchange == b.0[i].exchange
                    &&& keys_float_eq(a.0[i].price.spec_key(), b.0[i].price.spec_key())
                    &&& keys_float_eq(a.0[i].amount.spec_key(), b.0[i].amount.spec_key())
                }
            &&& forall|i: int|
                0 <= i < a.1.len() ==> {
                    &&& (#[trigger] a.1[i]).exchange == b.1[i].exchange
                    &&& keys_float_eq(a.1[i].price.spec_key(), b.1[i].price.spec_key())
                    &&& keys_float_eq(a.1[i].amount.spec_key(), b.1[i].amount.spec_key())
                }
        },
{
    if summary_eq(a, b) {
        assert forall|i: int| 0 <= i < a.0.len() implies {
            &&& (#[trigger] a.0[i]).exchange == b.0[i].exchange
            &&& keys_float_eq(a.0[i].price.spec_key(), b.0[i].price.spec_key())
            &&& keys_float_eq(a.0[i].amount.spec_key(), b.0[i].amount.spec_key())
        } by {
            assert(level_eq(a.0[i], b.0[i]));
        }
        assert forall|i: int| 0 <= i < a.1.len() implies {
            &&& (#[trigger] a.1[i]).exchange == b.1[i].exchange
            &&& keys_float_eq(a.1[i].price.spec_key(), b.1[i].price.spec_key())
            &&& keys_float_eq(a.1[i].amount.spec_key(), b.1[i].amount.spec_key())
        } by {
            assert(level_eq(a.1[i], b.1[i]));
        }
    }
}

} // verus!
