//! What holds of Kraken's accumulated book across every message: sides stay
//! sorted best first, sorting keeps every level, a changed level replaces
//! whatever its price held (a zero quantity removes it), a snapshot replaces
//! the book wholesale, an update needs a held book, and nothing is published
//! unless it matches Kraken's checksum.

use vstd::prelude::*;

use crate::model::{key_is_zero, keys_float_eq, Price};
use crate::text::{spec_to_lowercase, spec_to_uppercase};

use crate::exchange::kraken::{
    spec_apply_update, spec_to_level, BookData, WireLevel, insert_sorted, level_before, sort_levels, spec_apply_side, spec_checksum,
    spec_from_snapshot, spec_kraken_symbol, kraken_symbol_from, quote_suffixes, spec_parse, spec_strip, spec_upsert, trim_leading_zeros, without_dots, truncated, without_price, KrakenFrame,
    KrakenLevel, SpecBook, DEPTH,
};

verus! {

broadcast use vstd::seq_lib::group_to_multiset_ensures;

/// A side is sorted best first: no level comes strictly before an earlier
/// one (asks ascending, bids descending by price).
pub open spec fn side_sorted(s: Seq<KrakenLevel>, ascending: bool) -> bool {
    forall|i: int, j: int|
        0 <= i < j < s.len() ==> !level_before(#[trigger] s[j], #[trigger] s[i], ascending)
}

/// Both sides sorted best first.
pub open spec fn book_sorted(b: SpecBook) -> bool {
    side_sorted(b.0, false) && side_sorted(b.1, true)
}

/// Where `insert_sorted` puts `x`: after every level it does not come
/// before, scanning from the back.
pub open spec fn insert_pos(s: Seq<KrakenLevel>, x: KrakenLevel, ascending: bool) -> int
    decreases s.len(),
{
    if s.len() == 0 {
        0
    } else if level_before(x, s.last(), ascending) {
        insert_pos(s.drop_last(), x, ascending)
    } else {
        s.len() as int
    }
}

proof fn lemma_insert_pos(s: Seq<KrakenLevel>, x: KrakenLevel, ascending: bool)
    ensures
        0 <= insert_pos(s, x, ascending) <= s.len(),
        forall|k: int|
            insert_pos(s, x, ascending) <= k < s.len() ==> level_before(x, #[trigger] s[k], ascending),
        insert_pos(s, x, ascending) > 0 ==> !level_before(
            x,
            s[insert_pos(s, x, ascending) - 1],
            ascending,
        ),
        insert_sorted(s, x, ascending) == s.insert(insert_pos(s, x, ascending), x),
    decreases s.len(),
{
    if s.len() == 0 {
        assert(s.insert(0, x) =~= seq![x]);
    } else if level_before(x, s.last(), ascending) {
        let d = s.drop_last();
        lemma_insert_pos(d, x, ascending);
        let p = insert_pos(d, x, ascending);
        assert forall|k: int| p <= k < s.len() implies level_before(x, #[trigger] s[k], ascending) by {
            if k < d.len() {
                assert(s[k] == d[k]);
            }
        }
        if p > 0 {
            assert(s[p - 1] == d[p - 1]);
        }
        assert(d.insert(p, x).push(s.last()) =~= s.insert(p, x));
    } else {
        assert(s.insert(s.len() as int, x) =~= s.push(x));
    }
}

/// Inserting into a sorted side keeps it sorted.
pub proof fn lemma_insert_sorted_keeps_order(s: Seq<KrakenLevel>, x: KrakenLevel, ascending: bool)
    requires
        side_sorted(s, ascending),
    ensures
        side_sorted(insert_sorted(s, x, ascending), ascending),
{
    lemma_insert_pos(s, x, ascending);
    let p = insert_pos(s, x, ascending);
    let r = s.insert(p, x);
    assert forall|i: int, j: int| 0 <= i < j < r.len() implies !level_before(
        #[trigger] r[j],
        #[trigger] r[i],
        ascending,
    ) by {
        if j < p {
            assert(r[i] == s[i] && r[j] == s[j]);
        } else if j == p {
            assert(r[j] == x && r[i] == s[i]);
            assert(!level_before(x, s[p - 1], ascending));
            if i < p - 1 {
                assert(!level_before(s[p - 1], s[i], ascending));
            }
        } else if i == p {
            assert(r[i] == x && r[j] == s[j - 1]);
            assert(level_before(x, s[j - 1], ascending));
        } else if i < p {
            assert(r[i] == s[i] && r[j] == s[j - 1]);
        } else {
            assert(r[i] == s[i - 1] && r[j] == s[j - 1]);
        }
    }
}

/// Sorting puts a side in order.
pub proof fn law_sort_levels_sorted(s: Seq<KrakenLevel>, ascending: bool)
    ensures
        side_sorted(sort_levels(s, ascending), ascending),
    decreases s.len(),
{
    if s.len() > 0 {
        law_sort_levels_sorted(s.drop_last(), ascending);
        lemma_insert_sorted_keeps_order(sort_levels(s.drop_last(), ascending), s.last(), ascending);
    }
}

/// Inserting keeps every level and adds `x`.
proof fn lemma_insert_sorted_multiset(s: Seq<KrakenLevel>, x: KrakenLevel, ascending: bool)
    ensures
        insert_sorted(s, x, ascending).to_multiset() =~= s.to_multiset().insert(x),
    decreases s.len(),
{
    if s.len() == 0 {
        assert(seq![x] =~= s.push(x));
    } else if level_before(x, s.last(), ascending) {
        let d = s.drop_last();
        lemma_insert_sorted_multiset(d, x, ascending);
        assert(d.push(s.last()) =~= s);
    }
}

/// Sorting a side keeps exactly its levels, as often as they occur.
pub proof fn law_sort_levels_permutes(s: Seq<KrakenLevel>, ascending: bool)
    ensures
        sort_levels(s, ascending).to_multiset() =~= s.to_multiset(),
    decreases s.len(),
{
    if s.len() > 0 {
        let d = s.drop_last();
        law_sort_levels_permutes(d, ascending);
        lemma_insert_sorted_multiset(sort_levels(d, ascending), s.last(), ascending);
        assert(d.push(s.last()) =~= s);
    }
}

/// Cutting a sorted side keeps it sorted.
proof fn lemma_truncated_sorted(s: Seq<KrakenLevel>, n: nat, ascending: bool)
    requires
        side_sorted(s, ascending),
    ensures
        side_sorted(truncated(s, n), ascending),
        truncated(s, n).len() <= n,
{
    let t = truncated(s, n);
    assert forall|i: int, j: int| 0 <= i < j < t.len() implies !level_before(
        #[trigger] t[j],
        #[trigger] t[i],
        ascending,
    ) by {
        assert(t[i] == s[i] && t[j] == s[j]);
    }
}

/// Applying wire levels to a sorted side keeps it sorted.
proof fn lemma_apply_side_sorted(s: Seq<KrakenLevel>, ws: Seq<crate::exchange::kraken::WireLevel>, ascending: bool)
    requires
        side_sorted(s, ascending),
    ensures
        side_sorted(spec_apply_side(s, ws, ascending).0, ascending),
    decreases ws.len(),
{
    if ws.len() > 0 {
        lemma_apply_side_sorted(s, ws.drop_last(), ascending);
        let prev = spec_apply_side(s, ws.drop_last(), ascending).0;
        match crate::exchange::kraken::spec_to_level(ws.last()) {
            Some(l) => {
                let kept = without_price(prev, l.price);
                law_sort_levels_sorted(kept, ascending);
                law_sort_levels_sorted(kept.push(l), ascending);
            },
            None => {},
        }
    }
}

/// Every book a snapshot builds is sorted and holds at most `DEPTH` levels
/// per side.
proof fn lemma_snapshot_sorted(d: crate::exchange::kraken::BookData)
    ensures
        spec_from_snapshot(d) matches Some(b) ==> book_sorted(b) && b.0.len() <= DEPTH && b.1.len()
            <= DEPTH,
{
    if let Some(b) = spec_from_snapshot(d) {
        let bids = crate::exchange::kraken::spec_levels(d.bids@)->0;
        let asks = crate::exchange::kraken::spec_levels(d.asks@)->0;
        law_sort_levels_sorted(bids, false);
        law_sort_levels_sorted(asks, true);
        lemma_truncated_sorted(sort_levels(bids, false), DEPTH as nat, false);
        lemma_truncated_sorted(sort_levels(asks, true), DEPTH as nat, true);
    }
}

/// A book holds at most `DEPTH` levels on each side.
pub open spec fn book_within_depth(b: SpecBook) -> bool {
    b.0.len() <= DEPTH && b.1.len() <= DEPTH
}

/// The held book stays sorted best first, and within `DEPTH` levels per
/// side, across any message (a new venue holds none); every published book
/// is sorted and holds at most `DEPTH` levels per side.
pub proof fn law_kraken_book_stays_sorted(held: Option<SpecBook>, frame: Option<KrakenFrame>)
    requires
        held matches Some(b) ==> book_sorted(b) && book_within_depth(b),
    ensures
        spec_parse(held, frame).0 matches Some(b) ==> book_sorted(b) && book_within_depth(b),
        spec_parse(held, frame).1 matches Some(b) ==> book_sorted(b) && book_within_depth(b),
{
    if let Some(f) = frame {
        if let Some(m) = f.book {
            if m.data@.len() > 0 {
                let d = m.data@[0];
                lemma_snapshot_sorted(d);
                if let Some(h) = held {
                    lemma_apply_side_sorted(h.0, d.bids@, false);
                    let bids = spec_apply_side(h.0, d.bids@, false).0;
                    lemma_apply_side_sorted(h.1, d.asks@, true);
                    let asks = spec_apply_side(h.1, d.asks@, true).0;
                    lemma_truncated_sorted(bids, DEPTH as nat, false);
                    lemma_truncated_sorted(asks, DEPTH as nat, true);
                }
            }
        }
    }
}

/// The frame is a `book` channel message whose first payload is a
/// `snapshot`.
pub open spec fn is_snapshot(frame: Option<KrakenFrame>) -> bool {
    &&& frame is Some
    &&& frame->0.channel matches Some(c) && c@ == "book"@
    &&& frame->0.book is Some
    &&& frame->0.book->0.data@.len() > 0
    &&& frame->0.book->0.kind@ == "snapshot"@
}

/// A snapshot whose levels all parse replaces the held book wholesale: what
/// it leaves held, and publishes, does not depend on what was held before;
/// and it leaves held exactly what it publishes (nothing, on a checksum
/// mismatch).
pub proof fn law_kraken_snapshot_replaces(
    held1: Option<SpecBook>,
    held2: Option<SpecBook>,
    frame: Option<KrakenFrame>,
)
    requires
        is_snapshot(frame),
        spec_from_snapshot(frame->0.book->0.data@[0]) is Some,
    ensures
        spec_parse(held1, frame) == spec_parse(held2, frame),
        spec_parse(held1, frame).0 == spec_parse(held1, frame).1,
{
}

/// Nothing is published unless it matches the checksum Kraken sent with the
/// message, and whatever is published is exactly the book now held.
pub proof fn law_kraken_publishes_only_checked_books(
    held: Option<SpecBook>,
    frame: Option<KrakenFrame>,
)
    ensures
        spec_parse(held, frame).1 matches Some(b) ==> {
            &&& spec_parse(held, frame).0 == Some(b)
            &&& frame->0.book->0.data@.len() > 0
            &&& spec_checksum(b) == frame->0.book->0.data@[0].checksum
        },
{
}

/// Without a held book, an update publishes nothing and holds nothing:
/// only a snapshot can start a book.
pub proof fn law_kraken_update_needs_snapshot(frame: Option<KrakenFrame>)
    requires
        !is_snapshot(frame),
    ensures
        spec_parse(None, frame) == (None::<SpecBook>, None::<SpecBook>),
{
}

/// The levels left after dropping a price are exactly those at another
/// price.
proof fn lemma_without_price_contains(s: Seq<KrakenLevel>, price: Price, x: KrakenLevel)
    ensures
        without_price(s, price).contains(x) <==> (s.contains(x) && !keys_float_eq(
            x.price.spec_key(),
            price.spec_key(),
        )),
    decreases s.len(),
{
    if s.len() > 0 {
        let d = s.drop_last();
        lemma_without_price_contains(d, price, x);
        assert(d.push(s.last()) =~= s);
        if s.contains(x) && x != s.last() {
            let i = choose|i: int| 0 <= i < s.len() && s[i] == x;
            assert(d[i] == x);
        }
        if d.contains(x) {
            let i = choose|i: int| 0 <= i < d.len() && d[i] == x;
            assert(s[i] == x);
        }
        let rest = without_price(d, price);
        if !keys_float_eq(s.last().price.spec_key(), price.spec_key()) {
            if rest.push(s.last()).contains(x) && x != s.last() {
                let i = choose|i: int| 0 <= i < rest.len() + 1 && rest.push(s.last())[i] == x;
                assert(rest[i] == x);
            }
            if rest.contains(x) {
                let i = choose|i: int| 0 <= i < rest.len() && rest[i] == x;
                assert(rest.push(s.last())[i] == x);
            }
            assert(rest.push(s.last())[rest.len() as int] == s.last());
        }
    }
}

/// Applying one changed level to a side leaves it sorted best first and
/// holding exactly: the levels it held at every other price, plus the new
/// level unless its quantity is zero. A zero quantity removes its price.
pub proof fn law_kraken_upsert_replaces_price(s: Seq<KrakenLevel>, l: KrakenLevel, ascending: bool)
    ensures
        side_sorted(spec_upsert(s, l, ascending), ascending),
        forall|x: KrakenLevel|
            #[trigger] spec_upsert(s, l, ascending).contains(x) <==> ((s.contains(x)
                && !keys_float_eq(x.price.spec_key(), l.price.spec_key())) || (x == l
                && !key_is_zero(l.qty.spec_key()))),
{
    broadcast use vstd::seq_lib::group_to_multiset_ensures;

    let kept = without_price(s, l.price);
    let added = if key_is_zero(l.qty.spec_key()) {
        kept
    } else {
        kept.push(l)
    };
    law_sort_levels_sorted(added, ascending);
    law_sort_levels_permutes(added, ascending);
    let r = sort_levels(added, ascending);
    assert forall|x: KrakenLevel| #[trigger] r.contains(x) <==> ((s.contains(x) && !keys_float_eq(
        x.price.spec_key(),
        l.price.spec_key(),
    )) || (x == l && !key_is_zero(l.qty.spec_key()))) by {
        lemma_without_price_contains(s, l.price, x);
        assert(r.contains(x) <==> r.to_multiset().count(x) > 0);
        assert(added.contains(x) <==> added.to_multiset().count(x) > 0);
        if !key_is_zero(l.qty.spec_key()) {
            if added.contains(x) && x != l {
                let i = choose|i: int| 0 <= i < added.len() && added[i] == x;
                assert(kept[i] == x);
            }
            if kept.contains(x) {
                let i = choose|i: int| 0 <= i < kept.len() && kept[i] == x;
                assert(added[i] == x);
            }
            assert(added[kept.len() as int] == l);
        }
    }
}

/// Dropping the dots leaves no dot.
proof fn lemma_without_dots_has_none(s: Seq<char>)
    ensures
        forall|i: int| 0 <= i < without_dots(s).len() ==> #[trigger] without_dots(s)[i] != '.',
    decreases s.len(),
{
    if s.len() > 0 {
        let d = s.drop_last();
        lemma_without_dots_has_none(d);
        let w = without_dots(d);
        if s.last() != '.' {
            assert forall|i: int| 0 <= i < w.push(s.last()).len() implies #[trigger] w.push(
                s.last(),
            )[i] != '.' by {
                if i < w.len() {
                    assert(w.push(s.last())[i] == w[i]);
                }
            }
        }
    }
}

/// Trimming leading zeros keeps a suffix, which does not start with a zero.
proof fn lemma_trim_leading_zeros(s: Seq<char>)
    ensures
        exists|k: int| 0 <= k <= s.len() && trim_leading_zeros(s) == #[trigger] s.skip(k),
        trim_leading_zeros(s).len() > 0 ==> trim_leading_zeros(s)[0] != '0',
    decreases s.len(),
{
    if s.len() > 0 && s[0] == '0' {
        lemma_trim_leading_zeros(s.drop_first());
        let k = choose|k: int| 0 <= k <= s.drop_first().len() && trim_leading_zeros(s.drop_first())
            == #[trigger] s.drop_first().skip(k);
        assert(s.drop_first().skip(k) =~= s.skip(k + 1));
    } else {
        assert(s.skip(0) =~= s);
    }
}

/// The text a wire decimal contributes to Kraken's checksum is never empty,
/// holds no dot, and starts with a zero only when it is exactly `"0"`.
pub proof fn law_strip_is_bare_digits(raw: Seq<char>)
    ensures
        spec_strip(raw).len() > 0,
        forall|i: int| 0 <= i < spec_strip(raw).len() ==> #[trigger] spec_strip(raw)[i] != '.',
        spec_strip(raw) == seq!['0'] || spec_strip(raw)[0] != '0',
{
    let w = without_dots(raw);
    lemma_without_dots_has_none(raw);
    lemma_trim_leading_zeros(w);
    let t = trim_leading_zeros(w);
    let k = choose|k: int| 0 <= k <= w.len() && t == #[trigger] w.skip(k);
    assert forall|i: int| 0 <= i < t.len() implies #[trigger] t[i] != '.' by {
        assert(t[i] == w[i + k]);
    }
}

/// The pair, lowercased as `l`, ends in quote currency number `k` and has a
/// non-empty base before it.
pub open spec fn quote_matches(l: Seq<char>, k: int) -> bool {
    let q = quote_suffixes()[k];
    l.len() > q.len() && l.subrange(l.len() - q.len(), l.len() as int) == q
}

/// The Kraken symbol for `l` split at quote currency number `k`.
pub open spec fn symbol_at(l: Seq<char>, k: int) -> Seq<char> {
    let q = quote_suffixes()[k];
    spec_to_uppercase(l.subrange(0, l.len() - q.len())) + "/"@ + spec_to_uppercase(q)
}

proof fn lemma_symbol_from(l: Seq<char>, k: int)
    requires
        0 <= k <= 4,
    ensures
        kraken_symbol_from(l, k) is Some <==> exists|m: int| k <= m < 4 && #[trigger] quote_matches(l, m),
        kraken_symbol_from(l, k) matches Some(sym) ==> exists|m: int|
            k <= m < 4 && #[trigger] quote_matches(l, m) && sym == symbol_at(l, m) && forall|n: int|
                k <= n < m ==> !#[trigger] quote_matches(l, n),
    decreases 4 - k,
{
    if k < 4 {
        lemma_symbol_from(l, k + 1);
        if quote_matches(l, k) {
            assert(kraken_symbol_from(l, k) == Some(symbol_at(l, k)));
        } else {
            assert(kraken_symbol_from(l, k) == kraken_symbol_from(l, k + 1));
            if exists|m: int| k <= m < 4 && #[trigger] quote_matches(l, m) {
                let m = choose|m: int| k <= m < 4 && #[trigger] quote_matches(l, m);
                assert(m != k);
                assert(exists|m2: int| k + 1 <= m2 < 4 && #[trigger] quote_matches(l, m2));
            }
            if let Some(sym) = kraken_symbol_from(l, k) {
                let m = choose|m: int|
                    k + 1 <= m < 4 && #[trigger] quote_matches(l, m) && sym == symbol_at(l, m)
                        && forall|n: int| k + 1 <= n < m ==> !#[trigger] quote_matches(l, n);
                assert forall|n: int| k <= n < m implies !#[trigger] quote_matches(l, n) by {}
            }
        }
    }
}

/// A pair has a Kraken symbol exactly when its lowercase form ends in one of
/// the known quote currencies (usdt, btc, usd, eur) with a non-empty base;
/// the symbol is then the uppercase base, `/`, and the uppercase quote, for
/// the first quote currency in that list that fits.
pub proof fn law_kraken_symbol_splits_first_quote(pair: Seq<char>)
    ensures
        ({
            let l = spec_to_lowercase(pair);
            &&& spec_kraken_symbol(pair) is Some <==> exists|m: int|
                0 <= m < 4 && #[trigger] quote_matches(l, m)
            &&& spec_kraken_symbol(pair) matches Some(sym) ==> exists|m: int|
                0 <= m < 4 && #[trigger] quote_matches(l, m) && sym == symbol_at(l, m) && forall|
                    n: int,
                | 0 <= n < m ==> !#[trigger] quote_matches(l, n)
        }),
{
    lemma_symbol_from(spec_to_lowercase(pair), 0);
}

/// Every wire level of `ws` parses.
pub open spec fn all_parse(ws: Seq<WireLevel>) -> bool {
    forall|k: int| 0 <= k < ws.len() ==> (#[trigger] spec_to_level(ws[k])) is Some
}

/// The level wire level `k` of `ws` stands for.
pub open spec fn wire_level(ws: Seq<WireLevel>, k: int) -> KrakenLevel {
    spec_to_level(ws[k])->0
}

/// Among the first `n` wire levels, none after `k` is at `k`'s price.
pub open spec fn last_at_its_price(ws: Seq<WireLevel>, k: int, n: int) -> bool {
    forall|j: int|
        k < j < n ==> !keys_float_eq(
            (#[trigger] wire_level(ws, j)).price.spec_key(),
            wire_level(ws, k).price.spec_key(),
        )
}

/// `x` was held and none of the first `n` wire levels is at its price.
pub open spec fn kept_level(s: Seq<KrakenLevel>, ws: Seq<WireLevel>, n: int, x: KrakenLevel) -> bool {
    &&& s.contains(x)
    &&& forall|k: int|
        0 <= k < n ==> !keys_float_eq(x.price.spec_key(), (#[trigger] wire_level(ws, k)).price.spec_key())
}

/// `x` is one of the first `n` wire levels, with a quantity, and the last of
/// them at its price.
pub open spec fn placed_level(ws: Seq<WireLevel>, n: int, x: KrakenLevel) -> bool {
    exists|k: int|
        0 <= k < n && x == #[trigger] wire_level(ws, k) && !key_is_zero(x.qty.spec_key())
            && last_at_its_price(ws, k, n)
}

/// Applying wire levels that all parse holds exactly the levels kept from
/// before and the levels placed by the wire.
proof fn lemma_apply_side_holds(s: Seq<KrakenLevel>, ws: Seq<WireLevel>, ascending: bool, n: int)
    requires
        0 <= n <= ws.len(),
        all_parse(ws),
    ensures
        spec_apply_side(s, ws.take(n), ascending).1,
        forall|x: KrakenLevel|
            #[trigger] spec_apply_side(s, ws.take(n), ascending).0.contains(x) <==> (kept_level(
                s,
                ws,
                n,
                x,
            ) || placed_level(ws, n, x)),
    decreases n,
{
    if n == 0 {
        assert(ws.take(0) =~= Seq::<WireLevel>::empty());
    } else {
        lemma_apply_side_holds(s, ws, ascending, n - 1);
        let t = ws.take(n);
        assert(t.drop_last() =~= ws.take(n - 1));
        assert(t.last() == ws[n - 1]);
        assert(spec_to_level(ws[n - 1]) is Some);
        let prev = spec_apply_side(s, ws.take(n - 1), ascending).0;
        let l = wire_level(ws, n - 1);
        law_kraken_upsert_replaces_price(prev, l, ascending);
        let r = spec_apply_side(s, t, ascending).0;
        assert(r == spec_upsert(prev, l, ascending));
        assert forall|x: KrakenLevel| #[trigger] r.contains(x) <==> (kept_level(s, ws, n, x)
            || placed_level(ws, n, x)) by {
            // Kept: kept before, and not at the new level's price.
            if kept_level(s, ws, n, x) {
                assert(!keys_float_eq(x.price.spec_key(), wire_level(ws, n - 1).price.spec_key()));
                assert(kept_level(s, ws, n - 1, x));
            }
            if kept_level(s, ws, n - 1, x) && !keys_float_eq(x.price.spec_key(), l.price.spec_key()) {
                assert forall|k: int| 0 <= k < n implies !keys_float_eq(
                    x.price.spec_key(),
                    (#[trigger] wire_level(ws, k)).price.spec_key(),
                ) by {
                    if k < n - 1 {
                        assert(!keys_float_eq(x.price.spec_key(), wire_level(ws, k).price.spec_key()));
                    }
                }
                assert(kept_level(s, ws, n, x));
            }
            // Placed: by the new level, or earlier and not at its price.
            if placed_level(ws, n, x) {
                let k = choose|k: int|
                    0 <= k < n && x == #[trigger] wire_level(ws, k) && !key_is_zero(x.qty.spec_key())
                        && last_at_its_price(ws, k, n);
                if k < n - 1 {
                    assert(!keys_float_eq(wire_level(ws, n - 1).price.spec_key(), wire_level(ws, k).price.spec_key()));
                    assert(!keys_float_eq(x.price.spec_key(), l.price.spec_key()));
                    assert(last_at_its_price(ws, k, n - 1));
                    assert(placed_level(ws, n - 1, x));
                }
            }
            if placed_level(ws, n - 1, x) && !keys_float_eq(x.price.spec_key(), l.price.spec_key()) {
                let k = choose|k: int|
                    0 <= k < n - 1 && x == #[trigger] wire_level(ws, k) && !key_is_zero(
                        x.qty.spec_key(),
                    ) && last_at_its_price(ws, k, n - 1);
                assert(!keys_float_eq(wire_level(ws, n - 1).price.spec_key(), wire_level(ws, k).price.spec_key()));
                assert(last_at_its_price(ws, k, n));
                assert(placed_level(ws, n, x));
            }
            if x == l && !key_is_zero(l.qty.spec_key()) {
                assert(last_at_its_price(ws, n - 1, n));
                assert(placed_level(ws, n, x));
            }
            if prev.contains(x) {
                assert(kept_level(s, ws, n - 1, x) || placed_level(ws, n - 1, x));
            }
        }
    }
}

/// Cutting a sorted side keeps levels it drops behind every level it keeps.
proof fn lemma_cut_keeps_best(u: Seq<KrakenLevel>, ascending: bool, x: KrakenLevel)
    requires
        side_sorted(u, ascending),
        u.contains(x),
    ensures
        truncated(u, DEPTH as nat).contains(x) || (truncated(u, DEPTH as nat).len() == DEPTH
            && forall|i: int|
            0 <= i < DEPTH ==> !level_before(x, #[trigger] truncated(u, DEPTH as nat)[i], ascending)),
{
    let t = truncated(u, DEPTH as nat);
    let m = choose|m: int| 0 <= m < u.len() && u[m] == x;
    if m < DEPTH {
        assert(t[m] == x);
    } else {
        assert forall|i: int| 0 <= i < DEPTH implies !level_before(x, #[trigger] t[i], ascending) by {
            assert(t[i] == u[i]);
        }
    }
}

/// An update whose levels all parse is applied level by level to both
/// sides: afterwards each side holds only levels it held before at a price
/// no changed level names, and each changed level with a quantity that is
/// the last change at its price — and every such level is held unless the
/// side is full of `DEPTH` levels at least as good. A zero quantity thus
/// removes its price; the asks follow the same rule as the bids.
pub proof fn law_kraken_update_applies_every_level(b: SpecBook, d: BookData)
    requires
        book_sorted(b),
        all_parse(d.bids@),
        all_parse(d.asks@),
    ensures
        ({
            let (nb, ok) = spec_apply_update(b, d);
            &&& ok
            &&& book_sorted(nb)
            &&& nb.0.len() <= DEPTH && nb.1.len() <= DEPTH
            &&& forall|x: KrakenLevel|
                #[trigger] nb.0.contains(x) ==> kept_level(b.0, d.bids@, d.bids@.len() as int, x)
                    || placed_level(d.bids@, d.bids@.len() as int, x)
            &&& forall|x: KrakenLevel|
                #[trigger] nb.1.contains(x) ==> kept_level(b.1, d.asks@, d.asks@.len() as int, x)
                    || placed_level(d.asks@, d.asks@.len() as int, x)
            &&& forall|x: KrakenLevel|
                kept_level(b.0, d.bids@, d.bids@.len() as int, x) || placed_level(
                    d.bids@,
                    d.bids@.len() as int,
                    x,
                ) ==> #[trigger] nb.0.contains(x) || (nb.0.len() == DEPTH && forall|i: int|
                    0 <= i < DEPTH ==> (#[trigger] nb.0[i]).price.spec_key() >= x.price.spec_key())
            &&& forall|x: KrakenLevel|
                kept_level(b.1, d.asks@, d.asks@.len() as int, x) || placed_level(
                    d.asks@,
                    d.asks@.len() as int,
                    x,
                ) ==> #[trigger] nb.1.contains(x) || (nb.1.len() == DEPTH && forall|i: int|
                    0 <= i < DEPTH ==> (#[trigger] nb.1[i]).price.spec_key() <= x.price.spec_key())
        }),
{
    let bn = d.bids@.len() as int;
    let an = d.asks@.len() as int;
    lemma_apply_side_holds(b.0, d.bids@, false, bn);
    lemma_apply_side_holds(b.1, d.asks@, true, an);
    assert(d.bids@.take(bn) =~= d.bids@);
    assert(d.asks@.take(an) =~= d.asks@);
    let ub = spec_apply_side(b.0, d.bids@, false).0;
    let ua = spec_apply_side(b.1, d.asks@, true).0;
    lemma_apply_side_sorted(b.0, d.bids@, false);
    lemma_apply_side_sorted(b.1, d.asks@, true);
    lemma_truncated_sorted(ub, DEPTH as nat, false);
    lemma_truncated_sorted(ua, DEPTH as nat, true);
    let nb = spec_apply_update(b, d).0;
    assert(nb.0 == truncated(ub, DEPTH as nat));
    assert(nb.1 == truncated(ua, DEPTH as nat));
    assert forall|x: KrakenLevel| #[trigger] nb.0.contains(x) implies ub.contains(x) by {
        let i = choose|i: int| 0 <= i < nb.0.len() && nb.0[i] == x;
        assert(ub[i] == x);
    }
    assert forall|x: KrakenLevel| #[trigger] nb.1.contains(x) implies ua.contains(x) by {
        let i = choose|i: int| 0 <= i < nb.1.len() && nb.1[i] == x;
        assert(ua[i] == x);
    }
    assert forall|x: KrakenLevel|
        kept_level(b.0, d.bids@, bn, x) || placed_level(d.bids@, bn, x) implies #[trigger] nb.0.contains(x)
        || (nb.0.len() == DEPTH && forall|i: int|
        0 <= i < DEPTH ==> (#[trigger] nb.0[i]).price.spec_key() >= x.price.spec_key()) by {
        assert(ub.contains(x));
        lemma_cut_keeps_best(ub, false, x);
    }
    assert forall|x: KrakenLevel|
        kept_level(b.1, d.asks@, an, x) || placed_level(d.asks@, an, x) implies #[trigger] nb.1.contains(x)
        || (nb.1.len() == DEPTH && forall|i: int|
        0 <= i < DEPTH ==> (#[trigger] nb.1[i]).price.spec_key() <= x.price.spec_key()) by {
        assert(ua.contains(x));
        lemma_cut_keeps_best(ua, true, x);
    }
}

} // verus!
