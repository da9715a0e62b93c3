//! Kraken WebSocket v2 `book` channel: the connect URL, the per-connection
//! subscribe message, and the book it keeps across messages.
//!
//! Kraken's `book` channel is snapshot-then-incremental: one `snapshot` on
//! subscribe, then `update` messages carrying only the changed levels, with
//! a quantity of zero meaning "remove this level". Producing a complete
//! `Book` therefore means holding the accumulated book across messages, and
//! checking it against the CRC32 checksum Kraken sends with every message.
//!
//! Parsing is order-dependent: feeding the same `update` twice applies its
//! delta twice.

use vstd::prelude::*;

use crate::exchange::Venue;
use crate::model::{key_is_zero, keys_float_eq, Amount, Book, Price};
use crate::text::{spec_to_lowercase, spec_to_uppercase, str_chars, string_from_chars, string_push, to_lowercase, to_uppercase};

verus! {

/// How many levels per side Kraken sends and this book keeps — matches the
/// `depth: 10` subscribed in `subscribe_message`.
pub const DEPTH: usize = 10;

/// One book level as accumulated: the parsed price and quantity (for
/// ordering and for the outward `Book`) and their exact wire text (for the
/// checksum, which works on Kraken's own digits).
pub struct KrakenLevel {
    pub price: Price,
    pub price_raw: String,
    pub qty: Amount,
    pub qty_raw: String,
}

/// The accumulated book: bids best (highest) first, asks best (lowest)
/// first.
pub struct KrakenBook {
    pub bids: Vec<KrakenLevel>,
    pub asks: Vec<KrakenLevel>,
}

/// A price/qty level as it arrives on the wire: the exact JSON text of each
/// token, and what that text parses to as a double (`None` when it does not
/// parse, e.g. a quoted string).
pub struct WireLevel {
    pub price_raw: String,
    pub qty_raw: String,
    pub price: Option<Price>,
    pub qty: Option<Amount>,
}

/// The payload of a `book` message.
pub struct BookData {
    pub bids: Vec<WireLevel>,
    pub asks: Vec<WireLevel>,
    pub checksum: u32,
}

/// A `channel: "book"` message: its `type` and its `data` array.
pub struct BookMessage {
    pub kind: String,
    pub data: Vec<BookData>,
}

/// The top-level shape of a Kraken message: its `channel` field (absent on
/// subscribe acks), and the message read as a `book` message (`None` when it
/// does not have that shape).
pub struct KrakenFrame {
    pub channel: Option<String>,
    pub book: Option<BookMessage>,
}

/// Kraken's venue state: the book accumulated so far, if any.
pub struct Kraken {
    book: Option<KrakenBook>,
}

/// The two sides of an accumulated book, bids then asks.
pub type SpecBook = (Seq<KrakenLevel>, Seq<KrakenLevel>);

/// `a` comes strictly before `b` in a side sorted ascending (asks) or
/// descending (bids) by price, by the total order on doubles.
pub open spec fn level_before(a: KrakenLevel, b: KrakenLevel, ascending: bool) -> bool {
    if ascending {
        a.price.spec_key() < b.price.spec_key()
    } else {
        a.price.spec_key() > b.price.spec_key()
    }
}

/// `s` with `x` inserted after every level that `x` does not come before.
pub open spec fn insert_sorted(s: Seq<KrakenLevel>, x: KrakenLevel, ascending: bool) -> Seq<
    KrakenLevel,
>
    decreases s.len(),
{
    if s.len() == 0 {
        seq![x]
    } else if level_before(x, s.last(), ascending) {
        insert_sorted(s.drop_last(), x, ascending).push(s.last())
    } else {
        s.push(x)
    }
}

/// `s` stably sorted by price: ascending or descending, levels of equal
/// price in the order they came in.
pub open spec fn sort_levels(s: Seq<KrakenLevel>, ascending: bool) -> Seq<KrakenLevel>
    decreases s.len(),
{
    if s.len() == 0 {
        s
    } else {
        insert_sorted(sort_levels(s.drop_last(), ascending), s.last(), ascending)
    }
}

/// The first `n` elements of `s`, or all of them if there are fewer
/// (`Vec::truncate`).
pub open spec fn truncated<A>(s: Seq<A>, n: nat) -> Seq<A> {
    if s.len() <= n {
        s
    } else {
        s.subrange(0, n as int)
    }
}

/// The level a wire level stands for, when both its tokens parse.
pub open spec fn spec_to_level(w: WireLevel) -> Option<KrakenLevel> {
    match (w.price, w.qty) {
        (Some(p), Some(q)) => Some(
            KrakenLevel { price: p, price_raw: w.price_raw, qty: q, qty_raw: w.qty_raw },
        ),
        _ => None,
    }
}

/// The levels of `ws`, when every one of them parses.
pub open spec fn spec_levels(ws: Seq<WireLevel>) -> Option<Seq<KrakenLevel>>
    decreases ws.len(),
{
    if ws.len() == 0 {
        Some(Seq::empty())
    } else {
        match (spec_levels(ws.drop_last()), spec_to_level(ws.last())) {
            (Some(s), Some(l)) => Some(s.push(l)),
            _ => None,
        }
    }
}

/// The book a snapshot builds: both sides parsed, sorted best first and cut
/// to `DEPTH`; `None` if any level fails to parse.
pub open spec fn spec_from_snapshot(d: BookData) -> Option<SpecBook> {
    match (spec_levels(d.bids@), spec_levels(d.asks@)) {
        (Some(b), Some(a)) => Some(
            (
                truncated(sort_levels(b, false), DEPTH as nat),
                truncated(sort_levels(a, true), DEPTH as nat),
            ),
        ),
        _ => None,
    }
}

/// The levels of `s` whose price is not equal (as doubles) to `price`.
pub open spec fn without_price(s: Seq<KrakenLevel>, price: Price) -> Seq<KrakenLevel>
    decreases s.len(),
{
    if s.len() == 0 {
        s
    } else {
        let rest = without_price(s.drop_last(), price);
        if keys_float_eq(s.last().price.spec_key(), price.spec_key()) {
            rest
        } else {
            rest.push(s.last())
        }
    }
}

/// One changed level applied to a side: any level at that price is
/// removed; the new level is added unless its quantity is zero; the side is
/// re-sorted.
pub open spec fn spec_upsert(s: Seq<KrakenLevel>, l: KrakenLevel, ascending: bool) -> Seq<
    KrakenLevel,
> {
    let kept = without_price(s, l.price);
    let added = if key_is_zero(l.qty.spec_key()) {
        kept
    } else {
        kept.push(l)
    };
    sort_levels(added, ascending)
}

/// The wire levels `ws` applied in order to side `s`; the flag is `false`
/// if a level failed to parse, in which case the side holds the levels
/// applied before it.
pub open spec fn spec_apply_side(s: Seq<KrakenLevel>, ws: Seq<WireLevel>, ascending: bool) -> (
    Seq<KrakenLevel>,
    bool,
)
    decreases ws.len(),
{
    if ws.len() == 0 {
        (s, true)
    } else {
        let (prev, ok) = spec_apply_side(s, ws.drop_last(), ascending);
        if !ok {
            (prev, false)
        } else {
            match spec_to_level(ws.last()) {
                Some(l) => (spec_upsert(prev, l, ascending), true),
                None => (prev, false),
            }
        }
    }
}

/// An update applied to a book: bids then asks, each change in order,
/// then both sides cut to `DEPTH`. The flag is `false` if a level failed to
/// parse; the changes before it stay applied, and the book is still cut to
/// `DEPTH` levels a side.
pub open spec fn spec_apply_update(b: SpecBook, d: BookData) -> (SpecBook, bool) {
    let (bids, bids_ok) = spec_apply_side(b.0, d.bids@, false);
    let (asks, asks_ok) = if bids_ok {
        spec_apply_side(b.1, d.asks@, true)
    } else {
        (b.1, false)
    };
    ((truncated(bids, DEPTH as nat), truncated(asks, DEPTH as nat)), bids_ok && asks_ok)
}

/// `s` with its leading `'0'` characters removed.
pub open spec fn trim_leading_zeros(s: Seq<char>) -> Seq<char>
    decreases s.len(),
{
    if s.len() > 0 && s[0] == '0' {
        trim_leading_zeros(s.drop_first())
    } else {
        s
    }
}

/// `s` without its `'.'` characters.
pub open spec fn without_dots(s: Seq<char>) -> Seq<char>
    decreases s.len(),
{
    if s.len() == 0 {
        s
    } else if s.last() == '.' {
        without_dots(s.drop_last())
    } else {
        without_dots(s.drop_last()).push(s.last())
    }
}

/// A wire decimal reduced to the digits Kraken's checksum uses: no `.`, no
/// leading zeros, and `"0"` if nothing is left.
pub open spec fn spec_strip(raw: Seq<char>) -> Seq<char> {
    let t = trim_leading_zeros(without_dots(raw));
    if t.len() == 0 {
        seq!['0']
    } else {
        t
    }
}

/// The checksum text of levels: each level's stripped price then stripped
/// quantity, in order.
pub open spec fn levels_text(s: Seq<KrakenLevel>) -> Seq<char>
    decreases s.len(),
{
    if s.len() == 0 {
        Seq::empty()
    } else {
        levels_text(s.drop_last()) + spec_strip(s.last().price_raw@) + spec_strip(
            s.last().qty_raw@,
        )
    }
}

/// The checksum text of a book: the top `DEPTH` asks, then the top `DEPTH`
/// bids.
pub open spec fn checksum_text(b: SpecBook) -> Seq<char> {
    levels_text(truncated(b.1, DEPTH as nat)) + levels_text(truncated(b.0, DEPTH as nat))
}

/// `k` more steps of the bitwise CRC-32 register shift with the reflected
/// IEEE polynomial `0xEDB88320`.
pub open spec fn crc32_shift(c: u32, k: nat) -> u32
    decreases k,
{
    if k == 0 {
        c
    } else {
        crc32_shift(
            if c & 1 == 1 {
                (c >> 1u32) ^ 0xEDB8_8320u32
            } else {
                c >> 1u32
            },
            (k - 1) as nat,
        )
    }
}

/// The CRC-32 register after feeding `data`, byte by byte, into `crc`.
pub open spec fn crc32_register(crc: u32, data: Seq<u8>) -> u32
    decreases data.len(),
{
    if data.len() == 0 {
        crc
    } else {
        crc32_shift(crc32_register(crc, data.drop_last()) ^ (data.last() as u32), 8)
    }
}

/// The CRC-32 (IEEE) checksum of `data`: the register starts all ones and
/// is inverted at the end.
pub open spec fn spec_crc32(data: Seq<u8>) -> u32 {
    !crc32_register(0xFFFF_FFFFu32, data)
}

/// Kraken's checksum of a book: the CRC32 of the UTF-8 of its checksum
/// text.
pub open spec fn spec_checksum(b: SpecBook) -> u32 {
    spec_crc32(vstd::utf8::encode_utf8(checksum_text(b)))
}

/// The price/amount pairs of a side, in order.
pub open spec fn model_side(s: Seq<KrakenLevel>) -> Seq<(Price, Amount)> {
    s.map_values(|l: KrakenLevel| (l.price, l.qty))
}

/// The held book after a `book` message, and the book published for it.
pub open spec fn spec_book_message(held: Option<SpecBook>, msg: BookMessage) -> (
    Option<SpecBook>,
    Option<SpecBook>,
) {
    if msg.data@.len() == 0 {
        (held, None)
    } else {
        let d = msg.data@[0];
        if msg.kind@ == "snapshot"@ {
            match spec_from_snapshot(d) {
                None => (held, None),
                Some(b) => if spec_checksum(b) != d.checksum {
                    (None, None)
                } else {
                    (Some(b), Some(b))
                },
            }
        } else if msg.kind@ == "update"@ {
            match held {
                None => (None, None),
                Some(h) => {
                    let (b, ok) = spec_apply_update(h, d);
                    if !ok {
                        (Some(b), None)
                    } else if spec_checksum(b) != d.checksum {
                        (None, None)
                    } else {
                        (Some(b), Some(b))
                    }
                },
            }
        } else {
            (held, None)
        }
    }
}

/// The held book after any message, and the book published for it: only a
/// `book` channel message can change either.
pub open spec fn spec_parse(held: Option<SpecBook>, frame: Option<KrakenFrame>) -> (
    Option<SpecBook>,
    Option<SpecBook>,
) {
    match frame {
        Some(f) => match f.channel {
            Some(c) => if c@ == "book"@ {
                match f.book {
                    Some(m) => spec_book_message(held, m),
                    None => (held, None),
                }
            } else {
                (held, None)
            },
            None => (held, None),
        },
        None => (held, None),
    }
}

/// The spec view of a held book.
pub open spec fn book_view(b: KrakenBook) -> SpecBook {
    (b.bids@, b.asks@)
}

/// The quote currencies a pair may end in, longest first.
pub open spec fn quote_suffixes() -> Seq<Seq<char>> {
    seq!["usdt"@, "btc"@, "usd"@, "eur"@]
}

/// Kraken's symbol for a concatenated pair: split off the first known quote
/// suffix (longest first) that leaves a non-empty base, and join the
/// uppercased parts with `/`.
pub open spec fn spec_kraken_symbol(pair: Seq<char>) -> Option<Seq<char>> {
    let lower = spec_to_lowercase(pair);
    kraken_symbol_from(lower, 0)
}

/// The symbol from the quote suffixes from index `k` on.
pub open spec fn kraken_symbol_from(lower: Seq<char>, k: int) -> Option<Seq<char>>
    decreases 4 - k,
{
    if k < 0 || k >= 4 {
        None
    } else {
        let suffix = quote_suffixes()[k];
        if lower.len() > suffix.len() && lower.subrange(lower.len() - suffix.len(), lower.len() as int)
            == suffix {
            Some(
                spec_to_uppercase(lower.subrange(0, lower.len() - suffix.len())) + "/"@
                    + spec_to_uppercase(suffix),
            )
        } else {
            kraken_symbol_from(lower, k + 1)
        }
    }
}

/// A copy of a level.
fn copy_level(l: &KrakenLevel) -> (r: KrakenLevel)
    ensures
        r == *l,
{
    KrakenLevel {
        price: l.price,
        price_raw: l.price_raw.clone(),
        qty: l.qty,
        qty_raw: l.qty_raw.clone(),
    }
}

/// The level a wire level stands for, when both its tokens parse.
fn to_level(w: &WireLevel) -> (r: Option<KrakenLevel>)
    ensures
        r == spec_to_level(*w),
{
    match (w.price, w.qty) {
        (Some(p), Some(q)) => Some(
            KrakenLevel {
                price: p,
                price_raw: w.price_raw.clone(),
                qty: q,
                qty_raw: w.qty_raw.clone(),
            },
        ),
        _ => None,
    }
}

/// `level_before`, computed.
fn before(a: &KrakenLevel, b: &KrakenLevel, ascending: bool) -> (r: bool)
    ensures
        r == level_before(*a, *b, ascending),
{
    if ascending {
        a.price.key() < b.price.key()
    } else {
        a.price.key() > b.price.key()
    }
}

/// Inserting at the position found from the back is `insert_sorted`.
proof fn lemma_insert_sorted_at(s: Seq<KrakenLevel>, x: KrakenLevel, ascending: bool, j: int)
    requires
        0 <= j <= s.len(),
        forall|k: int| j <= k < s.len() ==> level_before(x, #[trigger] s[k], ascending),
        j > 0 ==> !level_before(x, s[j - 1], ascending),
    ensures
        insert_sorted(s, x, ascending) == s.insert(j, x),
    decreases s.len(),
{
    if s.len() == 0 {
        assert(s.insert(j, x) =~= seq![x]);
    } else if s.len() == j {
        assert(s.insert(j, x) =~= s.push(x));
    } else {
        let d = s.drop_last();
        assert forall|k: int| j <= k < d.len() implies level_before(x, #[trigger] d[k], ascending) by {
            assert(d[k] == s[k]);
        }
        if j > 0 {
            assert(d[j - 1] == s[j - 1]);
        }
        lemma_insert_sorted_at(d, x, ascending, j);
        assert(level_before(x, s[s.len() - 1], ascending));
        assert(d.insert(j, x).push(s.last()) =~= s.insert(j, x));
    }
}

/// Inserts `x` into `v` after every level it does not come before.
fn insert_level(v: &mut Vec<KrakenLevel>, x: KrakenLevel, ascending: bool)
    ensures
        final(v)@ == insert_sorted(old(v)@, x, ascending),
{
    let mut j = v.len();
    while j > 0 && before(&x, &v[j - 1], ascending)
        invariant
            0 <= j <= v@.len(),
            v@ == old(v)@,
            forall|k: int| j <= k < v@.len() ==> level_before(x, #[trigger] v@[k], ascending),
        decreases j,
    {
        j = j - 1;
    }
    proof {
        lemma_insert_sorted_at(v@, x, ascending, j as int);
    }
    v.insert(j, x);
}

/// `s` stably sorted by price, best first for the side.
fn sorted_levels(s: &Vec<KrakenLevel>, ascending: bool) -> (r: Vec<KrakenLevel>)
    ensures
        r@ == sort_levels(s@, ascending),
{
    let mut r: Vec<KrakenLevel> = Vec::new();
    let mut i: usize = 0;
    assert(s@.take(0) =~= Seq::<KrakenLevel>::empty());
    while i < s.len()
        invariant
            0 <= i <= s@.len(),
            r@ == sort_levels(s@.take(i as int), ascending),
        decreases s@.len() - i,
    {
        let x = copy_level(&s[i]);
        proof {
            assert(s@.take(i + 1).drop_last() =~= s@.take(i as int));
            assert(s@.take(i + 1).last() == s@[i as int]);
        }
        insert_level(&mut r, x, ascending);
        i = i + 1;
    }
    assert(s@.take(s@.len() as int) =~= s@);
    r
}

/// Applies one changed level to a side: drops any level at that price,
/// adds the new one unless its quantity is zero, and re-sorts.
fn upsert(levels: &mut Vec<KrakenLevel>, level: KrakenLevel, ascending: bool)
    ensures
        final(levels)@ == spec_upsert(old(levels)@, level, ascending),
{
    let mut kept: Vec<KrakenLevel> = Vec::new();
    let mut i: usize = 0;
    assert(levels@.take(0) =~= Seq::<KrakenLevel>::empty());
    while i < levels.len()
        invariant
            0 <= i <= levels@.len(),
            levels@ == old(levels)@,
            kept@ == without_price(levels@.take(i as int), level.price),
        decreases levels@.len() - i,
    {
        proof {
            assert(levels@.take(i + 1).drop_last() =~= levels@.take(i as int));
            assert(levels@.take(i + 1).last() == levels@[i as int]);
        }
        if !(levels[i].price == level.price) {
            kept.push(copy_level(&levels[i]));
        }
        i = i + 1;
    }
    assert(levels@.take(levels@.len() as int) =~= levels@);
    if !level.qty.is_zero() {
        kept.push(level);
    }
    *levels = sorted_levels(&kept, ascending);
}

/// The levels of `ws`, or `None` if any fails to parse.
fn levels_from_wire(ws: &Vec<WireLevel>) -> (r: Option<Vec<KrakenLevel>>)
    ensures
        r is None <==> spec_levels(ws@) is None,
        r matches Some(v) ==> spec_levels(ws@) == Some(v@),
{
    let mut out: Vec<KrakenLevel> = Vec::new();
    let mut i: usize = 0;
    assert(ws@.take(0) =~= Seq::<WireLevel>::empty());
    while i < ws.len()
        invariant
            0 <= i <= ws@.len(),
            spec_levels(ws@.take(i as int)) == Some(out@),
        decreases ws@.len() - i,
    {
        proof {
            assert(ws@.take(i + 1).drop_last() =~= ws@.take(i as int));
            assert(ws@.take(i + 1).last() == ws@[i as int]);
        }
        match to_level(&ws[i]) {
            Some(l) => {
                out.push(l);
            },
            None => {
                proof {
                    lemma_levels_none_extends(ws@, i as int + 1);
                }
                return None;
            },
        }
        i = i + 1;
    }
    assert(ws@.take(ws@.len() as int) =~= ws@);
    Some(out)
}

/// Once a prefix of wire levels fails to parse, every longer one does.
proof fn lemma_levels_none_extends(ws: Seq<WireLevel>, k: int)
    requires
        0 <= k <= ws.len(),
        spec_levels(ws.take(k)) is None,
    ensures
        spec_levels(ws) is None,
    decreases ws.len() - k,
{
    if k < ws.len() {
        assert(ws.take(k + 1).drop_last() =~= ws.take(k));
        lemma_levels_none_extends(ws, k + 1);
    } else {
        assert(ws.take(k) =~= ws);
    }
}

/// Once applying a prefix of wire levels fails, applying every longer one
/// fails the same way.
proof fn lemma_apply_fail_extends(
    s: Seq<KrakenLevel>,
    ws: Seq<WireLevel>,
    ascending: bool,
    k: int,
)
    requires
        0 <= k <= ws.len(),
        !spec_apply_side(s, ws.take(k), ascending).1,
    ensures
        spec_apply_side(s, ws, ascending) == spec_apply_side(s, ws.take(k), ascending),
    decreases ws.len() - k,
{
    if k < ws.len() {
        assert(ws.take(k + 1).drop_last() =~= ws.take(k));
        lemma_apply_fail_extends(s, ws, ascending, k + 1);
    } else {
        assert(ws.take(k) =~= ws);
    }
}

/// Applies the wire levels `ws` in order to `side`; stops at the first one
/// that fails to parse, keeping what was applied before it.
fn apply_side(side: &mut Vec<KrakenLevel>, ws: &Vec<WireLevel>, ascending: bool) -> (ok: bool)
    ensures
        (final(side)@, ok) == spec_apply_side(old(side)@, ws@, ascending),
{
    let mut i: usize = 0;
    assert(ws@.take(0) =~= Seq::<WireLevel>::empty());
    while i < ws.len()
        invariant
            0 <= i <= ws@.len(),
            spec_apply_side(old(side)@, ws@.take(i as int), ascending) == (side@, true),
        decreases ws@.len() - i,
    {
        proof {
            assert(ws@.take(i + 1).drop_last() =~= ws@.take(i as int));
            assert(ws@.take(i + 1).last() == ws@[i as int]);
        }
        match to_level(&ws[i]) {
            Some(l) => {
                upsert(side, l, ascending);
            },
            None => {
                proof {
                    lemma_apply_fail_extends(old(side)@, ws@, ascending, i as int + 1);
                }
                return false;
            },
        }
        i = i + 1;
    }
    assert(ws@.take(ws@.len() as int) =~= ws@);
    true
}

/// Reduces wire decimal text to the form Kraken's checksum expects: no
/// `.`, no leading zeros, but never empty (a value of exactly zero keeps one
/// `'0'`). Works on the wire text itself, so trailing zeros survive.
pub fn strip_for_checksum(raw: &str) -> (r: String)
    ensures
        r@ == spec_strip(raw@),
{
    let cs = str_chars(raw);
    let mut no_dot: Vec<char> = Vec::new();
    let mut i: usize = 0;
    assert(cs@.take(0) =~= Seq::<char>::empty());
    while i < cs.len()
        invariant
            0 <= i <= cs@.len(),
            no_dot@ == without_dots(cs@.take(i as int)),
        decreases cs@.len() - i,
    {
        proof {
            assert(cs@.take(i + 1).drop_last() =~= cs@.take(i as int));
            assert(cs@.take(i + 1).last() == cs@[i as int]);
        }
        if cs[i] != '.' {
            no_dot.push(cs[i]);
        }
        i = i + 1;
    }
    assert(cs@.take(cs@.len() as int) =~= cs@);
    let mut start: usize = 0;
    assert(no_dot@.skip(0) =~= no_dot@);
    while start < no_dot.len() && no_dot[start] == '0'
        invariant
            0 <= start <= no_dot@.len(),
            trim_leading_zeros(no_dot@.skip(start as int)) == trim_leading_zeros(no_dot@),
        decreases no_dot@.len() - start,
    {
        assert(no_dot@.skip(start as int).drop_first() =~= no_dot@.skip(start + 1));
        start = start + 1;
    }
    let mut out = String::new();
    if start == no_dot.len() {
        assert(no_dot@.skip(start as int) =~= Seq::<char>::empty());
        string_push(&mut out, '0');
        return out;
    }
    assert(trim_leading_zeros(no_dot@.skip(start as int)) == no_dot@.skip(start as int));
    let mut k = start;
    while k < no_dot.len()
        invariant
            start <= k <= no_dot@.len(),
            out@ == no_dot@.subrange(start as int, k as int),
        decreases no_dot@.len() - k,
    {
        string_push(&mut out, no_dot[k]);
        k = k + 1;
        assert(no_dot@.subrange(start as int, k as int) =~= no_dot@.subrange(
            start as int,
            k - 1,
        ).push(no_dot@[k - 1]));
    }
    assert(no_dot@.subrange(start as int, no_dot@.len() as int) =~= no_dot@.skip(start as int));
    out
}

/// `crc32fast::hash`: the CRC-32 (IEEE) checksum of `data`, which the
/// crate documents and computes with the reflected polynomial `0xEDB88320`.
#[verifier::external_body]
fn crc32_hash(data: &[u8]) -> (r: u32)
    ensures
        r == spec_crc32(data@),
{
    crc32fast::hash(data)
}

/// Appends the checksum text of the first `DEPTH` levels of `levels`.
fn push_levels_text(buf: &mut String, levels: &Vec<KrakenLevel>)
    ensures
        final(buf)@ == old(buf)@ + levels_text(truncated(levels@, DEPTH as nat)),
{
    let n = if levels.len() < DEPTH {
        levels.len()
    } else {
        DEPTH
    };
    let ghost t = truncated(levels@, DEPTH as nat);
    assert(t.len() == n);
    let mut i: usize = 0;
    assert(t.take(0) =~= Seq::<KrakenLevel>::empty());
    while i < n
        invariant
            0 <= i <= n,
            n <= levels@.len(),
            t == truncated(levels@, DEPTH as nat),
            t.len() == n,
            forall|k: int| 0 <= k < n ==> t[k] == levels@[k],
            buf@ == old(buf)@ + levels_text(t.take(i as int)),
        decreases n - i,
    {
        proof {
            assert(t.take(i + 1).drop_last() =~= t.take(i as int));
            assert(t.take(i + 1).last() == levels@[i as int]);
        }
        let p = strip_for_checksum(levels[i].price_raw.as_str());
        let q = strip_for_checksum(levels[i].qty_raw.as_str());
        buf.append(p.as_str());
        buf.append(q.as_str());
        i = i + 1;
    }
    assert(t.take(n as int) =~= t);
}

/// Kraken's own checksum over the top `DEPTH` levels of each side: top
/// asks, then top bids, each level's stripped price digits then stripped
/// quantity digits, concatenated and CRC32'd.
pub fn compute_checksum(book: &KrakenBook) -> (r: u32)
    ensures
        r == spec_checksum(book_view(*book)),
{
    let mut buf = String::new();
    push_levels_text(&mut buf, &book.asks);
    push_levels_text(&mut buf, &book.bids);
    assert(buf@ =~= checksum_text(book_view(*book)));
    crc32_hash(buf.as_str().as_bytes())
}

impl KrakenBook {
    /// Builds a fresh book from a `snapshot` message's levels: both sides
    /// sorted best first and cut to `DEPTH`. `None` if any level fails to
    /// parse.
    pub fn from_snapshot(data: &BookData) -> (r: Option<KrakenBook>)
        ensures
            r is None <==> spec_from_snapshot(*data) is None,
            r matches Some(b) ==> spec_from_snapshot(*data) == Some(book_view(b)),
    {
        let bids = match levels_from_wire(&data.bids) {
            Some(b) => b,
            None => return None,
        };
        let asks = match levels_from_wire(&data.asks) {
            Some(a) => a,
            None => return None,
        };
        let mut bids = sorted_levels(&bids, false);
        let mut asks = sorted_levels(&asks, true);
        bids.truncate(DEPTH);
        asks.truncate(DEPTH);
        Some(KrakenBook { bids, asks })
    }

    /// Applies an `update` message's changed levels in place: a zero
    /// quantity removes that price; anything else replaces or adds it. Both
    /// sides are then cut to `DEPTH`. `None` if a level fails to parse, with
    /// the levels before it already applied and the book still cut to
    /// `DEPTH` levels a side.
    pub fn apply_update(&mut self, data: &BookData) -> (r: Option<()>)
        ensures
            (book_view(*final(self)), r is Some) == spec_apply_update(book_view(*old(self)), *data),
    {
        let bids_ok = apply_side(&mut self.bids, &data.bids, false);
        let ok = if bids_ok {
            apply_side(&mut self.asks, &data.asks, true)
        } else {
            false
        };
        self.bids.truncate(DEPTH);
        self.asks.truncate(DEPTH);
        if ok {
            Some(())
        } else {
            None
        }
    }

    /// The exchange-agnostic `Book` of this book's levels, with no update
    /// sequence number (Kraken has none).
    pub fn to_model_book(&self) -> (b: Book)
        ensures
            b.bids@ == model_side(self.bids@),
            b.asks@ == model_side(self.asks@),
            b.last_update_id == 0,
    {
        Book {
            bids: model_levels(&self.bids),
            asks: model_levels(&self.asks),
            last_update_id: 0,
        }
    }
}

/// The price/amount pairs of a side.
fn model_levels(s: &Vec<KrakenLevel>) -> (r: Vec<(Price, Amount)>)
    ensures
        r@ == model_side(s@),
{
    let mut r: Vec<(Price, Amount)> = Vec::new();
    let mut i: usize = 0;
    while i < s.len()
        invariant
            0 <= i <= s@.len(),
            r@ == model_side(s@.take(i as int)),
        decreases s@.len() - i,
    {
        r.push((s[i].price, s[i].qty));
        i = i + 1;
        assert(model_side(s@.take(i as int)) =~= model_side(s@.take(i - 1)).push(
            (s@[i - 1].price, s@[i - 1].qty),
        ));
    }
    assert(s@.take(s@.len() as int) =~= s@);
    r
}

impl Kraken {
    /// The book held so far, if any.
    pub closed spec fn held(&self) -> Option<SpecBook> {
        match self.book {
            Some(b) => Some(book_view(b)),
            None => None,
        }
    }

    /// A Kraken venue with no book held yet.
    pub fn new() -> (k: Kraken)
        ensures
            k.held() is None,
    {
        Kraken { book: None }
    }

    /// Which venue this is.
    pub fn venue(&self) -> (v: Venue)
        ensures
            v == Venue::Kraken,
    {
        Venue::Kraken
    }

    /// Kraken's v2 endpoint has nothing pair-specific in the path.
    pub fn connect_url(&self, _pair: &str) -> (url: String)
        ensures
            url@ == "wss://ws.kraken.com/v2"@,
    {
        String::from_str("wss://ws.kraken.com/v2")
    }

    /// The per-connection subscribe message for `pair`'s book at depth 10;
    /// `None` if `pair` ends in no known quote currency.
    pub fn subscribe_message(&self, pair: &str) -> (msg: Option<String>)
        ensures
            msg is None <==> spec_kraken_symbol(pair@) is None,
            msg matches Some(m) ==> m@
                == "{\"method\":\"subscribe\",\"params\":{\"channel\":\"book\",\"symbol\":[\""@
                + spec_kraken_symbol(pair@)->0 + "\"],\"depth\":10}}"@,
    {
        let symbol = match to_kraken_symbol(pair) {
            Some(s) => s,
            None => return None,
        };
        let mut m = String::from_str(
            "{\"method\":\"subscribe\",\"params\":{\"channel\":\"book\",\"symbol\":[\"",
        );
        m.append(symbol.as_str());
        m.append("\"],\"depth\":10}}");
        Some(m)
    }

    /// Reads one message. Only a `channel: "book"` message matters: a
    /// `snapshot` replaces the held book wholesale, an `update` patches it;
    /// either is published only when Kraken's checksum matches, and a
    /// mismatch clears the held book. Everything else — heartbeats, status,
    /// subscribe acks, malformed text — gives `None` and leaves the held
    /// book as it was.
    pub fn parse(&mut self, frame: Option<KrakenFrame>) -> (r: Option<Book>)
        ensures
            final(self).held() == spec_parse(old(self).held(), frame).0,
            r is None <==> spec_parse(old(self).held(), frame).1 is None,
            r matches Some(b) ==> ({
                let p = spec_parse(old(self).held(), frame).1->0;
                &&& b.bids@ == model_side(p.0)
                &&& b.asks@ == model_side(p.1)
                &&& b.last_update_id == 0
            }),
    {
        let f = match frame {
            Some(f) => f,
            None => return None,
        };
        let channel = match f.channel {
            Some(c) => c,
            None => return None,
        };
        if !is_book_channel(channel.as_str()) {
            return None;
        }
        match f.book {
            Some(m) => self.parse_book_message(m),
            None => None,
        }
    }

    fn parse_book_message(&mut self, msg: BookMessage) -> (r: Option<Book>)
        ensures
            final(self).held() == spec_book_message(old(self).held(), msg).0,
            r is None <==> spec_book_message(old(self).held(), msg).1 is None,
            r matches Some(b) ==> ({
                let p = spec_book_message(old(self).held(), msg).1->0;
                &&& b.bids@ == model_side(p.0)
                &&& b.asks@ == model_side(p.1)
                &&& b.last_update_id == 0
            }),
    {
        if msg.data.len() == 0 {
            return None;
        }
        let data = &msg.data[0];
        if is_text(msg.kind.as_str(), "snapshot") {
            let book = match KrakenBook::from_snapshot(data) {
                Some(b) => b,
                None => return None,
            };
            if compute_checksum(&book) != data.checksum {
                self.book = None;
                return None;
            }
            let model = book.to_model_book();
            self.book = Some(book);
            Some(model)
        } else if is_text(msg.kind.as_str(), "update") {
            let mut book = match self.book.take() {
                Some(b) => b,
                None => return None,
            };
            if book.apply_update(data).is_none() {
                self.book = Some(book);
                return None;
            }
            if compute_checksum(&book) != data.checksum {
                return None;
            }
            let model = book.to_model_book();
            self.book = Some(book);
            Some(model)
        } else {
            None
        }
    }
}

/// Whether `s` is exactly `lit`.
fn is_text(s: &str, lit: &str) -> (r: bool)
    ensures
        r == (s@ == lit@),
{
    let a = str_chars(s);
    let b = str_chars(lit);
    if a.len() != b.len() {
        return false;
    }
    let mut i: usize = 0;
    while i < a.len()
        invariant
            0 <= i <= a@.len(),
            a@.len() == b@.len(),
            a@ == s@,
            b@ == lit@,
            forall|k: int| 0 <= k < i ==> a@[k] == b@[k],
        decreases a@.len() - i,
    {
        if a[i] != b[i] {
            return false;
        }
        i = i + 1;
    }
    assert(a@ =~= b@);
    true
}

/// Whether a channel name is `"book"`.
fn is_book_channel(c: &str) -> (r: bool)
    ensures
        r == (c@ == "book"@),
{
    is_text(c, "book")
}

/// Whether `s` ends with `suffix` and is longer than it.
fn ends_with_longer(s: &Vec<char>, suffix: &Vec<char>) -> (r: bool)
    ensures
        r == (s@.len() > suffix@.len() && s@.subrange(s@.len() - suffix@.len(), s@.len() as int)
            == suffix@),
{
    if s.len() <= suffix.len() {
        return false;
    }
    let slen = s.len();
    let off = slen - suffix.len();
    let mut i: usize = 0;
    while i < suffix.len()
        invariant
            0 <= i <= suffix@.len(),
            off == s@.len() - suffix@.len(),
            s@.len() > suffix@.len(),
            slen == s@.len(),
            forall|k: int| 0 <= k < i ==> s@[off + k] == suffix@[k],
        decreases suffix@.len() - i,
    {
        if s[off + i] != suffix[i] {
            assert(s@.subrange(off as int, s@.len() as int)[i as int] != suffix@[i as int]);
            return false;
        }
        i = i + 1;
    }
    assert(s@.subrange(off as int, s@.len() as int) =~= suffix@);
    true
}

/// Converts a concatenated pair token (e.g. `"ethbtc"`) into Kraken's
/// slash-separated uppercase symbol (e.g. `"ETH/BTC"`). `None` if no known
/// quote currency (usdt, btc, usd, eur — longest first) ends it with a
/// non-empty base left over.
pub fn to_kraken_symbol(pair: &str) -> (r: Option<String>)
    ensures
        r is None <==> spec_kraken_symbol(pair@) is None,
        r matches Some(s) ==> spec_kraken_symbol(pair@) == Some(s@),
{
    let lower = to_lowercase(pair);
    let lc = str_chars(lower.as_str());
    let suffixes: [&str; 4] = ["usdt", "btc", "usd", "eur"];
    let mut k: usize = 0;
    assert(kraken_symbol_from(lower@, 0) == spec_kraken_symbol(pair@));
    while k < 4
        invariant
            0 <= k <= 4,
            lc@ == lower@,
            suffixes@ == seq!["usdt", "btc", "usd", "eur"],
            kraken_symbol_from(lower@, k as int) == spec_kraken_symbol(pair@),
        decreases 4 - k,
    {
        let suffix = suffixes[k];
        proof {
            reveal_strlit("usdt");
            reveal_strlit("btc");
            reveal_strlit("usd");
            reveal_strlit("eur");
            assert(suffix@ == quote_suffixes()[k as int]);
        }
        let sc = str_chars(suffix);
        if ends_with_longer(&lc, &sc) {
            let base_len = lc.len() - sc.len();
            let base = string_from_chars(slice_prefix(&lc, base_len).as_slice());
            let mut out = to_uppercase(base.as_str());
            string_push(&mut out, '/');
            let up = to_uppercase(suffix);
            out.append(up.as_str());
            proof {
                reveal_strlit("/");
            }
            assert(out@ =~= spec_to_uppercase(lower@.subrange(0, lower@.len() - suffix@.len())) + "/"@
                + spec_to_uppercase(suffix@));
            return Some(out);
        }
        k = k + 1;
    }
    None
}

/// The first `n` characters of `s`.
fn slice_prefix(s: &Vec<char>, n: usize) -> (r: Vec<char>)
    requires
        n <= s@.len(),
    ensures
        r@ == s@.subrange(0, n as int),
{
    let mut r: Vec<char> = Vec::new();
    let mut i: usize = 0;
    while i < n
        invariant
            0 <= i <= n,
            n <= s@.len(),
            r@ == s@.subrange(0, i as int),
        decreases n - i,
    {
        r.push(s[i]);
        i = i + 1;
        assert(s@.subrange(0, i as int) =~= s@.subrange(0, i - 1).push(s@[i - 1]));
    }
    r
}

} // verus!
