//! What holds of every merge: each merged side comes out best first, holds
//! as many levels as there are (up to `TOP_N`), and — when every venue's own
//! list is best first — takes a prefix of each venue's list, leaving out no
//! level that would beat one it took, and breaks ties in venue order — it is
//! the first `TOP_N` levels of a stable sort of all venues' levels in venue
//! order; and a merged book exists exactly when some venue has a bid and
//! some an ask.

use vstd::prelude::*;

use crate::exchange::Venue;
use crate::merge::{
    any_live, head, is_pick, level_of, live, merge_from, precedes, side_lists, start_pos, Level,
    Side, TOP_N, spec_merge, spec_merge_side, ties, venue_seq, venues_ranked,
};
use crate::exchange::venue_rank;
use crate::model::{Amount, Book, Price};

verus! {

/// `l` is best first on `side`: no level comes strictly before an earlier
/// one.
pub open spec fn best_first(side: Side, l: Seq<(Price, Amount)>) -> bool {
    forall|i: int, j: int| 0 <= i < j < l.len() ==> !precedes(side, #[trigger] l[j], #[trigger] l[i])
}

/// The price and amount of a published level.
pub open spec fn level_pair(l: Level) -> (Price, Amount) {
    (l.price, l.amount)
}

/// The levels `out` are best first on `side`.
pub open spec fn levels_best_first(side: Side, out: Seq<Level>) -> bool {
    forall|i: int, j: int|
        0 <= i < j < out.len() ==> !precedes(
            side,
            level_pair(#[trigger] out[j]),
            level_pair(#[trigger] out[i]),
        )
}

/// How many levels the first `k` lists hold from their cursors on.
pub open spec fn remaining(lists: Seq<Seq<(Price, Amount)>>, pos: Seq<int>, k: int) -> int
    decreases k,
{
    if k <= 0 {
        0
    } else {
        remaining(lists, pos, k - 1) + (lists[k - 1].len() - pos[k - 1])
    }
}

/// How many levels all venues hold on `side`.
pub open spec fn total_levels(side: Side, venues: Seq<(Venue, &Book)>) -> int {
    remaining(side_lists(side, venues), start_pos(venues.len()), venues.len() as int)
}

/// The price/amount pairs, in order, of the levels in `out` that came from
/// venue `v`.
pub open spec fn from_venue(out: Seq<Level>, v: Venue) -> Seq<(Price, Amount)>
    decreases out.len(),
{
    if out.len() == 0 {
        Seq::empty()
    } else {
        let rest = from_venue(out.drop_first(), v);
        if out[0].exchange == v {
            seq![level_pair(out[0])] + rest
        } else {
            rest
        }
    }
}

/// Cursors that lie within their lists.
pub open spec fn cursors_in_range(lists: Seq<Seq<(Price, Amount)>>, pos: Seq<int>) -> bool {
    &&& pos.len() == lists.len()
    &&& forall|i: int| 0 <= i < lists.len() ==> 0 <= #[trigger] pos[i] <= lists[i].len()
}

/// When some cursor is live, the merge's first level is the pick's head.
proof fn lemma_first_is_pick(
    side: Side,
    vs: Seq<Venue>,
    lists: Seq<Seq<(Price, Amount)>>,
    pos: Seq<int>,
    n: nat,
) -> (p: int)
    requires
        n > 0,
        any_live(lists, pos),
    ensures
        is_pick(side, lists, pos, p),
        merge_from(side, vs, lists, pos, n) == seq![level_of(vs[p], head(lists, pos, p))]
            + merge_from(side, vs, lists, pos.update(p, pos[p] + 1), (n - 1) as nat),
{
    let w = choose|i: int| 0 <= i < lists.len() && #[trigger] live(lists, pos, i);
    lemma_pick_exists(side, lists, pos, w);
    choose|i: int| is_pick(side, lists, pos, i)
}

/// Among the first `k` lists, if any is live, one is the pick among them.
pub open spec fn is_pick_upto(
    side: Side,
    lists: Seq<Seq<(Price, Amount)>>,
    pos: Seq<int>,
    k: int,
    b: int,
) -> bool {
    &&& 0 <= b < k
    &&& live(lists, pos, b)
    &&& forall|j: int|
        0 <= j < k && live(lists, pos, j) ==> !precedes(
            side,
            #[trigger] head(lists, pos, j),
            head(lists, pos, b),
        )
    &&& forall|j: int|
        0 <= j < b && live(lists, pos, j) ==> precedes(
            side,
            head(lists, pos, b),
            #[trigger] head(lists, pos, j),
        )
}

proof fn lemma_pick_upto_exists(
    side: Side,
    lists: Seq<Seq<(Price, Amount)>>,
    pos: Seq<int>,
    k: int,
)
    requires
        0 <= k <= lists.len(),
    ensures
        (exists|j: int| 0 <= j < k && #[trigger] live(lists, pos, j)) ==> exists|b: int|
            is_pick_upto(side, lists, pos, k, b),
    decreases k,
{
    if k > 0 {
        lemma_pick_upto_exists(side, lists, pos, k - 1);
        if exists|j: int| 0 <= j < k - 1 && #[trigger] live(lists, pos, j) {
            let km = k - 1;
            let b = choose|b: int| is_pick_upto(side, lists, pos, km, b);
            if live(lists, pos, k - 1) && precedes(side, head(lists, pos, k - 1), head(lists, pos, b)) {
                assert(is_pick_upto(side, lists, pos, k, k - 1));
            } else {
                assert(is_pick_upto(side, lists, pos, k, b));
            }
        } else if live(lists, pos, k - 1) {
            assert(is_pick_upto(side, lists, pos, k, k - 1));
        }
    }
}

/// A live cursor means some list is the pick.
proof fn lemma_pick_exists(side: Side, lists: Seq<Seq<(Price, Amount)>>, pos: Seq<int>, w: int)
    requires
        0 <= w < lists.len(),
        live(lists, pos, w),
    ensures
        exists|i: int| is_pick(side, lists, pos, i),
{
    lemma_pick_upto_exists(side, lists, pos, lists.len() as int);
    let n = lists.len() as int;
    let b = choose|b: int| is_pick_upto(side, lists, pos, n, b);
    assert(is_pick(side, lists, pos, b));
}

/// Every list is best first on `side`.
pub open spec fn all_best_first(side: Side, lists: Seq<Seq<(Price, Amount)>>) -> bool {
    forall|i: int| 0 <= i < lists.len() ==> best_first(side, #[trigger] lists[i])
}

/// From any cursors, the merge of best-first lists is best first.
proof fn lemma_merge_from_best_first(
    side: Side,
    vs: Seq<Venue>,
    lists: Seq<Seq<(Price, Amount)>>,
    pos: Seq<int>,
    n: nat,
)
    requires
        all_best_first(side, lists),
        cursors_in_range(lists, pos),
    ensures
        levels_best_first(side, merge_from(side, vs, lists, pos, n)),
    decreases n,
{
    let out = merge_from(side, vs, lists, pos, n);
    if n > 0 && any_live(lists, pos) {
        let p = lemma_first_is_pick(side, vs, lists, pos, n);
        let pos2 = pos.update(p, pos[p] + 1);
        let rest = merge_from(side, vs, lists, pos2, (n - 1) as nat);
        lemma_merge_from_best_first(side, vs, lists, pos2, (n - 1) as nat);
        let x = head(lists, pos, p);
        if rest.len() > 0 {
            let q = lemma_first_is_pick(side, vs, lists, pos2, (n - 1) as nat);
            let y = head(lists, pos2, q);
            if q == p {
                assert(lists[p][pos[p]] == x);
                assert(lists[p][pos[p] + 1] == y);
                assert(best_first(side, lists[p]));
                assert(!precedes(side, y, x));
            } else {
                assert(y == head(lists, pos, q));
                assert(live(lists, pos, q));
                assert(!precedes(side, y, x));
            }
            assert(level_pair(rest[0]) == y);
        }
        assert forall|i: int, j: int| 0 <= i < j < out.len() implies !precedes(
            side,
            level_pair(#[trigger] out[j]),
            level_pair(#[trigger] out[i]),
        ) by {
            assert(out[j] == rest[j - 1]);
            if i == 0 {
                assert(out[0] == level_of(vs[p], x));
                if j > 1 {
                    assert(!precedes(side, level_pair(rest[j - 1]), level_pair(rest[0])));
                }
            } else {
                assert(out[i] == rest[i - 1]);
            }
        }
    }
}

/// Each merged side of venues whose own lists are best first comes out best
/// first.
pub proof fn law_merge_side_best_first(side: Side, venues: Seq<(Venue, &Book)>)
    requires
        all_best_first(side, side_lists(side, venues)),
    ensures
        levels_best_first(side, spec_merge_side(side, venues)),
{
    let lists = side_lists(side, venues);
    let pos = start_pos(venues.len());
    assert(cursors_in_range(lists, pos));
    lemma_merge_from_best_first(side, venue_seq(venues), lists, pos, TOP_N as nat);
}

/// Advancing one live cursor leaves one level fewer.
proof fn lemma_remaining_advance(
    lists: Seq<Seq<(Price, Amount)>>,
    pos: Seq<int>,
    p: int,
    k: int,
)
    requires
        0 <= p < lists.len() == pos.len(),
        0 <= k <= lists.len(),
    ensures
        remaining(lists, pos.update(p, pos[p] + 1), k) == remaining(lists, pos, k) - (if p < k {
            1int
        } else {
            0int
        }),
    decreases k,
{
    if k > 0 {
        lemma_remaining_advance(lists, pos, p, k - 1);
    }
}

/// Within range, levels remain exactly when some cursor is live.
proof fn lemma_remaining_live(lists: Seq<Seq<(Price, Amount)>>, pos: Seq<int>, k: int)
    requires
        cursors_in_range(lists, pos),
        0 <= k <= lists.len(),
    ensures
        remaining(lists, pos, k) >= 0,
        remaining(lists, pos, k) > 0 <==> exists|i: int| 0 <= i < k && #[trigger] live(lists, pos, i),
    decreases k,
{
    if k > 0 {
        lemma_remaining_live(lists, pos, k - 1);
        if live(lists, pos, k - 1) {
            assert(exists|i: int| 0 <= i < k && #[trigger] live(lists, pos, i));
        } else {
            if exists|i: int| 0 <= i < k && #[trigger] live(lists, pos, i) {
                let i = choose|i: int| 0 <= i < k && #[trigger] live(lists, pos, i);
                assert(i < k - 1);
            }
        }
    }
}

/// From any cursors, the merge takes `n` levels or every remaining one,
/// whichever is fewer.
proof fn lemma_merge_from_len(
    side: Side,
    vs: Seq<Venue>,
    lists: Seq<Seq<(Price, Amount)>>,
    pos: Seq<int>,
    n: nat,
)
    requires
        cursors_in_range(lists, pos),
    ensures
        merge_from(side, vs, lists, pos, n).len() == vstd::math::min(
            n as int,
            remaining(lists, pos, lists.len() as int),
        ),
    decreases n,
{
    let k = lists.len() as int;
    lemma_remaining_live(lists, pos, k);
    if n > 0 && any_live(lists, pos) {
        let p = lemma_first_is_pick(side, vs, lists, pos, n);
        let pos2 = pos.update(p, pos[p] + 1);
        lemma_merge_from_len(side, vs, lists, pos2, (n - 1) as nat);
        lemma_remaining_advance(lists, pos, p, k);
    } else if n > 0 {
        assert(!exists|i: int| 0 <= i < k && #[trigger] live(lists, pos, i));
    }
}

/// Each merged side holds `TOP_N` levels, or every level all venues hold on
/// that side if there are fewer.
pub proof fn law_merge_side_len(side: Side, venues: Seq<(Venue, &Book)>)
    ensures
        spec_merge_side(side, venues).len() == vstd::math::min(
            TOP_N as int,
            total_levels(side, venues),
        ),
{
    let lists = side_lists(side, venues);
    let pos = start_pos(venues.len());
    assert(cursors_in_range(lists, pos));
    lemma_merge_from_len(side, venue_seq(venues), lists, pos, TOP_N as nat);
}

/// No venue occurs twice.
pub open spec fn distinct_venues(venues: Seq<(Venue, &Book)>) -> bool {
    forall|i: int, j: int| 0 <= i < j < venues.len() ==> venues[i].0 != venues[j].0
}

/// The first level taken from each list, then the rest: `from_venue` splits
/// over the first level.
proof fn lemma_from_venue_cons(x: Level, rest: Seq<Level>, v: Venue)
    ensures
        from_venue(seq![x] + rest, v) == if x.exchange == v {
            seq![level_pair(x)] + from_venue(rest, v)
        } else {
            from_venue(rest, v)
        },
{
    let out = seq![x] + rest;
    assert(out.drop_first() == rest);
    assert(out[0] == x);
}

/// From any cursors over best-first lists of distinct venues, the merge
/// takes from each list the levels right after its cursor, and every level
/// of a list past what it took is no better than any level taken.
proof fn lemma_merge_from_prefix(
    side: Side,
    vs: Seq<Venue>,
    lists: Seq<Seq<(Price, Amount)>>,
    pos: Seq<int>,
    n: nat,
)
    requires
        all_best_first(side, lists),
        cursors_in_range(lists, pos),
        vs.len() == lists.len(),
        forall|i: int, j: int| 0 <= i < j < vs.len() ==> vs[i] != vs[j],
    ensures
        ({
            let out = merge_from(side, vs, lists, pos, n);
            forall|i: int|
                0 <= i < lists.len() ==> {
                    let t = #[trigger] from_venue(out, vs[i]);
                    &&& pos[i] + t.len() <= lists[i].len()
                    &&& t == lists[i].subrange(pos[i], pos[i] + t.len())
                    &&& forall|m: int, k: int|
                        pos[i] + t.len() <= m < lists[i].len() && 0 <= k < out.len() ==> !precedes(
                            side,
                            #[trigger] lists[i][m],
                            level_pair(#[trigger] out[k]),
                        )
                }
        }),
    decreases n,
{
    let out = merge_from(side, vs, lists, pos, n);
    if n > 0 && any_live(lists, pos) {
        let p = lemma_first_is_pick(side, vs, lists, pos, n);
        let pos2 = pos.update(p, pos[p] + 1);
        let rest = merge_from(side, vs, lists, pos2, (n - 1) as nat);
        let x = level_of(vs[p], head(lists, pos, p));
        lemma_merge_from_prefix(side, vs, lists, pos2, (n - 1) as nat);
        assert forall|i: int| 0 <= i < lists.len() implies {
            let t = #[trigger] from_venue(out, vs[i]);
            &&& pos[i] + t.len() <= lists[i].len()
            &&& t == lists[i].subrange(pos[i], pos[i] + t.len())
            &&& forall|m: int, k: int|
                pos[i] + t.len() <= m < lists[i].len() && 0 <= k < out.len() ==> !precedes(
                    side,
                    #[trigger] lists[i][m],
                    level_pair(#[trigger] out[k]),
                )
        } by {
            lemma_from_venue_cons(x, rest, vs[i]);
            let t = from_venue(out, vs[i]);
            let t2 = from_venue(rest, vs[i]);
            assert(t2 == lists[i].subrange(pos2[i], pos2[i] + t2.len()));
            if i == p {
                assert(t == seq![level_pair(x)] + t2);
                assert(t =~= lists[i].subrange(pos[i], pos[i] + t.len()));
            } else {
                assert(vs[i] != vs[p]);
                assert(t == t2);
            }
            assert forall|m: int, k: int|
                pos[i] + t.len() <= m < lists[i].len() && 0 <= k < out.len() implies !precedes(
                side,
                #[trigger] lists[i][m],
                level_pair(#[trigger] out[k]),
            ) by {
                if k > 0 {
                    assert(out[k] == rest[k - 1]);
                } else {
                    assert(out[0] == x);
                    assert(best_first(side, lists[i]));
                    if i == p {
                        assert(!precedes(side, lists[i][m], lists[i][pos[i]]));
                    } else {
                        assert(live(lists, pos, i));
                        assert(!precedes(side, head(lists, pos, i), head(lists, pos, p)));
                        if m > pos[i] {
                            assert(!precedes(side, lists[i][m], lists[i][pos[i]]));
                        }
                    }
                }
            }
        }
    } else {
        assert forall|i: int| 0 <= i < lists.len() implies {
            let t = #[trigger] from_venue(out, vs[i]);
            &&& pos[i] + t.len() <= lists[i].len()
            &&& t == lists[i].subrange(pos[i], pos[i] + t.len())
        } by {
            assert(from_venue(out, vs[i]) == Seq::<(Price, Amount)>::empty());
            assert(lists[i].subrange(pos[i], pos[i]) =~= Seq::<(Price, Amount)>::empty());
        }
    }
}

/// When every venue's own list on `side` is best first, the merged side
/// takes a prefix of each venue's list (in that list's order), and no level
/// it leaves out comes before any level it took: it holds the best levels of
/// all venues together.
pub proof fn law_merge_side_takes_best(side: Side, venues: Seq<(Venue, &Book)>)
    requires
        all_best_first(side, side_lists(side, venues)),
        distinct_venues(venues),
    ensures
        ({
            let out = spec_merge_side(side, venues);
            let lists = side_lists(side, venues);
            forall|i: int|
                0 <= i < venues.len() ==> {
                    let t = #[trigger] from_venue(out, venues[i].0);
                    &&& t.len() <= lists[i].len()
                    &&& t == lists[i].subrange(0, t.len() as int)
                    &&& forall|m: int, k: int|
                        t.len() <= m < lists[i].len() && 0 <= k < out.len() ==> !precedes(
                            side,
                            #[trigger] lists[i][m],
                            level_pair(#[trigger] out[k]),
                        )
                }
        }),
{
    let lists = side_lists(side, venues);
    let pos = start_pos(venues.len());
    let vs = venue_seq(venues);
    assert(cursors_in_range(lists, pos));
    lemma_merge_from_prefix(side, vs, lists, pos, TOP_N as nat);
    let out = spec_merge_side(side, venues);
    assert forall|i: int| 0 <= i < venues.len() implies {
        let t = #[trigger] from_venue(out, venues[i].0);
        &&& t.len() <= lists[i].len()
        &&& t == lists[i].subrange(0, t.len() as int)
        &&& forall|m: int, k: int|
            t.len() <= m < lists[i].len() && 0 <= k < out.len() ==> !precedes(
                side,
                #[trigger] lists[i][m],
                level_pair(#[trigger] out[k]),
            )
    } by {
        assert(vs[i] == venues[i].0);
        assert(pos[i] == 0);
    }
}

/// With every cursor of the first `k` lists at the start, what they hold is
/// never negative, and positive exactly when one of them is non-empty.
proof fn lemma_remaining_from_start(lists: Seq<Seq<(Price, Amount)>>, k: int)
    requires
        0 <= k <= lists.len(),
    ensures
        remaining(lists, start_pos(lists.len()), k) >= 0,
        remaining(lists, start_pos(lists.len()), k) > 0 <==> exists|i: int|
            0 <= i < k && #[trigger] lists[i].len() > 0,
    decreases k,
{
    if k > 0 {
        lemma_remaining_from_start(lists, k - 1);
        let pos = start_pos(lists.len());
        assert(pos[k - 1] == 0);
        if lists[k - 1].len() > 0 {
            assert(exists|i: int| 0 <= i < k && #[trigger] lists[i].len() > 0);
        }
        if exists|i: int| 0 <= i < k && #[trigger] lists[i].len() > 0 {
            let i = choose|i: int| 0 <= i < k && #[trigger] lists[i].len() > 0;
            if i < k - 1 {
                assert(exists|j: int| 0 <= j < k - 1 && #[trigger] lists[j].len() > 0);
            }
        }
    }
}

/// A merged book exists exactly when some venue has a bid and some venue
/// has an ask; then each side holds `TOP_N` levels, or all that the venues
/// hold on it if there are fewer.
pub proof fn law_merge_exists_iff_two_sided(venues: Seq<(Venue, &Book)>)
    ensures
        spec_merge(venues) is Some <==> ((exists|i: int|
            0 <= i < venues.len() && #[trigger] venues[i].1.bids@.len() > 0) && (exists|j: int|
            0 <= j < venues.len() && #[trigger] venues[j].1.asks@.len() > 0)),
        spec_merge(venues) matches Some(m) ==> {
            &&& m.0.len() == vstd::math::min(TOP_N as int, total_levels(Side::Bid, venues))
            &&& m.1.len() == vstd::math::min(TOP_N as int, total_levels(Side::Ask, venues))
        },
{
    law_merge_side_len(Side::Bid, venues);
    law_merge_side_len(Side::Ask, venues);
    let bl = side_lists(Side::Bid, venues);
    let al = side_lists(Side::Ask, venues);
    lemma_remaining_from_start(bl, venues.len() as int);
    lemma_remaining_from_start(al, venues.len() as int);
    assert forall|i: int| 0 <= i < venues.len() implies bl[i].len() == venues[i].1.bids@.len()
        && al[i].len() == venues[i].1.asks@.len() by {}
    if exists|i: int| 0 <= i < venues.len() && #[trigger] venues[i].1.bids@.len() > 0 {
        let i = choose|i: int| 0 <= i < venues.len() && #[trigger] venues[i].1.bids@.len() > 0;
        assert(bl[i].len() > 0);
    }
    if exists|i: int| 0 <= i < venues.len() && #[trigger] venues[i].1.asks@.len() > 0 {
        let i = choose|i: int| 0 <= i < venues.len() && #[trigger] venues[i].1.asks@.len() > 0;
        assert(al[i].len() > 0);
    }
    if exists|i: int| 0 <= i < venues.len() && #[trigger] bl[i].len() > 0 {
        let i = choose|i: int| 0 <= i < venues.len() && #[trigger] bl[i].len() > 0;
        assert(venues[i].1.bids@.len() > 0);
    }
    if exists|i: int| 0 <= i < venues.len() && #[trigger] al[i].len() > 0 {
        let i = choose|i: int| 0 <= i < venues.len() && #[trigger] al[i].len() > 0;
        assert(venues[i].1.asks@.len() > 0);
    }
}

/// Every level the merge takes from cursors `pos` is a level of some list at
/// or after that list's cursor, published under that list's venue.
proof fn lemma_merge_from_members(
    side: Side,
    vs: Seq<Venue>,
    lists: Seq<Seq<(Price, Amount)>>,
    pos: Seq<int>,
    n: nat,
)
    requires
        cursors_in_range(lists, pos),
        vs.len() == lists.len(),
    ensures
        forall|k: int|
            0 <= k < merge_from(side, vs, lists, pos, n).len() ==> exists|q: int, m: int|
                0 <= q < lists.len() && pos[q] <= m < lists[q].len() && #[trigger] merge_from(
                    side,
                    vs,
                    lists,
                    pos,
                    n,
                )[k] == level_of(vs[q], lists[q][m]),
    decreases n,
{
    let out = merge_from(side, vs, lists, pos, n);
    if n > 0 && any_live(lists, pos) {
        let p = lemma_first_is_pick(side, vs, lists, pos, n);
        let pos2 = pos.update(p, pos[p] + 1);
        let rest = merge_from(side, vs, lists, pos2, (n - 1) as nat);
        lemma_merge_from_members(side, vs, lists, pos2, (n - 1) as nat);
        assert forall|k: int| 0 <= k < out.len() implies exists|q: int, m: int|
            0 <= q < lists.len() && pos[q] <= m < lists[q].len() && #[trigger] out[k] == level_of(
                vs[q],
                lists[q][m],
            ) by {
            if k == 0 {
                assert(out[0] == level_of(vs[p], lists[p][pos[p]]));
            } else {
                assert(out[k] == rest[k - 1]);
                let (q, m) = choose|q: int, m: int|
                    0 <= q < lists.len() && pos2[q] <= m < lists[q].len() && #[trigger] rest[k - 1]
                        == level_of(vs[q], lists[q][m]);
                assert(pos[q] <= m);
            }
        }
    }
}

/// The venues are in strictly increasing rank.
pub open spec fn vs_ranked(vs: Seq<Venue>) -> bool {
    forall|i: int, j: int| 0 <= i < j < vs.len() ==> venue_rank(#[trigger] vs[i]) < venue_rank(#[trigger] vs[j])
}

/// From any cursors over best-first lists of venues in rank order, levels
/// that tie (same price and amount) are taken in venue order: within the
/// merged side, and against any level a list still holds past what was
/// taken from it.
proof fn lemma_merge_from_ties(
    side: Side,
    vs: Seq<Venue>,
    lists: Seq<Seq<(Price, Amount)>>,
    pos: Seq<int>,
    n: nat,
)
    requires
        all_best_first(side, lists),
        cursors_in_range(lists, pos),
        vs.len() == lists.len(),
        vs_ranked(vs),
    ensures
        ({
            let out = merge_from(side, vs, lists, pos, n);
            &&& forall|a: int, b: int|
                0 <= a < b < out.len() && ties(level_pair(#[trigger] out[a]), level_pair(#[trigger] out[b]))
                    ==> venue_rank(out[a].exchange) <= venue_rank(out[b].exchange)
            &&& forall|i: int, m: int, k: int|
                0 <= i < lists.len() && pos[i] + from_venue(out, vs[i]).len() <= m < lists[i].len()
                    && 0 <= k < out.len() && ties(#[trigger] lists[i][m], level_pair(#[trigger] out[k]))
                    ==> venue_rank(out[k].exchange) <= venue_rank(vs[i])
        }),
    decreases n,
{
    let out = merge_from(side, vs, lists, pos, n);
    assert(forall|i: int, j: int| 0 <= i < j < vs.len() ==> vs[i] != vs[j]) by {
        assert forall|i: int, j: int| 0 <= i < j < vs.len() implies vs[i] != vs[j] by {
            assert(venue_rank(vs[i]) < venue_rank(vs[j]));
        }
    }
    if n > 0 && any_live(lists, pos) {
        let p = lemma_first_is_pick(side, vs, lists, pos, n);
        let pos2 = pos.update(p, pos[p] + 1);
        let rest = merge_from(side, vs, lists, pos2, (n - 1) as nat);
        let x = level_of(vs[p], head(lists, pos, p));
        lemma_merge_from_ties(side, vs, lists, pos2, (n - 1) as nat);
        lemma_merge_from_members(side, vs, lists, pos2, (n - 1) as nat);
        lemma_merge_from_prefix(side, vs, lists, pos2, (n - 1) as nat);
        assert(out[0] == x);
        // A level at or after list `q`'s cursor that ties the pick comes
        // from a list no earlier than the pick's.
        assert forall|q: int, m: int|
            0 <= q < lists.len() && pos[q] <= m < lists[q].len() && ties(
                #[trigger] lists[q][m],
                level_pair(x),
            ) implies p <= q by {
            if q < p {
                assert(live(lists, pos, q));
                assert(precedes(side, head(lists, pos, p), head(lists, pos, q)));
                assert(best_first(side, lists[q]));
                if m > pos[q] {
                    assert(!precedes(side, lists[q][m], lists[q][pos[q]]));
                }
            }
        }
        assert forall|a: int, b: int|
            0 <= a < b < out.len() && ties(level_pair(#[trigger] out[a]), level_pair(#[trigger] out[b]))
                implies venue_rank(out[a].exchange) <= venue_rank(out[b].exchange) by {
            assert(out[b] == rest[b - 1]);
            if a == 0 {
                let (q, m) = choose|q: int, m: int|
                    0 <= q < lists.len() && pos2[q] <= m < lists[q].len() && #[trigger] rest[b - 1]
                        == level_of(vs[q], lists[q][m]);
                assert(pos[q] <= m);
                assert(ties(lists[q][m], level_pair(x)));
                if p < q {
                    assert(venue_rank(vs[p]) < venue_rank(vs[q]));
                }
            } else {
                assert(out[a] == rest[a - 1]);
            }
        }
        assert forall|i: int, m: int, k: int|
            0 <= i < lists.len() && pos[i] + from_venue(out, vs[i]).len() <= m < lists[i].len()
                && 0 <= k < out.len() && ties(#[trigger] lists[i][m], level_pair(#[trigger] out[k]))
                implies venue_rank(out[k].exchange) <= venue_rank(vs[i]) by {
            lemma_from_venue_cons(x, rest, vs[i]);
            let t = from_venue(out, vs[i]);
            let t2 = from_venue(rest, vs[i]);
            if i == p {
                assert(t == seq![level_pair(x)] + t2);
            } else {
                assert(vs[i] != vs[p]);
                assert(t == t2);
            }
            assert(pos2[i] + t2.len() == pos[i] + t.len());
            if k == 0 {
                assert(ties(lists[i][m], level_pair(x)));
                if p < i {
                    assert(venue_rank(vs[p]) < venue_rank(vs[i]));
                }
            } else {
                assert(out[k] == rest[k - 1]);
            }
        }
    }
}

/// When every venue's own list is best first and the venues come in
/// declaration order, levels that tie (same price and amount) are taken in
/// venue order: a tied level of an earlier venue comes first in the merged
/// side, and one the merge leaves out never ties a taken level of a later
/// venue.
pub proof fn law_merge_side_ties_by_venue(side: Side, venues: Seq<(Venue, &Book)>)
    requires
        all_best_first(side, side_lists(side, venues)),
        venues_ranked(venues),
    ensures
        ({
            let out = spec_merge_side(side, venues);
            let lists = side_lists(side, venues);
            &&& forall|a: int, b: int|
                0 <= a < b < out.len() && ties(level_pair(#[trigger] out[a]), level_pair(#[trigger] out[b]))
                    ==> venue_rank(out[a].exchange) <= venue_rank(out[b].exchange)
            &&& forall|i: int, m: int, k: int|
                0 <= i < venues.len() && from_venue(out, venues[i].0).len() <= m < lists[i].len()
                    && 0 <= k < out.len() && ties(#[trigger] lists[i][m], level_pair(#[trigger] out[k]))
                    ==> venue_rank(out[k].exchange) <= venue_rank(venues[i].0)
        }),
{
    let lists = side_lists(side, venues);
    let pos = start_pos(venues.len());
    let vs = venue_seq(venues);
    assert(cursors_in_range(lists, pos));
    assert(vs_ranked(vs)) by {
        assert forall|i: int, j: int| 0 <= i < j < vs.len() implies venue_rank(#[trigger] vs[i])
            < venue_rank(#[trigger] vs[j]) by {
            assert(vs[i] == venues[i].0 && vs[j] == venues[j].0);
        }
    }
    lemma_merge_from_ties(side, vs, lists, pos, TOP_N as nat);
    let out = spec_merge_side(side, venues);
    assert forall|i: int, m: int, k: int|
        0 <= i < venues.len() && from_venue(out, venues[i].0).len() <= m < lists[i].len() && 0 <= k
            < out.len() && ties(#[trigger] lists[i][m], level_pair(#[trigger] out[k])) implies venue_rank(
        out[k].exchange,
    ) <= venue_rank(venues[i].0) by {
        assert(vs[i] == venues[i].0);
        assert(pos[i] == 0);
    }
}

/// `a` comes strictly before `b` on `side`, by price and amount.
pub open spec fn level_precedes(side: Side, a: Level, b: Level) -> bool {
    precedes(side, level_pair(a), level_pair(b))
}

/// `s` with `x` inserted after every level that `x` does not come strictly
/// before.
pub open spec fn insert_stable(side: Side, s: Seq<Level>, x: Level) -> Seq<Level>
    decreases s.len(),
{
    if s.len() == 0 {
        seq![x]
    } else if level_precedes(side, x, s.last()) {
        insert_stable(side, s.drop_last(), x).push(s.last())
    } else {
        s.push(x)
    }
}

/// `xs` stably sorted best first on `side`: levels that tie keep their
/// order in `xs`.
pub open spec fn stable_sort(side: Side, xs: Seq<Level>) -> Seq<Level>
    decreases xs.len(),
{
    if xs.len() == 0 {
        xs
    } else {
        insert_stable(side, stable_sort(side, xs.drop_last()), xs.last())
    }
}

/// The first `n` elements of `s`, or all of them if there are fewer.
pub open spec fn first_n(s: Seq<Level>, n: nat) -> Seq<Level> {
    if s.len() <= n {
        s
    } else {
        s.take(n as int)
    }
}

/// The levels of list `l`, published under venue `v`.
pub open spec fn venue_levels(v: Venue, l: Seq<(Price, Amount)>) -> Seq<Level> {
    l.map_values(|x: (Price, Amount)| level_of(v, x))
}

/// The levels of lists `lo` to `hi` (exclusive) from their cursors on,
/// concatenated in list order.
pub open spec fn concat_range(
    vs: Seq<Venue>,
    lists: Seq<Seq<(Price, Amount)>>,
    pos: Seq<int>,
    lo: int,
    hi: int,
) -> Seq<Level>
    decreases hi - lo,
{
    if hi <= lo {
        Seq::empty()
    } else {
        concat_range(vs, lists, pos, lo, hi - 1) + venue_levels(vs[hi - 1], lists[hi - 1].skip(pos[hi - 1]))
    }
}

/// Every level of all venues on `side`, venue by venue in order, each
/// venue's levels in its own order.
pub open spec fn all_levels(side: Side, venues: Seq<(Venue, &Book)>) -> Seq<Level> {
    concat_range(venue_seq(venues), side_lists(side, venues), start_pos(venues.len()), 0, venues.len() as int)
}

/// Inserting a level that comes strictly before every level puts it first.
proof fn lemma_insert_front(side: Side, s: Seq<Level>, x: Level)
    requires
        forall|k: int| 0 <= k < s.len() ==> level_precedes(side, x, #[trigger] s[k]),
    ensures
        insert_stable(side, s, x) == seq![x] + s,
    decreases s.len(),
{
    if s.len() > 0 {
        assert(level_precedes(side, x, s[s.len() - 1]));
        let d = s.drop_last();
        assert forall|k: int| 0 <= k < d.len() implies level_precedes(side, x, #[trigger] d[k]) by {
            assert(d[k] == s[k]);
        }
        lemma_insert_front(side, d, x);
        assert((seq![x] + d).push(s.last()) =~= seq![x] + s);
    } else {
        assert(seq![x] + s =~= seq![x]);
    }
}

/// Inserting behind a first level that the new one does not beat leaves
/// that first level in front.
proof fn lemma_insert_behind(side: Side, x: Level, r: Seq<Level>, y: Level)
    requires
        !level_precedes(side, y, x),
    ensures
        insert_stable(side, seq![x] + r, y) == seq![x] + insert_stable(side, r, y),
    decreases r.len(),
{
    let s = seq![x] + r;
    if r.len() == 0 {
        assert(s =~= seq![x]);
        assert(s.last() == x);
        assert(s.push(y) =~= seq![x] + seq![y]);
    } else {
        assert(s.last() == r.last());
        assert(s.drop_last() =~= seq![x] + r.drop_last());
        lemma_insert_behind(side, x, r.drop_last(), y);
        if level_precedes(side, y, r.last()) {
            assert((seq![x] + insert_stable(side, r.drop_last(), y)).push(r.last()) =~= seq![x]
                + insert_stable(side, r.drop_last(), y).push(r.last()));
        } else {
            assert(s.push(y) =~= seq![x] + r.push(y));
        }
    }
}

/// Inserting keeps every level and adds the new one.
proof fn lemma_insert_stable_multiset(side: Side, s: Seq<Level>, x: Level)
    ensures
        insert_stable(side, s, x).to_multiset() =~= s.to_multiset().insert(x),
    decreases s.len(),
{
    broadcast use vstd::seq_lib::group_to_multiset_ensures;

    if s.len() > 0 && level_precedes(side, x, s.last()) {
        let d = s.drop_last();
        lemma_insert_stable_multiset(side, d, x);
        assert(d.push(s.last()) =~= s);
    }
}

/// Sorting keeps exactly the levels sorted.
proof fn lemma_stable_sort_multiset(side: Side, xs: Seq<Level>)
    ensures
        stable_sort(side, xs).to_multiset() =~= xs.to_multiset(),
    decreases xs.len(),
{
    broadcast use vstd::seq_lib::group_to_multiset_ensures;

    if xs.len() > 0 {
        let d = xs.drop_last();
        lemma_stable_sort_multiset(side, d);
        lemma_insert_stable_multiset(side, stable_sort(side, d), xs.last());
        assert(d.push(xs.last()) =~= xs);
    }
}

/// A level that nothing beats, and that beats every level before it, comes
/// first in the stable sort; the rest is the stable sort of the others.
proof fn lemma_stable_sort_first(side: Side, xs: Seq<Level>, i: int)
    requires
        0 <= i < xs.len(),
        forall|k: int| 0 <= k < xs.len() ==> !level_precedes(side, #[trigger] xs[k], xs[i]),
        forall|k: int| 0 <= k < i ==> level_precedes(side, xs[i], #[trigger] xs[k]),
    ensures
        stable_sort(side, xs) == seq![xs[i]] + stable_sort(side, xs.remove(i)),
    decreases xs.len(),
{
    broadcast use vstd::seq_lib::group_to_multiset_ensures;

    let x = xs[i];
    let d = xs.drop_last();
    if i == xs.len() - 1 {
        let sd = stable_sort(side, d);
        lemma_stable_sort_multiset(side, d);
        assert forall|k: int| 0 <= k < sd.len() implies level_precedes(side, x, #[trigger] sd[k]) by {
            assert(sd.to_multiset().count(sd[k]) > 0);
            assert(d.contains(sd[k]));
            let j = choose|j: int| 0 <= j < d.len() && d[j] == sd[k];
            assert(d[j] == xs[j]);
        }
        lemma_insert_front(side, sd, x);
        assert(xs.remove(i) =~= d);
        assert(xs.last() == x);
    } else {
        assert forall|k: int| 0 <= k < d.len() implies !level_precedes(side, #[trigger] d[k], d[i]) by {
            assert(d[k] == xs[k]);
        }
        assert forall|k: int| 0 <= k < i implies level_precedes(side, d[i], #[trigger] d[k]) by {
            assert(d[k] == xs[k]);
        }
        lemma_stable_sort_first(side, d, i);
        let y = xs.last();
        assert(!level_precedes(side, y, x)) by {
            assert(xs[xs.len() - 1] == y);
        }
        lemma_insert_behind(side, x, stable_sort(side, d.remove(i)), y);
        let e = xs.remove(i);
        assert(e.drop_last() =~= d.remove(i));
        assert(e.last() == y);
        assert(d[i] == x);
    }
}

/// The concatenation splits at any list in between.
proof fn lemma_concat_split(
    vs: Seq<Venue>,
    lists: Seq<Seq<(Price, Amount)>>,
    pos: Seq<int>,
    lo: int,
    mid: int,
    hi: int,
)
    requires
        lo <= mid <= hi,
    ensures
        concat_range(vs, lists, pos, lo, hi) == concat_range(vs, lists, pos, lo, mid) + concat_range(
            vs,
            lists,
            pos,
            mid,
            hi,
        ),
    decreases hi - mid,
{
    if hi == mid {
        assert(concat_range(vs, lists, pos, lo, mid) + Seq::<Level>::empty() =~= concat_range(
            vs,
            lists,
            pos,
            lo,
            mid,
        ));
    } else {
        lemma_concat_split(vs, lists, pos, lo, mid, hi - 1);
        assert(concat_range(vs, lists, pos, lo, mid) + concat_range(vs, lists, pos, mid, hi - 1)
            + venue_levels(vs[hi - 1], lists[hi - 1].skip(pos[hi - 1])) =~= concat_range(
            vs,
            lists,
            pos,
            lo,
            mid,
        ) + (concat_range(vs, lists, pos, mid, hi - 1) + venue_levels(
            vs[hi - 1],
            lists[hi - 1].skip(pos[hi - 1]),
        )));
    }
}

/// Cursors that agree on lists `lo` to `hi` give the same concatenation.
proof fn lemma_concat_same(
    vs: Seq<Venue>,
    lists: Seq<Seq<(Price, Amount)>>,
    pos: Seq<int>,
    pos2: Seq<int>,
    lo: int,
    hi: int,
)
    requires
        forall|q: int| lo <= q < hi ==> pos[q] == pos2[q],
    ensures
        concat_range(vs, lists, pos, lo, hi) == concat_range(vs, lists, pos2, lo, hi),
    decreases hi - lo,
{
    if hi > lo {
        lemma_concat_same(vs, lists, pos, pos2, lo, hi - 1);
    }
}

/// Every level of the concatenation is a level of one of its lists, at or
/// after that list's cursor, under that list's venue.
proof fn lemma_concat_members(
    vs: Seq<Venue>,
    lists: Seq<Seq<(Price, Amount)>>,
    pos: Seq<int>,
    lo: int,
    hi: int,
)
    requires
        0 <= lo,
        hi <= lists.len(),
        cursors_in_range(lists, pos),
    ensures
        forall|k: int|
            0 <= k < concat_range(vs, lists, pos, lo, hi).len() ==> exists|q: int, m: int|
                lo <= q < hi && pos[q] <= m < lists[q].len() && #[trigger] concat_range(
                    vs,
                    lists,
                    pos,
                    lo,
                    hi,
                )[k] == level_of(vs[q], lists[q][m]),
    decreases hi - lo,
{
    if hi > lo {
        lemma_concat_members(vs, lists, pos, lo, hi - 1);
        let a = concat_range(vs, lists, pos, lo, hi - 1);
        let q = hi - 1;
        let b = venue_levels(vs[q], lists[q].skip(pos[q]));
        let c = concat_range(vs, lists, pos, lo, hi);
        assert(c == a + b);
        assert forall|k: int| 0 <= k < c.len() implies exists|q2: int, m: int|
            lo <= q2 < hi && pos[q2] <= m < lists[q2].len() && #[trigger] c[k] == level_of(
                vs[q2],
                lists[q2][m],
            ) by {
            if k < a.len() {
                assert(c[k] == a[k]);
                let (q2, m) = choose|q2: int, m: int|
                    lo <= q2 < hi - 1 && pos[q2] <= m < lists[q2].len() && #[trigger] a[k] == level_of(
                        vs[q2],
                        lists[q2][m],
                    );
            } else {
                let j = k - a.len();
                assert(c[k] == b[j]);
                assert(b[j] == level_of(vs[q], lists[q][pos[q] + j]));
            }
        }
    }
}

/// From any cursors over best-first lists, the merge takes the first `n`
/// levels of the stable sort of what the lists hold from their cursors on,
/// in list order.
proof fn lemma_merge_from_stable_sort(
    side: Side,
    vs: Seq<Venue>,
    lists: Seq<Seq<(Price, Amount)>>,
    pos: Seq<int>,
    n: nat,
)
    requires
        all_best_first(side, lists),
        cursors_in_range(lists, pos),
        vs.len() == lists.len(),
    ensures
        merge_from(side, vs, lists, pos, n) == first_n(
            stable_sort(side, concat_range(vs, lists, pos, 0, lists.len() as int)),
            n,
        ),
    decreases n,
{
    let len = lists.len() as int;
    let c = concat_range(vs, lists, pos, 0, len);
    lemma_concat_members(vs, lists, pos, 0, len);
    if n > 0 && any_live(lists, pos) {
        let p = lemma_first_is_pick(side, vs, lists, pos, n);
        let pos2 = pos.update(p, pos[p] + 1);
        let x = level_of(vs[p], head(lists, pos, p));
        lemma_merge_from_stable_sort(side, vs, lists, pos2, (n - 1) as nat);
        let a = concat_range(vs, lists, pos, 0, p);
        let sp = venue_levels(vs[p], lists[p].skip(pos[p]));
        let b = concat_range(vs, lists, pos, p + 1, len);
        lemma_concat_split(vs, lists, pos, 0, p, len);
        lemma_concat_split(vs, lists, pos, p, p + 1, len);
        assert(concat_range(vs, lists, pos, p, p + 1) =~= sp) by {
            assert(concat_range(vs, lists, pos, p, p) =~= Seq::<Level>::empty());
        }
        assert(c =~= a + sp + b);
        let i = a.len() as int;
        assert(c[i] == x);
        lemma_concat_members(vs, lists, pos, 0, p);
        assert forall|k: int| 0 <= k < c.len() implies !level_precedes(side, #[trigger] c[k], c[i]) by {
            let (q, m) = choose|q: int, m: int|
                0 <= q < len && pos[q] <= m < lists[q].len() && #[trigger] c[k] == level_of(
                    vs[q],
                    lists[q][m],
                );
            assert(live(lists, pos, q));
            assert(!precedes(side, head(lists, pos, q), head(lists, pos, p)));
            assert(best_first(side, lists[q]));
            if m > pos[q] {
                assert(!precedes(side, lists[q][m], lists[q][pos[q]]));
            }
        }
        assert forall|k: int| 0 <= k < i implies level_precedes(side, c[i], #[trigger] c[k]) by {
            assert(c[k] == a[k]);
            let (q, m) = choose|q: int, m: int|
                0 <= q < p && pos[q] <= m < lists[q].len() && #[trigger] a[k] == level_of(
                    vs[q],
                    lists[q][m],
                );
            assert(live(lists, pos, q));
            assert(precedes(side, head(lists, pos, p), head(lists, pos, q)));
            assert(best_first(side, lists[q]));
            if m > pos[q] {
                assert(!precedes(side, lists[q][m], lists[q][pos[q]]));
            }
        }
        lemma_stable_sort_first(side, c, i);
        // What the lists hold after advancing the pick's cursor.
        lemma_concat_same(vs, lists, pos, pos2, 0, p);
        lemma_concat_same(vs, lists, pos, pos2, p + 1, len);
        lemma_concat_split(vs, lists, pos2, 0, p, len);
        lemma_concat_split(vs, lists, pos2, p, p + 1, len);
        assert(concat_range(vs, lists, pos2, p, p) =~= Seq::<Level>::empty());
        assert(lists[p].skip(pos2[p]) =~= lists[p].skip(pos[p]).drop_first());
        assert(concat_range(vs, lists, pos2, p, p + 1) =~= sp.drop_first());
        assert(c.remove(i) =~= a + sp.drop_first() + b);
        assert(concat_range(vs, lists, pos2, 0, len) =~= c.remove(i));
        let ss = stable_sort(side, c.remove(i));
        assert(first_n(seq![x] + ss, n) =~= seq![x] + first_n(ss, (n - 1) as nat));
    } else if n > 0 {
        assert(c.len() == 0) by {
            if c.len() > 0 {
                let (q, m) = choose|q: int, m: int|
                    0 <= q < len && pos[q] <= m < lists[q].len() && #[trigger] c[0] == level_of(
                        vs[q],
                        lists[q][m],
                    );
                assert(live(lists, pos, q));
            }
        }
        assert(c =~= Seq::<Level>::empty());
    } else {
        let ss = stable_sort(side, c);
        if ss.len() > 0 {
            assert(ss.take(0) =~= Seq::<Level>::empty());
        }
    }
}

/// When every venue's own list is best first, each merged side is exactly
/// the first `TOP_N` levels (or all of them, if fewer) of a stable sort, best
/// first, of every venue's levels concatenated in venue order.
pub proof fn law_merge_side_is_stable_sort_prefix(side: Side, venues: Seq<(Venue, &Book)>)
    requires
        all_best_first(side, side_lists(side, venues)),
    ensures
        spec_merge_side(side, venues) == first_n(stable_sort(side, all_levels(side, venues)), TOP_N as nat),
{
    let lists = side_lists(side, venues);
    let pos = start_pos(venues.len());
    assert(cursors_in_range(lists, pos));
    lemma_merge_from_stable_sort(side, venue_seq(venues), lists, pos, TOP_N as nat);
}

} // verus!
