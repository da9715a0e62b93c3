//! The multi-venue merge: combines every venue's book into one publishable
//! `Summary` of the best levels on each side.
//!
//! Pure: no clock, no I/O. `merge()` handles the edge cases;
//! `merge_side()` walks all venues' cursors for one side; `Side::better()`
//! and `Side::levels()` hold the one rule that differs between bids and
//! asks.

use std::cmp::Ordering;

use vstd::prelude::*;

use crate::exchange::{venue_rank, Venue};
use crate::model::{Amount, Book, Price};

verus! {

/// How many levels each side of a summary holds at most.
pub const TOP_N: usize = 10;

/// Which side of the book is being merged.
#[derive(Clone, Copy, Debug, PartialEq, Eq, Structural)]
pub enum Side {
    Bid,
    Ask,
}

/// One published level: the venue it came from, its price and its amount.
#[derive(Clone, Copy, Debug)]
pub struct Level {
    pub exchange: Venue,
    pub price: Price,
    pub amount: Amount,
}

/// The merged book: the best bids (best first) and the best asks (best
/// first), at most `TOP_N` of each. The spread is the best ask's price minus
/// the best bid's price.
#[derive(Clone, Debug)]
pub struct Summary {
    pub bids: Vec<Level>,
    pub asks: Vec<Level>,
}

/// `a` strictly comes before `b` on `side`: a better price (lower for asks,
/// higher for bids, by the total order on doubles), or the same price and a
/// larger amount.
pub open spec fn precedes(side: Side, a: (Price, Amount), b: (Price, Amount)) -> bool {
    let pa = a.0.spec_key();
    let pb = b.0.spec_key();
    let aa = a.1.spec_key();
    let ab = b.1.spec_key();
    match side {
        Side::Ask => pa < pb || (pa == pb && aa > ab),
        Side::Bid => pa > pb || (pa == pb && aa > ab),
    }
}

/// `a` and `b` have the same price and the same amount.
pub open spec fn ties(a: (Price, Amount), b: (Price, Amount)) -> bool {
    a.0.spec_key() == b.0.spec_key() && a.1.spec_key() == b.1.spec_key()
}

/// The list of levels that `side` reads from `book`.
pub open spec fn side_levels(side: Side, book: Book) -> Seq<(Price, Amount)> {
    match side {
        Side::Bid => book.bids@,
        Side::Ask => book.asks@,
    }
}

/// Every venue's list of levels on `side`, in the venues' order.
pub open spec fn side_lists(side: Side, venues: Seq<(Venue, &Book)>) -> Seq<Seq<(Price, Amount)>> {
    Seq::new(venues.len(), |i: int| side_levels(side, *venues[i].1))
}

/// The venues, in order.
pub open spec fn venue_seq(venues: Seq<(Venue, &Book)>) -> Seq<Venue> {
    Seq::new(venues.len(), |i: int| venues[i].0)
}

/// The venues come in declaration order, each at most once — as the keys
/// of a map ordered by venue.
pub open spec fn venues_ranked(venues: Seq<(Venue, &Book)>) -> bool {
    forall|i: int, j: int|
        0 <= i < j < venues.len() ==> venue_rank(#[trigger] venues[i].0) < venue_rank(
            #[trigger] venues[j].0,
        )
}

/// List `i`'s cursor `pos[i]` still points at a level.
pub open spec fn live(lists: Seq<Seq<(Price, Amount)>>, pos: Seq<int>, i: int) -> bool {
    0 <= pos[i] < lists[i].len()
}

/// The level under list `i`'s cursor.
pub open spec fn head(lists: Seq<Seq<(Price, Amount)>>, pos: Seq<int>, i: int) -> (Price, Amount) {
    lists[i][pos[i]]
}

/// Among the lists whose cursors still point at a level, `i` holds a best
/// level on `side`, and no earlier list holds one as good.
pub open spec fn is_pick(
    side: Side,
    lists: Seq<Seq<(Price, Amount)>>,
    pos: Seq<int>,
    i: int,
) -> bool {
    &&& 0 <= i < lists.len()
    &&& live(lists, pos, i)
    &&& forall|j: int|
        0 <= j < lists.len() && live(lists, pos, j) ==> !precedes(
            side,
            #[trigger] head(lists, pos, j),
            head(lists, pos, i),
        )
    &&& forall|j: int|
        0 <= j < i && live(lists, pos, j) ==> precedes(
            side,
            head(lists, pos, i),
            #[trigger] head(lists, pos, j),
        )
}

/// Some cursor still points at a level.
pub open spec fn any_live(lists: Seq<Seq<(Price, Amount)>>, pos: Seq<int>) -> bool {
    exists|i: int| 0 <= i < lists.len() && #[trigger] live(lists, pos, i)
}

/// The level `l` of venue `v`, as published.
pub open spec fn level_of(v: Venue, l: (Price, Amount)) -> Level {
    Level { exchange: v, price: l.0, amount: l.1 }
}

/// The next `n` levels the merge takes from cursors `pos`: repeatedly the
/// level under the picked cursor, advancing only that cursor, until `n`
/// levels are taken or every cursor is exhausted.
pub open spec fn merge_from(
    side: Side,
    venues: Seq<Venue>,
    lists: Seq<Seq<(Price, Amount)>>,
    pos: Seq<int>,
    n: nat,
) -> Seq<Level>
    decreases n,
{
    if n == 0 || !any_live(lists, pos) {
        Seq::empty()
    } else {
        let i = choose|i: int| is_pick(side, lists, pos, i);
        seq![level_of(venues[i], head(lists, pos, i))] + merge_from(
            side,
            venues,
            lists,
            pos.update(i, pos[i] + 1),
            (n - 1) as nat,
        )
    }
}

/// All cursors at the start of their lists.
pub open spec fn start_pos(n: nat) -> Seq<int> {
    Seq::new(n, |i: int| 0int)
}

/// The merged `side` of `venues`: its best `TOP_N` levels, best first.
pub open spec fn spec_merge_side(side: Side, venues: Seq<(Venue, &Book)>) -> Seq<Level> {
    merge_from(
        side,
        venue_seq(venues),
        side_lists(side, venues),
        start_pos(venues.len()),
        TOP_N as nat,
    )
}

/// At most one list can be the pick.
pub proof fn lemma_pick_unique(
    side: Side,
    lists: Seq<Seq<(Price, Amount)>>,
    pos: Seq<int>,
    i: int,
    k: int,
)
    requires
        is_pick(side, lists, pos, i),
        is_pick(side, lists, pos, k),
    ensures
        i == k,
{
    if i < k {
        assert(precedes(side, head(lists, pos, k), head(lists, pos, i)));
    } else if k < i {
        assert(precedes(side, head(lists, pos, i), head(lists, pos, k)));
    }
}

impl Side {
    /// `Less` when `a` should come before `b` on this side: asks by
    /// ascending price, bids by descending price, and on an equal price the
    /// larger amount first (on both sides).
    pub fn better(self, a: &(Price, Amount), b: &(Price, Amount)) -> (r: Ordering)
        ensures
            (r == Ordering::Less) == precedes(self, *a, *b),
            (r == Ordering::Equal) == ties(*a, *b),
            (r == Ordering::Greater) == precedes(self, *b, *a),
    {
        let pa = a.0.key();
        let pb = b.0.key();
        let aa = a.1.key();
        let ab = b.1.key();
        let (first, second) = match self {
            Side::Ask => (pa, pb),
            Side::Bid => (pb, pa),
        };
        if first < second {
            Ordering::Less
        } else if first > second {
            Ordering::Greater
        } else if ab < aa {
            Ordering::Less
        } else if ab > aa {
            Ordering::Greater
        } else {
            Ordering::Equal
        }
    }

    /// Whether `a` comes strictly before `b` on this side.
    pub fn strictly_before(self, a: &(Price, Amount), b: &(Price, Amount)) -> (r: bool)
        ensures
            r == precedes(self, *a, *b),
    {
        let pa = a.0.key();
        let pb = b.0.key();
        match self {
            Side::Ask => pa < pb || (pa == pb && a.1.key() > b.1.key()),
            Side::Bid => pa > pb || (pa == pb && a.1.key() > b.1.key()),
        }
    }

    /// Which of `book`'s two lists this side reads.
    pub fn levels(self, book: &Book) -> (l: &Vec<(Price, Amount)>)
        ensures
            l@ == side_levels(self, *book),
    {
        match self {
            Side::Bid => &book.bids,
            Side::Ask => &book.asks,
        }
    }
}

/// Finds the pick among the cursors, if any cursor is still live.
fn pick(
    side: Side,
    venues: &Vec<(Venue, &Book)>,
    cursors: &Vec<usize>,
    Ghost(lists): Ghost<Seq<Seq<(Price, Amount)>>>,
    Ghost(pos): Ghost<Seq<int>>,
) -> (r: Option<usize>)
    requires
        lists == side_lists(side, venues@),
        cursors@.len() == venues@.len(),
        pos.len() == venues@.len(),
        forall|i: int| 0 <= i < pos.len() ==> pos[i] == cursors@[i] as int,
    ensures
        r is None ==> !any_live(lists, pos),
        r matches Some(i) ==> is_pick(side, lists, pos, i as int),
{
    let mut best: Option<usize> = None;
    let mut i: usize = 0;
    while i < venues.len()
        invariant
            lists == side_lists(side, venues@),
            cursors@.len() == venues@.len(),
            pos.len() == venues@.len(),
            forall|k: int| 0 <= k < pos.len() ==> pos[k] == cursors@[k] as int,
            0 <= i <= venues@.len(),
            best is None ==> forall|j: int| 0 <= j < i ==> !live(lists, pos, j),
            best matches Some(b) ==> {
                &&& b < i
                &&& live(lists, pos, b as int)
                &&& forall|j: int|
                    0 <= j < i && live(lists, pos, j) ==> !precedes(
                        side,
                        #[trigger] head(lists, pos, j),
                        head(lists, pos, b as int),
                    )
                &&& forall|j: int|
                    0 <= j < b && live(lists, pos, j) ==> precedes(
                        side,
                        head(lists, pos, b as int),
                        #[trigger] head(lists, pos, j),
                    )
            },
        decreases venues@.len() - i,
    {
        let list = side.levels(venues[i].1);
        assert(list@ == lists[i as int]);
        if cursors[i] < list.len() {
            let candidate = &list[cursors[i]];
            assert(*candidate == head(lists, pos, i as int));
            match best {
                None => {
                    best = Some(i);
                },
                Some(b) => {
                    let best_list = side.levels(venues[b].1);
                    assert(best_list@ == lists[b as int]);
                    let current = &best_list[cursors[b]];
                    assert(*current == head(lists, pos, b as int));
                    if side.strictly_before(candidate, current) {
                        best = Some(i);
                    }
                },
            }
        }
        i = i + 1;
    }
    best
}

/// Merges one side across every venue in `venues` into the top `TOP_N`
/// levels, best first: repeatedly takes the best level under any venue's
/// cursor (on a full tie, the earliest venue's) and advances only that
/// venue's cursor.
pub fn merge_side(venues: &Vec<(Venue, &Book)>, side: Side) -> (out: Vec<Level>)
    requires
        venues_ranked(venues@),
    ensures
        out@ == spec_merge_side(side, venues@),
{
    let ghost lists = side_lists(side, venues@);
    let ghost vs = venue_seq(venues@);
    let ghost pos0 = start_pos(venues@.len());
    let mut cursors: Vec<usize> = Vec::new();
    let mut k: usize = 0;
    while k < venues.len()
        invariant
            0 <= k <= venues@.len(),
            cursors@.len() == k,
            forall|j: int| 0 <= j < k ==> cursors@[j] == 0,
        decreases venues@.len() - k,
    {
        cursors.push(0);
        k = k + 1;
    }
    let ghost mut pos = pos0;
    let mut out: Vec<Level> = Vec::new();
    assert(out@ + merge_from(side, vs, lists, pos, TOP_N as nat) == merge_from(side, vs, lists, pos0, TOP_N as nat));
    while out.len() < TOP_N
        invariant
            lists == side_lists(side, venues@),
            vs == venue_seq(venues@),
            cursors@.len() == venues@.len(),
            pos.len() == venues@.len(),
            forall|i: int| 0 <= i < pos.len() ==> pos[i] == cursors@[i] as int,
            out@.len() <= TOP_N,
            out@ + merge_from(side, vs, lists, pos, (TOP_N - out@.len()) as nat) == merge_from(
                side,
                vs,
                lists,
                pos0,
                TOP_N as nat,
            ),
        ensures
            out@ == merge_from(side, vs, lists, pos0, TOP_N as nat),
        decreases TOP_N - out@.len(),
    {
        let ghost rem = (TOP_N - out@.len()) as nat;
        match pick(side, venues, &cursors, Ghost(lists), Ghost(pos)) {
            None => {
                assert(merge_from(side, vs, lists, pos, rem) == Seq::<Level>::empty());
                assert(out@ + Seq::<Level>::empty() == out@);
                break;
            },
            Some(i) => {
                let list = side.levels(venues[i].1);
                assert(list@ == lists[i as int]);
                let (price, amount) = list[cursors[i]];
                let level = Level { exchange: venues[i].0, price, amount };
                proof {
                    let chosen = choose|j: int| is_pick(side, lists, pos, j);
                    assert(is_pick(side, lists, pos, chosen));
                    lemma_pick_unique(side, lists, pos, chosen, i as int);
                    assert(any_live(lists, pos)) by {
                        assert(live(lists, pos, i as int));
                    }
                    assert(level == level_of(vs[i as int], head(lists, pos, i as int)));
                }
                let ghost old_out = out@;
                let ghost next_pos = pos.update(i as int, pos[i as int] + 1);
                out.push(level);
                let list_len = list.len();
                assert(cursors@[i as int] < list_len);
                let c = cursors[i] + 1;
                cursors.set(i, c);
                proof {
                    assert(merge_from(side, vs, lists, pos, rem) == seq![level] + merge_from(
                        side,
                        vs,
                        lists,
                        next_pos,
                        (rem - 1) as nat,
                    ));
                    assert(out@ == old_out + seq![level]);
                    assert(old_out + (seq![level] + merge_from(side, vs, lists, next_pos, (rem - 1) as nat))
                        == out@ + merge_from(side, vs, lists, next_pos, (rem - 1) as nat));
                    pos = next_pos;
                }
            },
        }
    }
    out
}

/// The merged summary of `venues`, or `None` when either merged side is
/// empty.
pub open spec fn spec_merge(venues: Seq<(Venue, &Book)>) -> Option<(Seq<Level>, Seq<Level>)> {
    let bids = spec_merge_side(Side::Bid, venues);
    let asks = spec_merge_side(Side::Ask, venues);
    if bids.len() == 0 || asks.len() == 0 {
        None
    } else {
        Some((bids, asks))
    }
}

/// Merges every venue's book in `venues` (in declaration order, each at
/// most once) into one `Summary`: the top
/// `TOP_N` bids (highest first) and the top `TOP_N` asks (lowest first).
/// Returns `None` if there's nothing publishable — no venues, or the merged
/// book is one-sided — rather than a fabricated summary.
pub fn merge(venues: &Vec<(Venue, &Book)>) -> (res: Option<Summary>)
    requires
        venues_ranked(venues@),
    ensures
        res is None <==> spec_merge(venues@) is None,
        res matches Some(s) ==> spec_merge(venues@) == Some((s.bids@, s.asks@)),
{
    let bids = merge_side(venues, Side::Bid);
    let asks = merge_side(venues, Side::Ask);
    if bids.len() == 0 || asks.len() == 0 {
        return None;
    }
    Some(Summary { bids, asks })
}

} // verus!
