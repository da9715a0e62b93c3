//! The venues, and per-venue wire-message rules (one module per venue).

use vstd::prelude::*;

pub mod binance;
pub mod bitstamp;
pub mod kraken;
pub mod kraken_laws;

use crate::text::push_chars;

verus! {

/// Which venue a `Book` or published `Level` came from. Declaration order is
/// the order in which venues are kept, merged and tie-broken.
#[derive(Clone, Copy, Debug, PartialEq, Eq, Structural, PartialOrd, Ord, Hash)]
pub enum Venue {
    Binance,
    Bitstamp,
    Kraken,
}

/// A venue's position in declaration order.
pub open spec fn venue_rank(v: Venue) -> int {
    match v {
        Venue::Binance => 0,
        Venue::Bitstamp => 1,
        Venue::Kraken => 2,
    }
}

/// A venue's wire name, the string a published level carries.
pub open spec fn venue_name(v: Venue) -> Seq<char> {
    match v {
        Venue::Binance => seq!['b', 'i', 'n', 'a', 'n', 'c', 'e'],
        Venue::Bitstamp => seq!['b', 'i', 't', 's', 't', 'a', 'm', 'p'],
        Venue::Kraken => seq!['k', 'r', 'a', 'k', 'e', 'n'],
    }
}

/// Nanoseconds in one second.
pub const NANOS_PER_SEC: u64 = 1_000_000_000;

/// How long a venue may go silent, in nanoseconds, before it is excluded
/// from the merge.
pub open spec fn spec_staleness_threshold(v: Venue) -> u64 {
    match v {
        Venue::Binance => 1_500_000_000u64,
        Venue::Bitstamp => 8_000_000_000u64,
        Venue::Kraken => 12_000_000_000u64,
    }
}

impl Venue {
    /// The venue's rank in declaration order.
    pub fn rank(self) -> (r: u8)
        ensures
            r == venue_rank(self),
    {
        match self {
            Venue::Binance => 0,
            Venue::Bitstamp => 1,
            Venue::Kraken => 2,
        }
    }

    /// How long this venue may go silent, in nanoseconds, before it's
    /// excluded from the merge: Binance pushes a full snapshot every ~100ms,
    /// so 1.5s of silence means dead; Bitstamp and Kraken only push on
    /// change, so theirs are about four times their longest observed gap.
    pub fn staleness_threshold(self) -> (nanos: u64)
        ensures
            nanos == spec_staleness_threshold(self),
    {
        match self {
            Venue::Binance => 1_500_000_000,
            Venue::Bitstamp => 8_000_000_000,
            Venue::Kraken => 12_000_000_000,
        }
    }

    /// The venue's lowercase wire name, e.g. `"binance"`.
    pub fn name(self) -> (s: String)
        ensures
            s@ == venue_name(self),
    {
        let mut s = String::new();
        match self {
            Venue::Binance => {
                push_chars(&mut s, &['b', 'i', 'n', 'a', 'n', 'c', 'e']);
            },
            Venue::Bitstamp => {
                push_chars(&mut s, &['b', 'i', 't', 's', 't', 'a', 'm', 'p']);
            },
            Venue::Kraken => {
                push_chars(&mut s, &['k', 'r', 'a', 'k', 'e', 'n']);
            },
        }
        s
    }
}

} // verus!
