//! Price/amount values and the exchange-agnostic `Book`.
//!
//! A price or amount is an IEEE-754 double as the venue sent it. It is held
//! here by its total-order key: the 64 bits of the double, transformed so
//! that unsigned comparison of keys is exactly the IEEE-754 `totalOrder`
//! relation (the order `f64::total_cmp` documents). `to_bits` gives the
//! double's bits back unchanged.

use vstd::prelude::*;

verus! {

/// The sign bit of a 64-bit double.
pub const SIGN_BIT: u64 = 0x8000_0000_0000_0000;

/// The total-order key of the double with bit pattern `bits`: negative values
/// have every bit flipped, non-negative ones only the sign bit set.
pub open spec fn key_of_bits(bits: u64) -> u64 {
    if bits >> 63u64 == 1 {
        !bits
    } else {
        bits | 0x8000_0000_0000_0000u64
    }
}

/// The bit pattern of the double whose total-order key is `key`.
pub open spec fn bits_of_key(key: u64) -> u64 {
    if key >> 63u64 == 1 {
        key & 0x7fff_ffff_ffff_ffffu64
    } else {
        !key
    }
}

/// The key of +0.0.
pub const POSITIVE_ZERO_KEY: u64 = 0x8000_0000_0000_0000;

/// The key of -0.0.
pub const NEGATIVE_ZERO_KEY: u64 = 0x7fff_ffff_ffff_ffff;

/// The key of +infinity; every larger key is a NaN with the sign bit clear.
pub const POSITIVE_INFINITY_KEY: u64 = 0xfff0_0000_0000_0000;

/// The key of -infinity; every smaller key is a NaN with the sign bit set.
pub const NEGATIVE_INFINITY_KEY: u64 = 0x000f_ffff_ffff_ffff;

/// The double with this key is a NaN.
pub open spec fn key_is_nan(key: u64) -> bool {
    key > POSITIVE_INFINITY_KEY || key < NEGATIVE_INFINITY_KEY
}

/// The double with this key is +0.0 or -0.0.
pub open spec fn key_is_zero(key: u64) -> bool {
    key == POSITIVE_ZERO_KEY || key == NEGATIVE_ZERO_KEY
}

/// The double with this key is +infinity or -infinity.
pub open spec fn key_is_infinite(key: u64) -> bool {
    key == POSITIVE_INFINITY_KEY || key == NEGATIVE_INFINITY_KEY
}

/// IEEE-754 equality (`==` on doubles) of the doubles with keys `a` and `b`:
/// never for a NaN, always between the two zeros, otherwise identical bits.
pub open spec fn keys_float_eq(a: u64, b: u64) -> bool {
    !key_is_nan(a) && !key_is_nan(b) && (a == b || (key_is_zero(a) && key_is_zero(b)))
}

/// The key and bit mappings are inverse to each other.
pub proof fn lemma_key_bits_roundtrip(bits: u64, key: u64)
    ensures
        bits_of_key(key_of_bits(bits)) == bits,
        key_of_bits(bits_of_key(key)) == key,
{
    assert(bits >> 63u64 == 1 ==> ((!bits) >> 63u64 != 1 && !(!bits) == bits)) by (bit_vector);
    assert(bits >> 63u64 != 1 ==> ((bits | 0x8000_0000_0000_0000u64) >> 63u64 == 1 && ((bits
        | 0x8000_0000_0000_0000u64) & 0x7fff_ffff_ffff_ffffu64) == bits)) by (bit_vector);
    assert(key >> 63u64 == 1 ==> ((key & 0x7fff_ffff_ffff_ffffu64) >> 63u64 != 1 && ((key
        & 0x7fff_ffff_ffff_ffffu64) | 0x8000_0000_0000_0000u64) == key)) by (bit_vector);
    assert(key >> 63u64 != 1 ==> ((!key) >> 63u64 == 1 && !(!key) == key)) by (bit_vector);
}

/// Computes `key_of_bits`.
fn key_from_bits(bits: u64) -> (key: u64)
    ensures
        key == key_of_bits(bits),
{
    if bits >> 63u64 == 1 {
        !bits
    } else {
        bits | SIGN_BIT
    }
}

/// Computes `bits_of_key`.
fn bits_from_key(key: u64) -> (bits: u64)
    ensures
        bits == bits_of_key(key),
{
    if key >> 63u64 == 1 {
        key & 0x7fff_ffff_ffff_ffffu64
    } else {
        !key
    }
}

/// A price, as the double the venue's decimal string parses to.
#[derive(Clone, Copy, Debug, PartialOrd, Ord)]
pub struct Price {
    key: u64,
}

/// An amount (order size), as the double the venue's decimal string parses
/// to.
#[derive(Clone, Copy, Debug, PartialOrd, Ord)]
pub struct Amount {
    key: u64,
}

impl Price {
    /// The total-order key of this price.
    pub closed spec fn spec_key(self) -> u64 {
        self.key
    }

    /// The price whose double has the bit pattern `bits`.
    pub fn from_bits(bits: u64) -> (p: Price)
        ensures
            p.spec_key() == key_of_bits(bits),
            bits_of_key(p.spec_key()) == bits,
    {
        proof {
            lemma_key_bits_roundtrip(bits, 0);
        }
        Price { key: key_from_bits(bits) }
    }

    /// The bit pattern of this price's double.
    pub fn to_bits(&self) -> (bits: u64)
        ensures
            bits == bits_of_key(self.spec_key()),
            key_of_bits(bits) == self.spec_key(),
    {
        proof {
            lemma_key_bits_roundtrip(0, self.key);
        }
        bits_from_key(self.key)
    }

    /// The total-order key of this price: comparing keys as unsigned
    /// integers orders prices as `f64::total_cmp` does.
    pub fn key(&self) -> (k: u64)
        ensures
            k == self.spec_key(),
    {
        self.key
    }
}

impl Amount {
    /// The total-order key of this amount.
    pub closed spec fn spec_key(self) -> u64 {
        self.key
    }

    /// The amount whose double has the bit pattern `bits`.
    pub fn from_bits(bits: u64) -> (a: Amount)
        ensures
            a.spec_key() == key_of_bits(bits),
            bits_of_key(a.spec_key()) == bits,
    {
        proof {
            lemma_key_bits_roundtrip(bits, 0);
        }
        Amount { key: key_from_bits(bits) }
    }

    /// The bit pattern of this amount's double.
    pub fn to_bits(&self) -> (bits: u64)
        ensures
            bits == bits_of_key(self.spec_key()),
            key_of_bits(bits) == self.spec_key(),
    {
        proof {
            lemma_key_bits_roundtrip(0, self.key);
        }
        bits_from_key(self.key)
    }

    /// The total-order key of this amount.
    pub fn key(&self) -> (k: u64)
        ensures
            k == self.spec_key(),
    {
        self.key
    }

    /// Whether this amount is zero (+0.0 or -0.0), as `amount == 0.0` on the
    /// double.
    pub fn is_zero(&self) -> (z: bool)
        ensures
            z == key_is_zero(self.spec_key()),
    {
        self.key == POSITIVE_ZERO_KEY || self.key == NEGATIVE_ZERO_KEY
    }
}

impl PartialEq for Price {
    fn eq(&self, other: &Self) -> (r: bool) {
        let a = self.key;
        let b = other.key;
        let a_nan = a > POSITIVE_INFINITY_KEY || a < NEGATIVE_INFINITY_KEY;
        let b_nan = b > POSITIVE_INFINITY_KEY || b < NEGATIVE_INFINITY_KEY;
        let a_zero = a == POSITIVE_ZERO_KEY || a == NEGATIVE_ZERO_KEY;
        let b_zero = b == POSITIVE_ZERO_KEY || b == NEGATIVE_ZERO_KEY;
        !a_nan && !b_nan && (a == b || (a_zero && b_zero))
    }
}

impl vstd::std_specs::cmp::PartialEqSpecImpl for Price {
    open spec fn obeys_eq_spec() -> bool {
        true
    }

    open spec fn eq_spec(&self, other: &Self) -> bool {
        keys_float_eq(self.spec_key(), other.spec_key())
    }
}

impl PartialEq for Amount {
    fn eq(&self, other: &Self) -> (r: bool) {
        let a = self.key;
        let b = other.key;
        let a_nan = a > POSITIVE_INFINITY_KEY || a < NEGATIVE_INFINITY_KEY;
        let b_nan = b > POSITIVE_INFINITY_KEY || b < NEGATIVE_INFINITY_KEY;
        let a_zero = a == POSITIVE_ZERO_KEY || a == NEGATIVE_ZERO_KEY;
        let b_zero = b == POSITIVE_ZERO_KEY || b == NEGATIVE_ZERO_KEY;
        !a_nan && !b_nan && (a == b || (a_zero && b_zero))
    }
}

impl vstd::std_specs::cmp::PartialEqSpecImpl for Amount {
    open spec fn obeys_eq_spec() -> bool {
        true
    }

    open spec fn eq_spec(&self, other: &Self) -> bool {
        keys_float_eq(self.spec_key(), other.spec_key())
    }
}

impl Eq for Price {}

impl Eq for Amount {}

/// An exchange-agnostic order book snapshot: bids and asks, each in the
/// venue's own best-first order, plus the venue's update sequence number.
#[derive(Clone, Debug)]
pub struct Book {
    pub bids: Vec<(Price, Amount)>,
    pub asks: Vec<(Price, Amount)>,
    pub last_update_id: u64,
}

/// A `[price, amount]` level as it arrives on the wire: each decimal string
/// parsed as a double, `None` where the string is not a valid number.
#[derive(Clone, Copy, Debug)]
pub struct RawLevel {
    pub price: Option<Price>,
    pub amount: Option<Amount>,
}

/// The levels of `raw`, when every one of them parsed.
pub open spec fn spec_parse_levels(raw: Seq<RawLevel>) -> Option<Seq<(Price, Amount)>>
    decreases raw.len(),
{
    if raw.len() == 0 {
        Some(Seq::empty())
    } else {
        match (spec_parse_levels(raw.drop_last()), raw.last().price, raw.last().amount) {
            (Some(s), Some(p), Some(a)) => Some(s.push((p, a))),
            _ => None,
        }
    }
}

/// Once a prefix of levels fails to parse, every longer one does.
proof fn lemma_parse_levels_none_extends(raw: Seq<RawLevel>, k: int)
    requires
        0 <= k <= raw.len(),
        spec_parse_levels(raw.take(k)) is None,
    ensures
        spec_parse_levels(raw) is None,
    decreases raw.len() - k,
{
    if k < raw.len() {
        assert(raw.take(k + 1).drop_last() =~= raw.take(k));
        lemma_parse_levels_none_extends(raw, k + 1);
    } else {
        assert(raw.take(k) =~= raw);
    }
}

/// Converts `[price, amount]` levels into `(Price, Amount)` pairs, in
/// order. `None` if any level failed to parse, rather than silently dropping
/// a level and publishing a book with a hole in it.
pub fn parse_levels(raw: &Vec<RawLevel>) -> (r: Option<Vec<(Price, Amount)>>)
    ensures
        r is None <==> spec_parse_levels(raw@) is None,
        r matches Some(v) ==> spec_parse_levels(raw@) == Some(v@),
{
    let mut out: Vec<(Price, Amount)> = Vec::new();
    let mut i: usize = 0;
    assert(raw@.take(0) =~= Seq::<RawLevel>::empty());
    while i < raw.len()
        invariant
            0 <= i <= raw@.len(),
            spec_parse_levels(raw@.take(i as int)) == Some(out@),
        decreases raw@.len() - i,
    {
        proof {
            assert(raw@.take(i + 1).drop_last() =~= raw@.take(i as int));
            assert(raw@.take(i + 1).last() == raw@[i as int]);
        }
        match (raw[i].price, raw[i].amount) {
            (Some(p), Some(a)) => {
                out.push((p, a));
            },
            _ => {
                proof {
                    lemma_parse_levels_none_extends(raw@, i + 1);
                }
                return None;
            },
        }
        i = i + 1;
    }
    assert(raw@.take(raw@.len() as int) =~= raw@);
    Some(out)
}

/// Levels parse exactly when every raw level has both a price and an
/// amount; they then give one `(price, amount)` per raw level, in order.
pub proof fn law_parse_levels_keeps_every_level(raw: Seq<RawLevel>)
    ensures
        spec_parse_levels(raw) is Some <==> forall|i: int|
            0 <= i < raw.len() ==> (#[trigger] raw[i]).price is Some && raw[i].amount is Some,
        spec_parse_levels(raw) matches Some(v) ==> {
            &&& v.len() == raw.len()
            &&& forall|i: int|
                0 <= i < raw.len() ==> #[trigger] v[i] == (raw[i].price->0, raw[i].amount->0)
        },
    decreases raw.len(),
{
    if raw.len() > 0 {
        let d = raw.drop_last();
        law_parse_levels_keeps_every_level(d);
        assert forall|i: int| 0 <= i < d.len() implies #[trigger] d[i] == raw[i] by {}
        if let Some(v) = spec_parse_levels(raw) {
            assert(spec_parse_levels(d) is Some);
            assert forall|i: int| 0 <= i < raw.len() implies (#[trigger] raw[i]).price is Some
                && raw[i].amount is Some by {
                if i < d.len() {
                    assert(d[i] == raw[i]);
                    assert(d[i].price is Some && d[i].amount is Some);
                } else {
                    assert(raw[i] == raw.last());
                }
            }
            let w = spec_parse_levels(d)->0;
            assert(v == w.push((raw.last().price->0, raw.last().amount->0)));
            assert forall|i: int| 0 <= i < raw.len() implies #[trigger] v[i] == (
                raw[i].price->0,
                raw[i].amount->0,
            ) by {
                if i < d.len() {
                    assert(v[i] == w[i]);
                    assert(d[i] == raw[i]);
                }
            }
        }
        if forall|i: int|
            0 <= i < raw.len() ==> (#[trigger] raw[i]).price is Some && raw[i].amount is Some {
            assert forall|i: int| 0 <= i < d.len() implies (#[trigger] d[i]).price is Some
                && d[i].amount is Some by {
                assert(d[i] == raw[i]);
            }
            assert(raw[raw.len() - 1] == raw.last());
        }
        if spec_parse_levels(raw) is None && spec_parse_levels(d) is Some {
            assert(raw[raw.len() - 1] == raw.last());
        }
        if spec_parse_levels(d) is None {
            let j = choose|j: int|
                0 <= j < d.len() && !((#[trigger] d[j]).price is Some && d[j].amount is Some);
            assert(d[j] == raw[j]);
        }
    }
}

} // verus!
