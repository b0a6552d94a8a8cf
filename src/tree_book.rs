//! The sparse book: each side an ordered map from a price's sort key to its level.
//!
//! A price travels as the bit pattern of an IEEE-754 binary64 number, as on the wire. Its sort
//! key flips the pattern so that unsigned comparison of keys follows the numeric order of the
//! prices; negative zero is stored as zero, and NaN is refused.
use vstd::prelude::*;
use std::collections::BTreeMap;
use crate::error::Error;
use vstd::std_specs::iter::IteratorSpec;
use vstd::std_specs::cmp::OrdSpec;

verus! {

broadcast use vstd::std_specs::btree::group_btree_axioms;

pub const SIGN_BIT: u64 = 0x8000_0000_0000_0000;
pub const EXPONENT_BITS: u64 = 0x7ff0_0000_0000_0000;
pub const FRACTION_BITS: u64 = 0x000f_ffff_ffff_ffff;

/// The pattern is a NaN: all exponent bits set and a non-zero fraction.
pub open spec fn is_nan(p: u64) -> bool {
    p & EXPONENT_BITS == EXPONENT_BITS && p & FRACTION_BITS != 0
}

/// The pattern with negative zero replaced by zero.
pub open spec fn canonical(p: u64) -> u64 {
    if p == SIGN_BIT {
        0
    } else {
        p
    }
}

/// The sort key of a price: unsigned order of keys is the numeric order of non-NaN prices.
pub open spec fn price_key(p: u64) -> u64 {
    if p & SIGN_BIT != 0 {
        !p
    } else {
        p | SIGN_BIT
    }
}

/// A resting level: the price's bit pattern and the aggregate quantity.
#[derive(Clone, Copy, Debug, PartialEq, Eq, Structural)]
pub struct Level {
    pub price: u64,
    pub qty: u64,
}

impl Level {
    pub fn new(price: u64, volume: u64) -> (r: Self)
        ensures
            r == (Level { price, qty: volume }),
    {
        Level { price, qty: volume }
    }
}

/// A price as a map key.
#[derive(Clone, Copy, Debug, PartialEq, Eq, Structural)]
pub struct PriceLevel {
    pub price: u64,
}

impl PriceLevel {
    pub fn new(price: u64) -> (r: Self)
        ensures
            r.price == price,
    {
        PriceLevel { price }
    }

    /// Whether the price is a NaN.
    pub fn is_nan(&self) -> (r: bool)
        ensures
            r == is_nan(self.price),
    {
        self.price & EXPONENT_BITS == EXPONENT_BITS && self.price & FRACTION_BITS != 0
    }

    /// The sort key of the price.
    pub fn key(&self) -> (r: u64)
        ensures
            r == price_key(self.price),
    {
        if self.price & SIGN_BIT != 0 {
            !self.price
        } else {
            self.price | SIGN_BIT
        }
    }
}

/// Every level is stored under its own price's key, with a non-zero quantity.
pub open spec fn side_ok(m: Map<u64, Level>) -> bool {
    forall|k: u64| #[trigger] m.contains_key(k) ==> price_key(m[k].price) == k && m[k].qty > 0
}

/// `r` lists the levels of `m`, each once, in ascending key order.
pub open spec fn lists_ascending(m: Map<u64, Level>, r: Seq<(u64, u64)>) -> bool {
    &&& r.len() == m.dom().len()
    &&& forall|i: int, j: int|
        0 <= i < j < r.len() ==> price_key(#[trigger] r[i].0) < price_key(#[trigger] r[j].0)
    &&& forall|i: int|
        0 <= i < r.len() ==> m.contains_key(price_key(#[trigger] r[i].0)) && m[price_key(
            r[i].0,
        )] == (Level { price: r[i].0, qty: r[i].1 })
}

/// Lists the levels of a map in ascending key order.
fn ascending_levels(m: &BTreeMap<u64, Level>) -> (r: Vec<(u64, u64)>)
    requires
        side_ok(m@),
    ensures
        lists_ascending(m@, r@),
{
    let values = m.values();
    let ghost rem = values.remaining();
    let ghost keys = choose|keys: Seq<u64>|
        {
            &&& vstd::std_specs::btree::increasing_seq(keys)
            &&& keys.to_set() == m@.dom()
            &&& keys.no_duplicates()
            &&& rem == keys.map(|i: int, k: u64| &m@[k])
        };
    let mut r: Vec<(u64, u64)> = Vec::new();
    for level in it: values
        invariant
            side_ok(m@),
            it.seq() == rem,
            rem == keys.map(|i: int, k: u64| &m@[k]),
            r.len() == it.index(),
            forall|i: int| 0 <= i < r.len() ==> (#[trigger] r@[i]) == ((*rem[i]).price, (*rem[i]).qty),
    {
        r.push((level.price, level.qty));
    }
    proof {
        assert(r.len() == keys.len());
        assert forall|i: int| 0 <= i < r.len() implies price_key(#[trigger] r@[i].0) == keys[i] && m@.contains_key(keys[i]) by {
            assert(keys.to_set().contains(keys[i]));
        }
        assert forall|i: int, j: int|
            0 <= i < j < r.len() implies price_key(#[trigger] r@[i].0) < price_key(#[trigger] r@[j].0) by {
            assert(keys[i].cmp_spec(&keys[j]) is Less);
        }
    }
    r
}

/// `r` lists the levels of `m`, each once, in descending key order.
pub open spec fn lists_descending(m: Map<u64, Level>, r: Seq<(u64, u64)>) -> bool {
    &&& r.len() == m.dom().len()
    &&& forall|i: int, j: int|
        0 <= i < j < r.len() ==> price_key(#[trigger] r[i].0) > price_key(#[trigger] r[j].0)
    &&& forall|i: int|
        0 <= i < r.len() ==> m.contains_key(price_key(#[trigger] r[i].0)) && m[price_key(
            r[i].0,
        )] == (Level { price: r[i].0, qty: r[i].1 })
}

/// The side after a level change: a zero quantity removes the price, any other sets it.
pub open spec fn apply_level(m: Map<u64, Level>, price: u64, qty: u64) -> Map<u64, Level> {
    if qty == 0 {
        m.remove(price_key(price))
    } else {
        m.insert(price_key(price), Level { price, qty })
    }
}

/// `l` is the level of `m` with the highest key, or `None` when `m` is empty.
pub open spec fn is_highest(m: Map<u64, Level>, l: Option<(u64, u64)>) -> bool {
    match l {
        None => m.dom().len() == 0,
        Some(x) => m.contains_key(price_key(x.0)) && m[price_key(x.0)] == (Level {
            price: x.0,
            qty: x.1,
        }) && forall|k: u64| #[trigger] m.contains_key(k) ==> k <= price_key(x.0),
    }
}

/// `l` is the level of `m` with the lowest key, or `None` when `m` is empty.
pub open spec fn is_lowest(m: Map<u64, Level>, l: Option<(u64, u64)>) -> bool {
    match l {
        None => m.dom().len() == 0,
        Some(x) => m.contains_key(price_key(x.0)) && m[price_key(x.0)] == (Level {
            price: x.0,
            qty: x.1,
        }) && forall|k: u64| #[trigger] m.contains_key(k) ==> price_key(x.0) <= k,
    }
}

proof fn lemma_listing_covers(m: Map<u64, Level>, r: Seq<(u64, u64)>, k: u64)
    requires
        side_ok(m),
        lists_ascending(m, r),
        m.contains_key(k),
        m.dom().finite(),
    ensures
        exists|i: int| 0 <= i < r.len() && price_key(#[trigger] r[i].0) == k,
{
    let listed = Set::new(|k: u64| exists|i: int| 0 <= i < r.len() && price_key(#[trigger] r[i].0) == k);
    if !listed.contains(k) {
        // The listed keys are r.len() distinct members of a domain of that size.
        let ks = r.map_values(|x: (u64, u64)| price_key(x.0));
        assert forall|i: int, j: int| 0 <= i < ks.len() && 0 <= j < ks.len() && i != j implies ks[i] != ks[j] by {
            if i < j {
                assert(price_key(r[i].0) < price_key(r[j].0));
            } else {
                assert(price_key(r[j].0) < price_key(r[i].0));
            }
        }
        assert(ks.no_duplicates());
        ks.unique_seq_to_set();
        assert(ks.to_set().subset_of(m.dom().remove(k))) by {
            assert forall|x: u64| ks.to_set().contains(x) implies m.dom().remove(k).contains(x) by {
                let i = choose|i: int| 0 <= i < ks.len() && ks[i] == x;
                assert(listed.contains(ks[i]));
            }
        }
        vstd::set_lib::lemma_len_subset(ks.to_set(), m.dom().remove(k));
        assert(false);
    }
    assert(listed.contains(k));
}

/// Lists the levels of a map in descending key order.
fn descending_levels(m: &BTreeMap<u64, Level>) -> (r: Vec<(u64, u64)>)
    requires
        side_ok(m@),
    ensures
        lists_descending(m@, r@),
{
    let up = ascending_levels(m);
    let n = up.len();
    let mut r: Vec<(u64, u64)> = Vec::new();
    let mut i: usize = n;
    while i > 0
        invariant
            lists_ascending(m@, up@),
            n == up.len(),
            i <= n,
            r.len() == n - i,
            forall|j: int| 0 <= j < r.len() ==> #[trigger] r@[j] == up@[n - 1 - j],
        decreases i,
    {
        i = i - 1;
        r.push(up[i]);
    }
    proof {
        assert forall|a: int, b: int| 0 <= a < b < r.len() implies price_key(#[trigger] r@[a].0) > price_key(#[trigger] r@[b].0) by {
            assert(price_key(up@[n - 1 - b].0) < price_key(up@[n - 1 - a].0));
        }
        assert forall|a: int| 0 <= a < r.len() implies m@.contains_key(price_key(#[trigger] r@[a].0)) && m@[price_key(
            r@[a].0,
        )] == (Level { price: r@[a].0, qty: r@[a].1 }) by {
            assert(r@[a] == up@[n - 1 - a]);
        }
    }
    r
}

/// The first entry of an ascending listing is the lowest level, the last the highest.
proof fn lemma_ends(m: Map<u64, Level>, r: Seq<(u64, u64)>)
    requires
        side_ok(m),
        lists_ascending(m, r),
        m.dom().finite(),
    ensures
        is_lowest(m, if r.len() == 0 { None } else { Some(r[0]) }),
        is_highest(m, if r.len() == 0 { None } else { Some(r.last()) }),
{
    assert forall|k: u64| #[trigger] m.contains_key(k) implies r.len() > 0 && price_key(r[0].0) <= k
        && k <= price_key(r.last().0) by {
        lemma_listing_covers(m, r, k);
        let i = choose|i: int| 0 <= i < r.len() && price_key(#[trigger] r[i].0) == k;
        if i > 0 {
            assert(price_key(r[0].0) < price_key(r[i].0));
        }
        if i < r.len() - 1 {
            assert(price_key(r[i].0) < price_key(r[r.len() - 1].0));
        }
    }
    if r.len() == 0 {
        assert(m.dom().len() == 0);
    }
}

/// A listing of a well-formed side, in either order, holds no level with a zero quantity
/// and no price twice.
pub proof fn lemma_listing_well_formed(m: Map<u64, Level>, r: Seq<(u64, u64)>)
    requires
        side_ok(m),
        lists_ascending(m, r) || lists_descending(m, r),
    ensures
        forall|i: int| 0 <= i < r.len() ==> #[trigger] r[i].1 > 0,
        forall|i: int, j: int| 0 <= i < j < r.len() ==> #[trigger] r[i].0 != #[trigger] r[j].0,
{
    assert forall|i: int| 0 <= i < r.len() implies #[trigger] r[i].1 > 0 by {
        assert(m.contains_key(price_key(r[i].0)));
    }
    assert forall|i: int, j: int| 0 <= i < j < r.len() implies #[trigger] r[i].0 != #[trigger] r[j].0 by {
        assert(price_key(r[i].0) != price_key(r[j].0));
    }
}

/// Setting a price that the side does not hold and then removing it leaves the side as it
/// was.
pub proof fn lemma_add_then_remove(m: Map<u64, Level>, price: u64, qty: u64)
    requires
        !m.contains_key(price_key(canonical(price))),
    ensures
        apply_level(apply_level(m, canonical(price), qty), canonical(price), 0) == m,
{
    assert(apply_level(apply_level(m, canonical(price), qty), canonical(price), 0) =~= m);
}

/// A sparse order book for one instrument.
pub struct OrderBook {
    pub timestamp: u64,
    pub seq_no: u64,
    pub id: u64,
    pub bids: BTreeMap<u64, Level>,
    pub asks: BTreeMap<u64, Level>,
}

impl OrderBook {
    /// Both sides keep each level under its own price's key, with a non-zero quantity.
    pub open spec fn wf(&self) -> bool {
        side_ok(self.bids@) && side_ok(self.asks@)
    }

    /// The bid levels by price key.
    pub open spec fn bid_map(&self) -> Map<u64, Level> {
        self.bids@
    }

    /// The ask levels by price key.
    pub open spec fn ask_map(&self) -> Map<u64, Level> {
        self.asks@
    }

    /// An empty book for instrument `id`, at sequence number and timestamp zero.
    pub fn new(id: u64) -> (r: Self)
        ensures
            r.wf(),
            r.id == id,
            r.seq_no == 0,
            r.timestamp == 0,
            r.bid_map() == Map::<u64, Level>::empty(),
            r.ask_map() == Map::<u64, Level>::empty(),
    {
        OrderBook { id, seq_no: 0, timestamp: 0, bids: BTreeMap::new(), asks: BTreeMap::new() }
    }

    /// Sets (`volume > 0`) or removes (`volume == 0`) the bid level at `price`.
    /// A NaN price is refused with `InvalidData` and leaves the book as it was.
    pub fn add_bid(&mut self, price: u64, volume: u64) -> (r: Result<(), Error>)
        requires
            old(self).wf(),
        ensures
            final(self).wf(),
            final(self).ask_map() == old(self).ask_map(),
            final(self).id == old(self).id,
            final(self).seq_no == old(self).seq_no,
            final(self).timestamp == old(self).timestamp,
            r is Err <==> is_nan(price),
            r matches Err(e) ==> e is InvalidData && final(self).bid_map() == old(self).bid_map(),
            r is Ok ==> final(self).bid_map() == apply_level(old(self).bid_map(), canonical(price), volume),
    {
        let level = PriceLevel::new(if price == SIGN_BIT { 0 } else { price });
        proof {
            assert(0x8000_0000_0000_0000u64 & 0x7ff0_0000_0000_0000u64 == 0u64) by (bit_vector);
            assert(0u64 & 0x7ff0_0000_0000_0000u64 == 0u64) by (bit_vector);
        }
        if level.is_nan() {
            return Err(Error::InvalidData(String::from_str("price is NaN")));
        }
        let key = level.key();
        if volume == 0u64 {
            self.bids.remove(&key);
        } else {
            self.bids.insert(key, Level::new(level.price, volume));
        }
        Ok(())
    }

    /// Sets (`volume > 0`) or removes (`volume == 0`) the ask level at `price`.
    /// A NaN price is refused with `InvalidData` and leaves the book as it was.
    pub fn add_ask(&mut self, price: u64, volume: u64) -> (r: Result<(), Error>)
        requires
            old(self).wf(),
        ensures
            final(self).wf(),
            final(self).bid_map() == old(self).bid_map(),
            final(self).id == old(self).id,
            final(self).seq_no == old(self).seq_no,
            final(self).timestamp == old(self).timestamp,
            r is Err <==> is_nan(price),
            r matches Err(e) ==> e is InvalidData && final(self).ask_map() == old(self).ask_map(),
            r is Ok ==> final(self).ask_map() == apply_level(old(self).ask_map(), canonical(price), volume),
    {
        let level = PriceLevel::new(if price == SIGN_BIT { 0 } else { price });
        proof {
            assert(0x8000_0000_0000_0000u64 & 0x7ff0_0000_0000_0000u64 == 0u64) by (bit_vector);
            assert(0u64 & 0x7ff0_0000_0000_0000u64 == 0u64) by (bit_vector);
        }
        if level.is_nan() {
            return Err(Error::InvalidData(String::from_str("price is NaN")));
        }
        let key = level.key();
        if volume == 0u64 {
            self.asks.remove(&key);
        } else {
            self.asks.insert(key, Level::new(level.price, volume));
        }
        Ok(())
    }

    /// Empties both sides; the sequence number and timestamp stay.
    pub fn clear(&mut self)
        ensures
            final(self).wf(),
            final(self).bid_map() == Map::<u64, Level>::empty(),
            final(self).ask_map() == Map::<u64, Level>::empty(),
            final(self).id == old(self).id,
            final(self).seq_no == old(self).seq_no,
            final(self).timestamp == old(self).timestamp,
    {
        self.bids.clear();
        self.asks.clear();
    }

    /// The bid levels as (price, quantity), highest price first.
    pub fn get_bids(&self) -> (r: Vec<(u64, u64)>)
        requires
            self.wf(),
        ensures
            lists_descending(self.bid_map(), r@),
    {
        descending_levels(&self.bids)
    }

    /// The ask levels as (price, quantity), lowest price first.
    pub fn get_asks(&self) -> (r: Vec<(u64, u64)>)
        requires
            self.wf(),
        ensures
            lists_ascending(self.ask_map(), r@),
    {
        ascending_levels(&self.asks)
    }

    /// The highest bid.
    pub fn best_bid(&self) -> (r: Option<(u64, u64)>)
        requires
            self.wf(),
        ensures
            is_highest(self.bid_map(), r),
    {
        let levels = ascending_levels(&self.bids);
        proof {
            lemma_ends(self.bids@, levels@);
        }
        if levels.len() == 0 {
            None
        } else {
            Some(levels[levels.len() - 1])
        }
    }

    /// The lowest ask.
    pub fn best_ask(&self) -> (r: Option<(u64, u64)>)
        requires
            self.wf(),
        ensures
            is_lowest(self.ask_map(), r),
    {
        let levels = ascending_levels(&self.asks);
        proof {
            lemma_ends(self.asks@, levels@);
        }
        if levels.len() == 0 {
            None
        } else {
            Some(levels[0])
        }
    }

    /// The lowest bid.
    pub fn worst_bid(&self) -> (r: Option<(u64, u64)>)
        requires
            self.wf(),
        ensures
            is_lowest(self.bid_map(), r),
    {
        let levels = ascending_levels(&self.bids);
        proof {
            lemma_ends(self.bids@, levels@);
        }
        if levels.len() == 0 {
            None
        } else {
            Some(levels[0])
        }
    }

    /// The highest ask.
    pub fn worst_ask(&self) -> (r: Option<(u64, u64)>)
        requires
            self.wf(),
        ensures
            is_highest(self.ask_map(), r),
    {
        let levels = ascending_levels(&self.asks);
        proof {
            lemma_ends(self.asks@, levels@);
        }
        if levels.len() == 0 {
            None
        } else {
            Some(levels[levels.len() - 1])
        }
    }
}

} // verus!
