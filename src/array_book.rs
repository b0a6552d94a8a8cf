//! The dense book: one fixed price grid per instrument, each side an `OrderBookSide`.
//!
//! Levels are addressed by grid index. Turning a wire price into a grid index, and back, is
//! arithmetic on the instrument's grid (minimum price, tick size) and is left to the caller;
//! the decoders reach it through `PriceGrid`.
use vstd::prelude::*;
use crate::array_side::{levels_of, OrderBookSide, MAX_LEVELS};
use crate::error::Error;

verus! {

/// A dense order book for one instrument.
pub struct OrderBook {
    pub seq_no: u64,
    pub timestamp: u64,
    pub bids: OrderBookSide,
    pub asks: OrderBookSide,
    pub id: u64,
    pub capacity: usize,
}

impl OrderBook {
    /// Bids descend, asks ascend, both over one grid.
    pub open spec fn wf(&self) -> bool {
        &&& self.bids.wf()
        &&& self.asks.wf()
        &&& self.bids.descending()
        &&& !self.asks.descending()
        &&& self.bids.capacity() == self.asks.capacity()
        &&& self.capacity <= MAX_LEVELS
    }

    /// The number of grid levels the sides hold.
    pub open spec fn grid_len(&self) -> nat {
        self.bids.capacity()
    }

    /// Bids are listed by strictly descending grid index, asks by strictly ascending grid
    /// index, no index twice and no level with a zero volume.
    pub proof fn lemma_sides_ordered(&self)
        requires
            self.wf(),
        ensures
            forall|i: int, j: int| 0 <= i < j < self.bids@.len() ==> #[trigger] self.bids@[i].0 > #[trigger] self.bids@[j].0,
            forall|i: int, j: int| 0 <= i < j < self.asks@.len() ==> #[trigger] self.asks@[i].0 < #[trigger] self.asks@[j].0,
            forall|i: int| 0 <= i < self.bids@.len() ==> #[trigger] self.bids@[i].1 > 0,
            forall|i: int| 0 <= i < self.asks@.len() ==> #[trigger] self.asks@[i].1 > 0,
    {
        self.bids.lemma_levels_ordered();
        self.asks.lemma_levels_ordered();
    }

    /// Each side lists exactly `levels_of` its volumes: bids by descending grid index, asks
    /// by ascending grid index.
    pub proof fn lemma_listings(&self)
        requires
            self.wf(),
        ensures
            self.bids@ == levels_of(self.bids.volume_seq(), true),
            self.asks@ == levels_of(self.asks.volume_seq(), false),
    {
        self.bids.lemma_levels_of();
        self.asks.lemma_levels_of();
    }

    /// Adding a bid at an empty grid index and then adding zero there leaves the bids as
    /// they were.
    pub proof fn lemma_bid_add_then_remove(b0: &Self, b1: &Self, b2: &Self, index: usize, qty: u64)
        requires
            b0.wf(),
            b1.wf(),
            b2.wf(),
            index < b0.grid_len(),
            b0.bids.volume(index as int) == 0,
            b1.bids.volume_seq() == b0.bids.volume_seq().update(index as int, qty),
            b2.bids.volume_seq() == b1.bids.volume_seq().update(index as int, 0),
        ensures
            b2.bids@ == b0.bids@,
    {
        OrderBookSide::lemma_set_then_unset_restores(&b0.bids, &b1.bids, &b2.bids, index, qty);
    }

    /// Adding an ask at an empty grid index and then adding zero there leaves the asks as
    /// they were.
    pub proof fn lemma_ask_add_then_remove(b0: &Self, b1: &Self, b2: &Self, index: usize, qty: u64)
        requires
            b0.wf(),
            b1.wf(),
            b2.wf(),
            index < b0.grid_len(),
            b0.asks.volume(index as int) == 0,
            b1.asks.volume_seq() == b0.asks.volume_seq().update(index as int, qty),
            b2.asks.volume_seq() == b1.asks.volume_seq().update(index as int, 0),
        ensures
            b2.asks@ == b0.asks@,
    {
        OrderBookSide::lemma_set_then_unset_restores(&b0.asks, &b1.asks, &b2.asks, index, qty);
    }

    /// A book for instrument `id` whose grid has `capacity` levels; `init` allocates them.
    pub fn new(id: u64, capacity: usize) -> (r: Self)
        requires
            capacity <= MAX_LEVELS,
        ensures
            r.wf(),
            r.id == id,
            r.capacity == capacity,
            r.grid_len() == 0,
            r.bids@.len() == 0,
            r.asks@.len() == 0,
            r.seq_no == 0,
            r.timestamp == 0,
    {
        OrderBook {
            bids: OrderBookSide::new(true),
            asks: OrderBookSide::new(false),
            id,
            capacity,
            seq_no: 0,
            timestamp: 0,
        }
    }

    /// Allocates the grid: both sides get `capacity` empty levels.
    pub fn init(&mut self)
        requires
            old(self).wf(),
        ensures
            final(self).wf(),
            final(self).grid_len() == old(self).capacity,
            final(self).bids.volume_seq() == Seq::new(old(self).capacity as nat, |i: int| 0u64),
            final(self).asks.volume_seq() == Seq::new(old(self).capacity as nat, |i: int| 0u64),
            final(self).bids@.len() == 0,
            final(self).asks@.len() == 0,
            final(self).id == old(self).id,
            final(self).capacity == old(self).capacity,
            final(self).seq_no == old(self).seq_no,
            final(self).timestamp == old(self).timestamp,
    {
        let capacity = self.capacity;
        self.bids.init(capacity);
        self.asks.init(capacity);
    }

    pub fn id(&self) -> (r: u64)
        ensures
            r == self.id,
    {
        self.id
    }

    /// Sets the bid volume at grid index `index`; an index off the grid is refused with
    /// `InvalidData` and leaves the book as it was.
    pub fn add_bid(&mut self, index: usize, qty: u64) -> (r: Result<(), Error>)
        requires
            old(self).wf(),
        ensures
            final(self).wf(),
            r is Err <==> index >= old(self).grid_len(),
            r matches Err(e) ==> e is InvalidData && final(self).bids == old(self).bids,
            r is Ok ==> final(self).bids.volume_seq() == old(self).bids.volume_seq().update(
                index as int,
                qty,
            ),
            final(self).bids@ == levels_of(final(self).bids.volume_seq(), true),
            final(self).grid_len() == old(self).grid_len(),
            final(self).asks == old(self).asks,
            final(self).id == old(self).id,
            final(self).capacity == old(self).capacity,
            final(self).seq_no == old(self).seq_no,
            final(self).timestamp == old(self).timestamp,
    {
        if index >= self.bids.size() {
            proof {
                self.bids.lemma_levels_of();
            }
            return Err(Error::InvalidData(String::from_str("price is out of bounds")));
        }
        self.bids.update(index, qty);
        Ok(())
    }

    /// Sets the ask volume at grid index `index`; an index off the grid is refused with
    /// `InvalidData` and leaves the book as it was.
    pub fn add_ask(&mut self, index: usize, qty: u64) -> (r: Result<(), Error>)
        requires
            old(self).wf(),
        ensures
            final(self).wf(),
            r is Err <==> index >= old(self).grid_len(),
            r matches Err(e) ==> e is InvalidData && final(self).asks == old(self).asks,
            r is Ok ==> final(self).asks.volume_seq() == old(self).asks.volume_seq().update(
                index as int,
                qty,
            ),
            final(self).asks@ == levels_of(final(self).asks.volume_seq(), false),
            final(self).grid_len() == old(self).grid_len(),
            final(self).bids == old(self).bids,
            final(self).id == old(self).id,
            final(self).capacity == old(self).capacity,
            final(self).seq_no == old(self).seq_no,
            final(self).timestamp == old(self).timestamp,
    {
        if index >= self.asks.size() {
            proof {
                self.asks.lemma_levels_of();
            }
            return Err(Error::InvalidData(String::from_str("price is out of bounds")));
        }
        self.asks.update(index, qty);
        Ok(())
    }

    /// The bid levels as (grid index, volume), highest index first.
    pub fn get_bids(&self) -> (r: Vec<(usize, u64)>)
        requires
            self.wf(),
        ensures
            r@ == self.bids@,
    {
        self.bids.levels()
    }

    /// The ask levels as (grid index, volume), lowest index first.
    pub fn get_asks(&self) -> (r: Vec<(usize, u64)>)
        requires
            self.wf(),
        ensures
            r@ == self.asks@,
    {
        self.asks.levels()
    }

    pub fn best_bid(&self) -> (r: Option<(usize, u64)>)
        requires
            self.wf(),
        ensures
            r == (if self.bids@.len() == 0 { None } else { Some(self.bids@[0]) }),
    {
        self.bids.head()
    }

    pub fn best_ask(&self) -> (r: Option<(usize, u64)>)
        requires
            self.wf(),
        ensures
            r == (if self.asks@.len() == 0 { None } else { Some(self.asks@[0]) }),
    {
        self.asks.head()
    }

    pub fn worst_bid(&self) -> (r: Option<(usize, u64)>)
        requires
            self.wf(),
        ensures
            r == (if self.bids@.len() == 0 { None } else { Some(self.bids@.last()) }),
    {
        self.bids.tail()
    }

    pub fn worst_ask(&self) -> (r: Option<(usize, u64)>)
        requires
            self.wf(),
        ensures
            r == (if self.asks@.len() == 0 { None } else { Some(self.asks@.last()) }),
    {
        self.asks.tail()
    }

    /// Empties both sides and resets the sequence number and timestamp to zero.
    pub fn clear(&mut self)
        requires
            old(self).wf(),
        ensures
            final(self).wf(),
            final(self).bids@.len() == 0,
            final(self).asks@.len() == 0,
            forall|i: int| 0 <= i < final(self).grid_len() ==> final(self).bids.volume(i) == 0,
            forall|i: int| 0 <= i < final(self).grid_len() ==> final(self).asks.volume(i) == 0,
            final(self).bids.volume_seq() == Seq::new(old(self).grid_len(), |i: int| 0u64),
            final(self).asks.volume_seq() == Seq::new(old(self).grid_len(), |i: int| 0u64),
            final(self).grid_len() == old(self).grid_len(),
            final(self).id == old(self).id,
            final(self).capacity == old(self).capacity,
            final(self).seq_no == 0,
            final(self).timestamp == 0,
    {
        self.bids.clear();
        self.asks.clear();
        self.seq_no = 0;
        self.timestamp = 0;
    }
}

} // verus!
