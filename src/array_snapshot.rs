//! Snapshot records into dense books.
use vstd::prelude::*;
use std::collections::HashMap;
use crate::array_book::OrderBook;
use crate::array_side::levels_of;
use crate::error::Error;
use crate::wire::{
    read_u64, snapshot_ask_qty, snapshot_bid_qty, u64_at, SNAPSHOT_DEPTH, SNAPSHOT_ID_OFFSET,
    SNAPSHOT_METADATA_SIZE, SNAPSHOT_RECORD_SIZE, SNAPSHOT_SEQ_NO_OFFSET, SNAPSHOT_TIMESTAMP_OFFSET,
};

verus! {

broadcast use vstd::std_specs::hash::group_hash_axioms;

/// Places wire prices on an instrument's price grid.
pub trait PriceGrid {
    /// The grid index of `price` (an IEEE-754 binary64 bit pattern) for instrument `id`; an
    /// index past the grid's end for a price outside it.
    fn price_to_index(&self, id: u64, price: u64) -> usize;
}

/// Every book of the collection is well formed.
pub open spec fn books_ok(m: Map<u64, OrderBook>) -> bool {
    forall|k: u64| #[trigger] m.contains_key(k) ==> m[k].wf()
}

/// A grid of `n` empty levels.
pub open spec fn empty_grid(n: nat) -> Seq<u64> {
    Seq::new(n, |i: int| 0u64)
}

/// One side of a snapshot record applied to the volumes `base`, rank by rank, rank `r`
/// landing on grid index `index[r]`.
pub open spec fn snapshot_volumes(buf: Seq<u8>, index: Seq<usize>, n: nat, bids: bool, base: Seq<u64>) -> Seq<u64>
    decreases n,
{
    if n == 0 {
        base
    } else {
        let r = n - 1;
        let qty = if bids {
            snapshot_bid_qty(buf, r)
        } else {
            snapshot_ask_qty(buf, r)
        };
        snapshot_volumes(buf, index, (n - 1) as nat, bids, base).update(index[r] as int, qty)
    }
}

pub open spec fn rank_qty(buf: Seq<u8>, r: int, bids: bool) -> u64 {
    if bids {
        snapshot_bid_qty(buf, r)
    } else {
        snapshot_ask_qty(buf, r)
    }
}

/// When the first `n` ranks of a side land on distinct grid indices, each of those indices
/// ends up with its rank's quantity and every other index keeps its volume.
pub proof fn lemma_snapshot_volumes(buf: Seq<u8>, index: Seq<usize>, n: nat, bids: bool, base: Seq<u64>)
    requires
        n <= index.len(),
        forall|r: int| 0 <= r < n ==> #[trigger] index[r] < base.len(),
        forall|a: int, b: int| 0 <= a < b < n ==> #[trigger] index[a] != #[trigger] index[b],
    ensures
        snapshot_volumes(buf, index, n, bids, base).len() == base.len(),
        forall|r: int| 0 <= r < n ==> #[trigger] snapshot_volumes(buf, index, n, bids, base)[index[r] as int] == rank_qty(buf, r, bids),
        forall|i: int| 0 <= i < base.len() && (forall|r: int| 0 <= r < n ==> index[r] != i) ==> #[trigger] snapshot_volumes(buf, index, n, bids, base)[i] == base[i],
    decreases n,
{
    if n > 0 {
        lemma_snapshot_volumes(buf, index, (n - 1) as nat, bids, base);
        let prev = snapshot_volumes(buf, index, (n - 1) as nat, bids, base);
        let cur = snapshot_volumes(buf, index, n, bids, base);
        let last = n - 1;
        assert forall|r: int| 0 <= r < n implies #[trigger] cur[index[r] as int] == rank_qty(buf, r, bids) by {
            if r < last {
                assert(index[r] != index[last]);
                assert(prev[index[r] as int] == rank_qty(buf, r, bids));
            }
        }
        assert forall|i: int| 0 <= i < base.len() && (forall|r: int| 0 <= r < n ==> index[r] != i) implies #[trigger] cur[i] == base[i] by {
            assert(index[last] != i);
            assert(prev[i] == base[i]);
        }
    }
}

/// Some rank among the first `n` lands off a grid of `len` levels.
pub open spec fn snapshot_off_grid(bid_index: Seq<usize>, ask_index: Seq<usize>, n: int, len: nat) -> bool {
    exists|r: int| 0 <= r < n && #[trigger] rank_off_grid(bid_index, ask_index, r, len)
}

pub open spec fn rank_off_grid(bid_index: Seq<usize>, ask_index: Seq<usize>, r: int, len: nat) -> bool {
    bid_index[r] >= len || ask_index[r] >= len
}

/// Replaces the state of `book` with a snapshot record whose ranks sit at the given grid
/// indices: the book is cleared, takes the record's timestamp and sequence number, and each
/// rank is set in turn. A rank off the grid stops it with `InvalidData`.
pub fn apply_snapshot(book: &mut OrderBook, buf: &[u8], bid_index: &[usize], ask_index: &[usize]) -> (r: Result<(), Error>)
    requires
        old(book).wf(),
        buf@.len() >= SNAPSHOT_RECORD_SIZE,
        bid_index@.len() == SNAPSHOT_DEPTH,
        ask_index@.len() == SNAPSHOT_DEPTH,
    ensures
        final(book).wf(),
        final(book).grid_len() == old(book).grid_len(),
        final(book).id == old(book).id,
        final(book).capacity == old(book).capacity,
        final(book).timestamp == u64_at(buf@, SNAPSHOT_TIMESTAMP_OFFSET as int),
        final(book).seq_no == u64_at(buf@, SNAPSHOT_SEQ_NO_OFFSET as int),
        r is Err <==> snapshot_off_grid(bid_index@, ask_index@, SNAPSHOT_DEPTH as int, old(book).grid_len()),
        r matches Err(e) ==> e is InvalidData,
        r is Ok ==> final(book).bids.volume_seq() == snapshot_volumes(
            buf@,
            bid_index@,
            SNAPSHOT_DEPTH as nat,
            true,
            empty_grid(old(book).grid_len()),
        ),
        r is Ok ==> final(book).asks.volume_seq() == snapshot_volumes(
            buf@,
            ask_index@,
            SNAPSHOT_DEPTH as nat,
            false,
            empty_grid(old(book).grid_len()),
        ),
        final(book).bids@ == levels_of(final(book).bids.volume_seq(), true),
        final(book).asks@ == levels_of(final(book).asks.volume_seq(), false),
{
    book.clear();
    let ghost len = book.grid_len();
    proof {
        book.bids.lemma_volume_seq();
        book.asks.lemma_volume_seq();
    }
    assert(book.bids.volume_seq() =~= empty_grid(len));
    assert(book.asks.volume_seq() =~= empty_grid(len));
    book.timestamp = read_u64(buf, SNAPSHOT_TIMESTAMP_OFFSET);
    book.seq_no = read_u64(buf, SNAPSHOT_SEQ_NO_OFFSET);
    let mut offset: usize = SNAPSHOT_METADATA_SIZE;
    for rank in 0..SNAPSHOT_DEPTH
        invariant
            buf@.len() >= SNAPSHOT_RECORD_SIZE,
            bid_index@.len() == SNAPSHOT_DEPTH,
            ask_index@.len() == SNAPSHOT_DEPTH,
            offset == SNAPSHOT_METADATA_SIZE + 32 * rank,
            book.wf(),
            book.grid_len() == len,
            len == old(book).grid_len(),
            book.id == old(book).id,
            book.capacity == old(book).capacity,
            book.timestamp == u64_at(buf@, SNAPSHOT_TIMESTAMP_OFFSET as int),
            book.seq_no == u64_at(buf@, SNAPSHOT_SEQ_NO_OFFSET as int),
            book.bids.volume_seq() == snapshot_volumes(buf@, bid_index@, rank as nat, true, empty_grid(len)),
            book.asks.volume_seq() == snapshot_volumes(buf@, ask_index@, rank as nat, false, empty_grid(len)),
            !snapshot_off_grid(bid_index@, ask_index@, rank as int, len),
    {
        let qty = read_u64(buf, offset + 8);
        match book.add_bid(bid_index[rank], qty) {
            Ok(()) => {},
            Err(e) => {
                assert(rank_off_grid(bid_index@, ask_index@, rank as int, len));
                proof {
                    book.lemma_listings();
                }
                return Err(e);
            },
        }
        let qty = read_u64(buf, offset + 24);
        match book.add_ask(ask_index[rank], qty) {
            Ok(()) => {},
            Err(e) => {
                assert(rank_off_grid(bid_index@, ask_index@, rank as int, len));
                proof {
                    book.lemma_listings();
                }
                return Err(e);
            },
        }
        offset = offset + 32;
        proof {
            assert(!rank_off_grid(bid_index@, ask_index@, rank as int, len));
            assert forall|r: int| 0 <= r < rank + 1 implies !#[trigger] rank_off_grid(bid_index@, ask_index@, r, len) by {
                if r < rank {
                    assert(!snapshot_off_grid(bid_index@, ask_index@, rank as int, len));
                }
            }
        }
    }
    proof {
        book.lemma_listings();
    }
    Ok(())
}

/// Decodes one snapshot record into the dense book it names.
///
/// A short buffer gives `BufferTooSmall` and an unknown instrument `OrderBookNotFound`; both
/// leave every book as it was. Otherwise the named book is cleared and takes the record's
/// timestamp, sequence number and levels, each price placed by `grid`; a price off the grid
/// stops it with `InvalidData`. Other books are untouched.
pub fn read<G: PriceGrid>(buf: &[u8], orderbooks: &mut HashMap<u64, OrderBook>, grid: &G) -> (r: Result<(), Error>)
    requires
        books_ok(old(orderbooks)@),
    ensures
        books_ok(final(orderbooks)@),
        final(orderbooks)@.dom() == old(orderbooks)@.dom(),
        buf@.len() < SNAPSHOT_RECORD_SIZE ==> r == Err::<(), Error>(Error::BufferTooSmall),
        buf@.len() < SNAPSHOT_RECORD_SIZE ==> final(orderbooks)@ == old(orderbooks)@,
        buf@.len() >= SNAPSHOT_RECORD_SIZE ==> ({
            let id = u64_at(buf@, SNAPSHOT_ID_OFFSET as int) as u64;
            let before = old(orderbooks)@;
            let after = final(orderbooks)@;
            if !before.contains_key(id) {
                r == Err::<(), Error>(Error::OrderBookNotFound(id)) && after == before
            } else {
                let b = before[id];
                let nb = after[id];
                &&& forall|k: u64| k != id && #[trigger] before.contains_key(k) ==> after[k] == before[k]
                &&& r matches Err(e) ==> e is InvalidData
                &&& nb.id == b.id
                &&& nb.capacity == b.capacity
                &&& nb.grid_len() == b.grid_len()
                &&& nb.timestamp == u64_at(buf@, SNAPSHOT_TIMESTAMP_OFFSET as int)
                &&& nb.seq_no == u64_at(buf@, SNAPSHOT_SEQ_NO_OFFSET as int)
                &&& nb.bids@ == levels_of(nb.bids.volume_seq(), true)
                &&& nb.asks@ == levels_of(nb.asks.volume_seq(), false)
                &&& r is Ok ==> exists|bid_index: Seq<usize>, ask_index: Seq<usize>|
                    {
                        &&& nb.bids.volume_seq() == snapshot_volumes(buf@, bid_index, SNAPSHOT_DEPTH as nat, true, empty_grid(b.grid_len()))
                        &&& nb.asks.volume_seq() == snapshot_volumes(buf@, ask_index, SNAPSHOT_DEPTH as nat, false, empty_grid(b.grid_len()))
                    }
            }
        }),
{
    if buf.len() < SNAPSHOT_RECORD_SIZE {
        return Err(Error::BufferTooSmall);
    }
    let id = read_u64(buf, SNAPSHOT_ID_OFFSET);
    let ghost old_books = orderbooks@;
    let mut orderbook = match orderbooks.remove(&id) {
        Some(b) => b,
        None => {
            return Err(Error::OrderBookNotFound(id));
        },
    };
    assert(old_books.contains_key(id));
    let mut bid_index: Vec<usize> = Vec::new();
    let mut ask_index: Vec<usize> = Vec::new();
    let mut offset: usize = SNAPSHOT_METADATA_SIZE;
    for rank in 0..SNAPSHOT_DEPTH
        invariant
            buf@.len() >= SNAPSHOT_RECORD_SIZE,
            offset == SNAPSHOT_METADATA_SIZE + 32 * rank,
            bid_index@.len() == rank,
            ask_index@.len() == rank,
    {
        bid_index.push(grid.price_to_index(id, read_u64(buf, offset)));
        ask_index.push(grid.price_to_index(id, read_u64(buf, offset + 16)));
        offset = offset + 32;
    }
    let r = apply_snapshot(&mut orderbook, buf, bid_index.as_slice(), ask_index.as_slice());
    orderbooks.insert(id, orderbook);
    assert(orderbooks@.dom() =~= old_books.dom());
    r
}

} // verus!
