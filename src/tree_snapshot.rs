//! Snapshot records into sparse books.
use vstd::prelude::*;
use crate::error::Error;
use crate::stream::BookState;
use crate::tree_book::{apply_level, canonical, is_nan, price_key, Level, OrderBook};
use crate::wire::{
    read_u64, snapshot_ask_price, snapshot_ask_qty, snapshot_bid_price, snapshot_bid_qty, u64_at,
    SNAPSHOT_DEPTH, SNAPSHOT_ID_OFFSET, SNAPSHOT_METADATA_SIZE, SNAPSHOT_RECORD_SIZE,
    SNAPSHOT_SEQ_NO_OFFSET, SNAPSHOT_TIMESTAMP_OFFSET,
};

verus! {

/// One side of a snapshot record applied, rank by rank, to an empty side: the first `n`
/// ranks of the bids (`bids`) or of the asks.
pub open spec fn snapshot_side(buf: Seq<u8>, n: nat, bids: bool) -> Map<u64, Level>
    decreases n,
{
    if n == 0 {
        Map::empty()
    } else {
        let r = n - 1;
        let (price, qty) = if bids {
            (snapshot_bid_price(buf, r), snapshot_bid_qty(buf, r))
        } else {
            (snapshot_ask_price(buf, r), snapshot_ask_qty(buf, r))
        };
        apply_level(snapshot_side(buf, (n - 1) as nat, bids), canonical(price), qty)
    }
}

/// The price of rank `r` on one side of a snapshot record.
pub open spec fn rank_price(buf: Seq<u8>, r: int, bids: bool) -> u64 {
    if bids {
        snapshot_bid_price(buf, r)
    } else {
        snapshot_ask_price(buf, r)
    }
}

/// The quantity of rank `r` on one side of a snapshot record.
pub open spec fn rank_qty(buf: Seq<u8>, r: int, bids: bool) -> u64 {
    if bids {
        snapshot_bid_qty(buf, r)
    } else {
        snapshot_ask_qty(buf, r)
    }
}

pub open spec fn rank_key(buf: Seq<u8>, r: int, bids: bool) -> u64 {
    price_key(canonical(rank_price(buf, r, bids)))
}

/// When the first `n` ranks of a side name distinct prices, the decoded side holds exactly
/// the ranks of non-zero quantity, each at its price with its quantity.
pub proof fn lemma_snapshot_side_levels(buf: Seq<u8>, n: nat, bids: bool)
    requires
        forall|a: int, b: int| 0 <= a < b < n ==> #[trigger] rank_key(buf, a, bids) != #[trigger] rank_key(buf, b, bids),
    ensures
        forall|r: int| 0 <= r < n && rank_qty(buf, r, bids) > 0 ==> #[trigger] snapshot_side(buf, n, bids).contains_key(rank_key(buf, r, bids))
            && snapshot_side(buf, n, bids)[rank_key(buf, r, bids)] == (Level {
                price: canonical(rank_price(buf, r, bids)),
                qty: rank_qty(buf, r, bids),
            }),
        forall|r: int| 0 <= r < n && rank_qty(buf, r, bids) == 0 ==> !#[trigger] snapshot_side(buf, n, bids).contains_key(rank_key(buf, r, bids)),
        forall|k: u64| #[trigger] snapshot_side(buf, n, bids).contains_key(k) ==> exists|r: int|
            0 <= r < n && rank_key(buf, r, bids) == k && rank_qty(buf, r, bids) > 0,
    decreases n,
{
    if n > 0 {
        lemma_snapshot_side_levels(buf, (n - 1) as nat, bids);
        let prev = snapshot_side(buf, (n - 1) as nat, bids);
        let cur = snapshot_side(buf, n, bids);
        let last = n - 1;
        assert(cur == apply_level(prev, canonical(rank_price(buf, last, bids)), rank_qty(buf, last, bids)));
        assert forall|r: int| 0 <= r < n && rank_qty(buf, r, bids) > 0 implies #[trigger] cur.contains_key(rank_key(buf, r, bids))
            && cur[rank_key(buf, r, bids)] == (Level {
                price: canonical(rank_price(buf, r, bids)),
                qty: rank_qty(buf, r, bids),
            }) by {
            if r < last {
                assert(rank_key(buf, r, bids) != rank_key(buf, last, bids));
                assert(prev.contains_key(rank_key(buf, r, bids)));
            }
        }
        assert forall|r: int| 0 <= r < n && rank_qty(buf, r, bids) == 0 implies !#[trigger] cur.contains_key(rank_key(buf, r, bids)) by {
            if r < last {
                assert(rank_key(buf, r, bids) != rank_key(buf, last, bids));
                assert(!prev.contains_key(rank_key(buf, r, bids)));
            }
        }
        assert forall|k: u64| #[trigger] cur.contains_key(k) implies exists|r: int|
            0 <= r < n && rank_key(buf, r, bids) == k && rank_qty(buf, r, bids) > 0 by {
            if k != rank_key(buf, last, bids) {
                assert(prev.contains_key(k));
            }
        }
    }
}

/// What a snapshot record makes of its book: sequence number, timestamp, id, bids, asks.
pub open spec fn snapshot_state(rec: Seq<u8>) -> BookState {
    (
        u64_at(rec, SNAPSHOT_SEQ_NO_OFFSET as int) as u64,
        u64_at(rec, SNAPSHOT_TIMESTAMP_OFFSET as int) as u64,
        u64_at(rec, SNAPSHOT_ID_OFFSET as int) as u64,
        snapshot_side(rec, 5, true),
        snapshot_side(rec, 5, false),
    )
}

/// The bid or the ask price of rank `r` is a NaN.
pub open spec fn rank_has_nan(buf: Seq<u8>, r: int) -> bool {
    is_nan(snapshot_bid_price(buf, r)) || is_nan(snapshot_ask_price(buf, r))
}

/// Some price among the first `n` ranks of the record is a NaN.
pub open spec fn snapshot_has_nan(buf: Seq<u8>, n: int) -> bool {
    exists|r: int| 0 <= r < n && #[trigger] rank_has_nan(buf, r)
}

/// Decodes one snapshot record into a fresh book: the header's id, sequence number and
/// timestamp, then the five bid and five ask ranks, interleaved, each applied as a level
/// change. A short buffer gives `BufferTooSmall`, a NaN price `InvalidData`.
pub fn read(buf: &[u8]) -> (r: Result<OrderBook, Error>)
    ensures
        buf@.len() < SNAPSHOT_RECORD_SIZE ==> r == Err::<OrderBook, Error>(Error::BufferTooSmall),
        buf@.len() >= SNAPSHOT_RECORD_SIZE ==> (r is Err <==> snapshot_has_nan(buf@, 5)),
        buf@.len() >= SNAPSHOT_RECORD_SIZE ==> (r matches Err(e) ==> e is InvalidData),
        r matches Ok(b) ==> {
            &&& b.wf()
            &&& b.timestamp == u64_at(buf@, SNAPSHOT_TIMESTAMP_OFFSET as int)
            &&& b.seq_no == u64_at(buf@, SNAPSHOT_SEQ_NO_OFFSET as int)
            &&& b.id == u64_at(buf@, SNAPSHOT_ID_OFFSET as int)
            &&& b.bid_map() == snapshot_side(buf@, 5, true)
            &&& b.ask_map() == snapshot_side(buf@, 5, false)
        },
{
    if buf.len() < SNAPSHOT_RECORD_SIZE {
        return Err(Error::BufferTooSmall);
    }
    let id = read_u64(buf, SNAPSHOT_ID_OFFSET);
    let mut orderbook = OrderBook::new(id);
    orderbook.timestamp = read_u64(buf, SNAPSHOT_TIMESTAMP_OFFSET);
    orderbook.seq_no = read_u64(buf, SNAPSHOT_SEQ_NO_OFFSET);
    let mut offset: usize = SNAPSHOT_METADATA_SIZE;
    for rank in 0..SNAPSHOT_DEPTH
        invariant
            buf@.len() >= SNAPSHOT_RECORD_SIZE,
            offset == SNAPSHOT_METADATA_SIZE + 32 * rank,
            orderbook.wf(),
            orderbook.timestamp == u64_at(buf@, SNAPSHOT_TIMESTAMP_OFFSET as int),
            orderbook.seq_no == u64_at(buf@, SNAPSHOT_SEQ_NO_OFFSET as int),
            orderbook.id == u64_at(buf@, SNAPSHOT_ID_OFFSET as int),
            orderbook.bid_map() == snapshot_side(buf@, rank as nat, true),
            orderbook.ask_map() == snapshot_side(buf@, rank as nat, false),
            !snapshot_has_nan(buf@, rank as int),
    {
        let price = read_u64(buf, offset);
        let qty = read_u64(buf, offset + 8);
        match orderbook.add_bid(price, qty) {
            Ok(()) => {},
            Err(e) => {
                assert(rank_has_nan(buf@, rank as int));
                return Err(e);
            },
        }
        let price = read_u64(buf, offset + 16);
        let qty = read_u64(buf, offset + 24);
        match orderbook.add_ask(price, qty) {
            Ok(()) => {},
            Err(e) => {
                assert(price == snapshot_ask_price(buf@, rank as int));
                assert(is_nan(snapshot_ask_price(buf@, rank as int)));
                assert(rank_has_nan(buf@, rank as int));
                return Err(e);
            },
        }
        offset = offset + 32;
        proof {
            assert(!is_nan(snapshot_bid_price(buf@, rank as int)));
            assert(!is_nan(snapshot_ask_price(buf@, rank as int)));
            assert forall|r: int| 0 <= r < rank + 1 implies !#[trigger] rank_has_nan(buf@, r) by {
                if r < rank {
                    assert(!snapshot_has_nan(buf@, rank as int));
                }
            }
        }
    }
    Ok(orderbook)
}

} // verus!
